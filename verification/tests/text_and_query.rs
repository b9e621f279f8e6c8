use international_elo::query::{plan_query, QueryPlan};
use international_elo::response::CommonResponse;
use international_elo::scoring::{token_match, TokenMatch};
use international_elo::text::{
    chars_of, is_all_ascii_digits, same_text, split_words, starts_with, trim, white_space,
};

fn strings(v: &[&str]) -> Vec<String> {
    v.iter().map(|s| s.to_string()).collect()
}

#[test]
fn white_space_follows_unicode() {
    for c in [' ', '\t', '\n', '\r', '\u{b}', '\u{c}', '\u{85}', '\u{a0}', '\u{1680}', '\u{2000}', '\u{200a}', '\u{2028}', '\u{2029}', '\u{202f}', '\u{205f}', '\u{3000}'] {
        assert!(white_space(c), "{:?}", c);
        assert_eq!(white_space(c), c.is_whitespace());
    }
    for c in ['a', '0', '_', '\u{200b}', '\u{feff}', '\u{180e}'] {
        assert!(!white_space(c), "{:?}", c);
        assert_eq!(white_space(c), c.is_whitespace());
    }
}

#[test]
fn trim_removes_outer_white_space() {
    assert_eq!(trim("  kanak jha \t"), "kanak jha");
    assert_eq!(trim("\u{3000}72193\u{a0}"), "72193");
    assert_eq!(trim("   "), "");
    assert_eq!(trim(""), "");
    assert_eq!(trim("x"), "x");
}

#[test]
fn split_words_matches_split_whitespace() {
    for s in ["kanak jha", "  lily   zhang  ", "", "   ", "a\tb\nc", "one", "x\u{3000}y", "é ü"] {
        let expected: Vec<String> = s.split_whitespace().map(|w| w.to_string()).collect();
        assert_eq!(split_words(s), expected);
    }
    assert_eq!(split_words("  Jha  Kanak "), strings(&["Jha", "Kanak"]));
}

#[test]
fn chars_of_lists_characters() {
    assert_eq!(chars_of("añb"), vec!['a', 'ñ', 'b']);
    assert_eq!(chars_of(""), Vec::<char>::new());
}

#[test]
fn digits_and_prefixes() {
    assert!(is_all_ascii_digits("72193"));
    assert!(!is_all_ascii_digits("7219a"));
    assert!(!is_all_ascii_digits("٣٤٥"));
    assert!(is_all_ascii_digits(""));
    assert!(starts_with("72193", "7219"));
    assert!(starts_with("72193", ""));
    assert!(!starts_with("7219", "72193"));
    assert!(!starts_with("72193", "7220"));
    assert!(same_text("jha", "jha"));
    assert!(!same_text("jha", "jhа"));
    assert!(!same_text("jha", "jh"));
}

#[test]
fn plan_rejects_out_of_range_lengths() {
    assert_eq!(plan_query("ab"), QueryPlan::Rejected);
    assert_eq!(plan_query("  ab   "), QueryPlan::Rejected);
    assert_eq!(plan_query(""), QueryPlan::Rejected);
    assert_eq!(plan_query("123456789012345678901234567890123"), QueryPlan::Rejected);
    // Twelve three-byte characters are 36 bytes.
    assert_eq!(plan_query("ああああああああああああ"), QueryPlan::Rejected);
    // Two two-byte characters are four bytes: long enough.
    assert_eq!(plan_query("éé"), QueryPlan::ByName(strings(&["éé"])));
}

#[test]
fn plan_accepts_boundary_lengths() {
    assert_eq!(plan_query("123"), QueryPlan::ById("123".to_string()));
    assert_eq!(
        plan_query("12345678901234567890123456789012"),
        QueryPlan::ById("12345678901234567890123456789012".to_string())
    );
}

#[test]
fn plan_chooses_id_search_for_digits() {
    assert_eq!(plan_query("  72193 "), QueryPlan::ById("72193".to_string()));
    assert_eq!(plan_query("7219"), QueryPlan::ById("7219".to_string()));
    assert_eq!(plan_query("72 193"), QueryPlan::ByName(strings(&["72", "193"])));
}

#[test]
fn plan_lower_cases_and_splits_names() {
    assert_eq!(plan_query("  Kanak   JHA "), QueryPlan::ByName(strings(&["kanak", "jha"])));
    assert_eq!(plan_query("KANK"), QueryPlan::ByName(strings(&["kank"])));
    assert_eq!(plan_query("ÉLODIE"), QueryPlan::ByName(strings(&["élodie"])));
}

#[test]
fn token_match_kinds() {
    assert_eq!(token_match("kanak", "kanak"), TokenMatch::Exact);
    assert_eq!(token_match("kan", "kanak"), TokenMatch::Prefix(2));
    assert_eq!(token_match("jö", "jöe"), TokenMatch::Prefix(1));
    assert_eq!(token_match("jo", "jöe"), TokenMatch::Unscored);
    assert_eq!(token_match("kank", "kanak"), TokenMatch::Fuzzy);
    assert_eq!(token_match("kanak", "kan"), TokenMatch::Fuzzy);
    assert_eq!(token_match("ka", "jha"), TokenMatch::Unscored);
    assert_eq!(token_match("", "jha"), TokenMatch::Prefix(3));
}

#[test]
fn exact_match_outranks_prefix_match() {
    match token_match("li", "lin") {
        TokenMatch::Prefix(extra) => {
            assert!(extra > 0);
            assert!(0.99 - (extra as f64) * 0.01 < 1.0);
        }
        other => panic!("unexpected {:?}", other),
    }
    assert_eq!(token_match("lin", "lin"), TokenMatch::Exact);
}

#[test]
fn common_response_holds_its_fields() {
    let r = CommonResponse { success: true, message: "ok".to_string() };
    let c = r.clone();
    assert!(c.success);
    assert_eq!(c.message, "ok");
}
