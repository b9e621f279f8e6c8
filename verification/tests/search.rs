use international_elo::index::SearchIndex;
use international_elo::scoring::{token_match, TokenMatch};

/// A small player list: (member id, display name).
fn sample_players() -> Vec<(&'static str, &'static str)> {
    vec![
        ("72193", "Kanak Jha"),
        ("72190", "Lily Zhang"),
        ("72195", "Jha Kanak Jr"),
        ("10001", "Wang Chen"),
        ("72199", "Li Wang"),
        ("55555", "Amy Wang Wang"),
    ]
}

fn sample_index() -> SearchIndex {
    let mut index = SearchIndex::new();
    for (id, name) in sample_players() {
        index.add_player(id.to_string(), name);
    }
    index
}

/// The name scorer of the service, on top of the library's token
/// classification: exact 1.0, prefix 0.99 less 0.01 per extra byte,
/// Jaro-Winkler otherwise, averaged over the query tokens.
fn score_match(query_tokens: &[String], db_tokens: &[String]) -> f64 {
    if query_tokens.is_empty() || db_tokens.is_empty() {
        return 0.0;
    }
    let mut total = 0.0;
    for q in query_tokens {
        let mut best: f64 = 0.0;
        for d in db_tokens {
            let score = match token_match(q, d) {
                TokenMatch::Exact => 1.0,
                TokenMatch::Prefix(extra) => 0.99 - (extra as f64 * 0.01),
                TokenMatch::Fuzzy => strsim::jaro_winkler(q, d),
                TokenMatch::Unscored => 0.0,
            };
            if score > best {
                best = score;
            }
            if best > 0.98 {
                break;
            }
        }
        total += best;
    }
    total / (query_tokens.len() as f64)
}

#[test]
fn test_id_search_exact() {
    let index = sample_index();
    let query = "72193";
    assert!(index.lookup_id(query).is_some());
}

#[test]
fn test_id_search_prefix() {
    let index = sample_index();
    let query = "7219";
    let matches = index.ids_with_prefix(query, index.len());
    assert!(!matches.is_empty());
}

#[test]
fn test_satisfaction_guardrail() {
    let index = sample_index();
    let players = sample_players();
    // "kank" is not in the index, but "kanak" is.
    let query = vec!["kank".to_string()];
    let candidates = index.name_lookup(&query);
    assert!(candidates.is_empty());

    let mut found = false;
    for i in 0..index.len() {
        let score = score_match(&query, index.tokens_of(i));
        if score > 0.8 && players[i].1 == "Kanak Jha" {
            found = true;
            break;
        }
    }
    assert!(found);
}

#[test]
fn lookup_id_finds_last_holder_of_an_id() {
    let mut index = sample_index();
    index.add_player("72193".to_string(), "Someone Else");
    assert_eq!(index.lookup_id("72193"), Some(6));
    assert_eq!(index.lookup_id("72190"), Some(1));
    assert_eq!(index.lookup_id("7219"), None);
    assert_eq!(index.lookup_id(""), None);
}

#[test]
fn ids_with_prefix_takes_the_first_in_order() {
    let index = sample_index();
    assert_eq!(index.ids_with_prefix("7219", 3), vec![0, 1, 2]);
    assert_eq!(index.ids_with_prefix("7219", 10), vec![0, 1, 2, 4]);
    assert_eq!(index.ids_with_prefix("7219", 0), Vec::<u32>::new());
    assert_eq!(index.ids_with_prefix("999", 3), Vec::<u32>::new());
}

#[test]
fn search_by_id_prefers_the_exact_id() {
    let index = sample_index();
    assert_eq!(index.search_by_id("72195"), vec![2]);
    assert_eq!(index.search_by_id("7219"), vec![0, 1, 2]);
    assert_eq!(index.search_by_id("555"), vec![5]);
    assert_eq!(index.search_by_id("123"), Vec::<u32>::new());
}

#[test]
fn name_tokens_are_lower_cased_words() {
    let index = sample_index();
    assert_eq!(index.tokens_of(0), &vec!["kanak".to_string(), "jha".to_string()]);
    assert_eq!(
        index.tokens_of(5),
        &vec!["amy".to_string(), "wang".to_string(), "wang".to_string()]
    );
    assert_eq!(index.max_name_tokens(), 3);
}

#[test]
fn name_lookup_ranks_by_hits() {
    let index = sample_index();
    let q = vec!["wang".to_string()];
    let r = index.name_lookup(&q);
    // "amy wang wang" holds the token twice.
    assert_eq!(r[0], 5);
    let mut rest: Vec<u32> = r[1..].to_vec();
    rest.sort();
    assert_eq!(rest, vec![3, 4]);

    let q = vec!["kanak".to_string(), "jha".to_string()];
    let mut r = index.name_lookup(&q);
    r.sort();
    assert_eq!(r, vec![0, 2]);

    let q = vec!["li".to_string(), "wang".to_string()];
    let r = index.name_lookup(&q);
    assert_eq!(r.len(), 3);
    assert!(r[0] == 4 || r[0] == 5);
    assert_eq!(r[2], 3);
}

#[test]
fn name_lookup_counts_repeated_query_tokens() {
    let index = sample_index();
    let q = vec!["chen".to_string(), "chen".to_string(), "wang".to_string()];
    let r = index.name_lookup(&q);
    assert_eq!(r[0], 3);
    assert_eq!(r.len(), 3);
}

#[test]
fn name_lookup_of_unknown_or_empty_query_is_empty() {
    let index = sample_index();
    assert!(index.name_lookup(&["zzz".to_string()]).is_empty());
    assert!(index.name_lookup(&[]).is_empty());
    let empty = SearchIndex::new();
    assert!(empty.name_lookup(&["wang".to_string()]).is_empty());
}

#[test]
fn non_candidates_is_the_rest_in_order() {
    let index = sample_index();
    assert_eq!(index.non_candidates(&[4, 0, 99]), vec![1, 2, 3, 5]);
    assert_eq!(index.non_candidates(&[]), vec![0, 1, 2, 3, 4, 5]);
    assert_eq!(index.non_candidates(&[0, 1, 2, 3, 4, 5]), Vec::<u32>::new());
}

#[test]
fn candidates_and_rest_cover_all_players() {
    let index = sample_index();
    let cands = index.name_lookup(&["wang".to_string()]);
    let rest = index.non_candidates(&cands);
    let mut all: Vec<u32> = cands.iter().chain(rest.iter()).copied().collect();
    all.sort();
    assert_eq!(all, vec![0, 1, 2, 3, 4, 5]);
}

#[test]
fn lookup_agrees_with_a_token_scan() {
    let index = sample_index();
    let q = vec!["jha".to_string(), "zhang".to_string()];
    let mut r = index.name_lookup(&q);
    r.sort();
    let mut scan: Vec<u32> = Vec::new();
    for i in 0..index.len() {
        if index.tokens_of(i).iter().any(|t| q.contains(t)) {
            scan.push(i as u32);
        }
    }
    assert_eq!(r, scan);
}

#[test]
fn kank_scores_highest_on_kanak_jha() {
    let index = sample_index();
    let q = vec!["kank".to_string()];
    let s0 = score_match(&q, index.tokens_of(0));
    let s3 = score_match(&q, index.tokens_of(3));
    assert!(s0 > 0.8);
    assert!(s3 < s0);
}
