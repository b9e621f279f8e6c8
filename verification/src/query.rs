//! Turning the raw `q` parameter into a search plan.
use vstd::prelude::*;
use vstd::utf8::encode_utf8;

use crate::text::{
    all_ascii_digits, byte_len, law_trim_keeps_digits, is_all_ascii_digits, lowercase, split_words, string_views,
    to_lowercase, trim, trimmed, words,
};

verus! {

/// What a request asks for.
#[derive(Debug, Clone, PartialEq, Eq)]
pub enum QueryPlan {
    /// The query is shorter than 3 or longer than 32 bytes once trimmed;
    /// the answer is an empty list.
    Rejected,
    /// An all-digit query: a member-id search.
    ById(String),
    /// Any other query: a name search over these lower-cased tokens.
    ByName(Vec<String>),
}

/// The trimmed query is between 3 and 32 bytes long.
pub open spec fn acceptable_length(t: Seq<char>) -> bool {
    3 <= byte_len(t) <= 32
}

/// Plans a search from the raw query parameter: trims it, rejects it if
/// its length is out of bounds, and otherwise chooses an id search for
/// digits and a name search over the lower-cased words for anything else.
pub fn plan_query(raw: &str) -> (res: QueryPlan)
    ensures
        !acceptable_length(trimmed(raw@)) ==> res is Rejected,
        acceptable_length(trimmed(raw@)) && all_ascii_digits(trimmed(raw@)) ==> (res matches QueryPlan::ById(s) && s@ == trimmed(raw@)),
        acceptable_length(trimmed(raw@)) && !all_ascii_digits(trimmed(raw@)) ==> (res matches QueryPlan::ByName(v) && string_views(v@) == words(lowercase(trimmed(raw@)))),
{
    let q = trim(raw);
    let len = q.as_str().as_bytes().len();
    if len < 3 || len > 32 {
        return QueryPlan::Rejected;
    }
    if is_all_ascii_digits(q.as_str()) {
        QueryPlan::ById(q)
    } else {
        let lower = to_lowercase(q.as_str());
        QueryPlan::ByName(split_words(lower.as_str()))
    }
}

/// Law: once trimmed, a query of 3 to 32 bytes, whatever its length in
/// that range, is searched: by id, unchanged, when every character is an
/// ASCII digit, and otherwise by name over the words of its lower-cased
/// text; any other length is rejected.
pub proof fn law_plan_by_length_and_digits(raw: Seq<char>, res: QueryPlan)
    requires
        !acceptable_length(trimmed(raw)) ==> res is Rejected,
        acceptable_length(trimmed(raw)) && all_ascii_digits(trimmed(raw)) ==> (res matches QueryPlan::ById(s) && s@ == trimmed(raw)),
        acceptable_length(trimmed(raw)) && !all_ascii_digits(trimmed(raw)) ==> (res matches QueryPlan::ByName(v) && string_views(v@) == words(lowercase(trimmed(raw)))),
    ensures
        ({
            let t = trimmed(raw);
            let n = encode_utf8(t).len();
            let digits = forall|i: int| 0 <= i < t.len() ==> '0' <= #[trigger] t[i] && t[i] <= '9';
            &&& (res is Rejected <==> !(3 <= n <= 32))
            &&& (3 <= n <= 32 && digits ==> (res matches QueryPlan::ById(s) && s@ == t))
            &&& (3 <= n <= 32 && !digits ==> (res matches QueryPlan::ByName(v) && string_views(v@)
                == words(lowercase(t))))
        }),
{
}

/// Law: a query of 3 to 32 ASCII digits is searched by id exactly as typed.
pub proof fn law_plan_keeps_digit_queries(raw: Seq<char>, res: QueryPlan)
    requires
        !acceptable_length(trimmed(raw)) ==> res is Rejected,
        acceptable_length(trimmed(raw)) && all_ascii_digits(trimmed(raw)) ==> (res matches QueryPlan::ById(s) && s@ == trimmed(raw)),
        acceptable_length(trimmed(raw)) && !all_ascii_digits(trimmed(raw)) ==> (res matches QueryPlan::ByName(v) && string_views(v@) == words(lowercase(trimmed(raw)))),
        forall|i: int| 0 <= i < raw.len() ==> '0' <= #[trigger] raw[i] && raw[i] <= '9',
        3 <= encode_utf8(raw).len() <= 32,
    ensures
        res matches QueryPlan::ById(s) && s@ == raw,
{
    law_trim_keeps_digits(raw);
}

} // verus!
