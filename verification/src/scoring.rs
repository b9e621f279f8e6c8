//! How a query token relates to a name token; the name scorer turns each
//! kind of match into a score.
use vstd::prelude::*;
use vstd::utf8::encode_utf8;

use crate::text::{byte_len, has_prefix, same_text, starts_with};

verus! {

/// The relation between a query token and a name token.
#[derive(Debug, Clone, Copy, PartialEq, Eq, Structural)]
pub enum TokenMatch {
    /// The tokens are equal.
    Exact,
    /// The name token extends the query token by this many bytes.
    Prefix(usize),
    /// Neither holds and the query token has at least three bytes: the
    /// tokens are compared by string similarity.
    Fuzzy,
    /// Neither holds and the query token is too short to compare.
    Unscored,
}

/// The relation between query token `q` and name token `d`.
pub open spec fn classify(q: Seq<char>, d: Seq<char>) -> TokenMatch {
    if d == q {
        TokenMatch::Exact
    } else if has_prefix(d, q) {
        TokenMatch::Prefix((byte_len(d) - byte_len(q)) as usize)
    } else if byte_len(q) >= 3 {
        TokenMatch::Fuzzy
    } else {
        TokenMatch::Unscored
    }
}

/// Classifies a name token against a query token.
pub fn token_match(query_token: &str, db_token: &str) -> (res: TokenMatch)
    ensures
        res == classify(query_token@, db_token@),
{
    if same_text(db_token, query_token) {
        TokenMatch::Exact
    } else if starts_with(db_token, query_token) {
        let extra = db_token.as_bytes().len() - query_token.as_bytes().len();
        TokenMatch::Prefix(extra)
    } else if query_token.as_bytes().len() >= 3 {
        TokenMatch::Fuzzy
    } else {
        TokenMatch::Unscored
    }
}

/// Law: a token always matches itself exactly.
pub proof fn law_token_matches_itself(t: Seq<char>)
    ensures
        classify(t, t) == TokenMatch::Exact,
{
}

/// Law: a prefix match is proper: the name token is strictly longer, so a
/// prefix match never scores as high as an exact one.
pub proof fn law_prefix_match_is_proper(q: Seq<char>, d: Seq<char>)
    requires
        byte_len(d) <= usize::MAX,
    ensures
        classify(q, d) matches TokenMatch::Prefix(e) ==> e > 0 && e == byte_len(d) - byte_len(q),
{
    if classify(q, d) is Prefix {
        let eq = encode_utf8(q);
        let ed = encode_utf8(d);
        vstd::utf8::encode_utf8_decode_utf8(q);
        vstd::utf8::encode_utf8_decode_utf8(d);
        if eq.len() == ed.len() {
            assert(ed.subrange(0, ed.len() as int) =~= ed);
            assert(eq =~= ed);
        }
    }
}

/// Law: the classification of a query token `q` against a name token `d`,
/// in terms of their UTF-8 bytes: equal tokens match exactly; otherwise, if
/// every byte of `q` begins `d`, it is a prefix match by the difference in
/// length; otherwise a query token of at least three bytes, whatever its
/// length beyond that, is compared by similarity, and a shorter one is not
/// scored.
pub proof fn law_classify_by_bytes(q: Seq<char>, d: Seq<char>)
    requires
        encode_utf8(d).len() <= usize::MAX,
    ensures
        ({
            let eq = encode_utf8(q);
            let ed = encode_utf8(d);
            let bytes_prefix = eq.len() <= ed.len() && forall|k: int|
                0 <= k < eq.len() ==> #[trigger] eq[k] == ed[k];
            &&& (classify(q, d) == TokenMatch::Exact <==> d == q)
            &&& (d != q && bytes_prefix ==> classify(q, d) == TokenMatch::Prefix(
                (ed.len() - eq.len()) as usize,
            ))
            &&& (d != q && !bytes_prefix && eq.len() >= 3 ==> classify(q, d) == TokenMatch::Fuzzy)
            &&& (d != q && !bytes_prefix && eq.len() < 3 ==> classify(q, d)
                == TokenMatch::Unscored)
        }),
{
    crate::text::law_has_prefix_compares_all_bytes(d, q);
}

} // verus!
