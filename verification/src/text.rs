//! Character-level text handling: Unicode whitespace, trimming, splitting
//! into words, digit checks, byte prefixes and lower-casing.
use vstd::prelude::*;
use vstd::utf8::encode_utf8;

verus! {

broadcast use vstd::string::group_string_axioms;

/// The Unicode `White_Space` property (PropList.txt), which is what
/// `char::is_whitespace`, `str::trim` and `str::split_whitespace` use.
pub open spec fn is_white_space(c: char) -> bool {
    ||| ('\u{9}' <= c && c <= '\u{d}')
    ||| c == ' '
    ||| c == '\u{85}'
    ||| c == '\u{a0}'
    ||| c == '\u{1680}'
    ||| ('\u{2000}' <= c && c <= '\u{200a}')
    ||| c == '\u{2028}'
    ||| c == '\u{2029}'
    ||| c == '\u{202f}'
    ||| c == '\u{205f}'
    ||| c == '\u{3000}'
}

/// Decides the Unicode `White_Space` property of a character.
pub fn white_space(c: char) -> (res: bool)
    ensures
        res == is_white_space(c),
{
    ('\u{9}' <= c && c <= '\u{d}') || c == ' ' || c == '\u{85}' || c == '\u{a0}' || c
        == '\u{1680}' || ('\u{2000}' <= c && c <= '\u{200a}') || c == '\u{2028}' || c
        == '\u{2029}' || c == '\u{202f}' || c == '\u{205f}' || c == '\u{3000}'
}

/// The UTF-8 length of a text, in bytes.
pub open spec fn byte_len(s: Seq<char>) -> nat {
    encode_utf8(s).len()
}

/// `s` starts with `p`, compared byte by byte as `str::starts_with` does.
pub open spec fn has_prefix(s: Seq<char>, p: Seq<char>) -> bool {
    encode_utf8(p).is_prefix_of(encode_utf8(s))
}

/// Every character is an ASCII digit `0`..=`9`.
pub open spec fn all_ascii_digits(s: Seq<char>) -> bool {
    forall|i: int| 0 <= i < s.len() ==> '0' <= #[trigger] s[i] && s[i] <= '9'
}

/// `s` with its leading white space removed.
pub open spec fn trim_start(s: Seq<char>) -> Seq<char>
    decreases s.len(),
{
    if s.len() > 0 && is_white_space(s[0]) {
        trim_start(s.drop_first())
    } else {
        s
    }
}

/// `s` with its trailing white space removed.
pub open spec fn trim_end(s: Seq<char>) -> Seq<char>
    decreases s.len(),
{
    if s.len() > 0 && is_white_space(s.last()) {
        trim_end(s.drop_last())
    } else {
        s
    }
}

/// `s` with leading and trailing white space removed, as `str::trim` returns it.
pub open spec fn trimmed(s: Seq<char>) -> Seq<char> {
    trim_end(trim_start(s))
}

/// The maximal runs of non-white-space characters of `s`, left to right,
/// as `str::split_whitespace` yields them.
pub open spec fn words(s: Seq<char>) -> Seq<Seq<char>>
    decreases s.len(),
{
    if s.len() == 0 {
        Seq::empty()
    } else {
        let init = s.drop_last();
        let c = s.last();
        let w = words(init);
        if is_white_space(c) {
            w
        } else if init.len() == 0 || is_white_space(init.last()) {
            w.push(seq![c])
        } else {
            w.update(w.len() - 1, w.last().push(c))
        }
    }
}

/// The views of a sequence of strings.
pub open spec fn string_views(v: Seq<String>) -> Seq<Seq<char>> {
    v.map_values(|s: String| s@)
}

/// The lower-case mapping of Unicode that `str::to_lowercase` computes.
pub uninterp spec fn lowercase(s: Seq<char>) -> Seq<char>;

/// Calls `str::to_lowercase`. Its result depends on the text alone and is
/// named `lowercase`; nothing more of the Unicode mapping is claimed.
#[verifier::external_body]
pub(crate) fn to_lowercase(s: &str) -> (res: String)
    ensures
        res@ == lowercase(s@),
{
    s.to_lowercase()
}

/// The characters of a string slice, in order.
pub fn chars_of(s: &str) -> (res: Vec<char>)
    ensures
        res@ == s@,
{
    let mut res: Vec<char> = Vec::new();
    for c in iter: s.chars()
        invariant
            res@ == iter.seq().take(iter.index() as int),
    {
        res.push(c);
    }
    assert(res@ =~= s@);
    res
}

/// `str::trim`: the text without leading and trailing white space.
pub fn trim(s: &str) -> (res: String)
    ensures
        res@ == trimmed(s@),
{
    let cs = chars_of(s);
    let n = cs.len();
    let mut a: usize = 0;
    assert(s@.subrange(0, n as int) =~= s@);
    while a < n && white_space(cs[a])
        invariant
            a <= n,
            n == s@.len(),
            cs@ == s@,
            trim_start(s@) == trim_start(s@.subrange(a as int, n as int)),
        decreases n - a,
    {
        assert(s@.subrange(a as int, n as int).drop_first() =~= s@.subrange(a + 1, n as int));
        a = a + 1;
    }
    let mut b: usize = n;
    while b > a && white_space(cs[b - 1])
        invariant
            a <= b <= n,
            n == s@.len(),
            cs@ == s@,
            trim_end(s@.subrange(a as int, n as int)) == trim_end(
                s@.subrange(a as int, b as int),
            ),
        decreases b - a,
    {
        assert(s@.subrange(a as int, b as int).drop_last() =~= s@.subrange(a as int, b - 1));
        b = b - 1;
    }
    s.substring_char(a, b).to_owned()
}

/// `str::split_whitespace`: the white-space separated words of the text.
pub fn split_words(s: &str) -> (res: Vec<String>)
    ensures
        string_views(res@) == words(s@),
{
    let cs = chars_of(s);
    let n = cs.len();
    let mut res: Vec<String> = Vec::new();
    let mut start: usize = 0;
    let mut in_word = false;
    for i in 0..n
        invariant
            n == s@.len(),
            cs@ == s@,
            in_word ==> {
                &&& start < i
                &&& string_views(res@) + seq![s@.subrange(start as int, i as int)] == words(
                    s@.take(i as int),
                )
                &&& !is_white_space(s@[i - 1])
            },
            !in_word ==> {
                &&& string_views(res@) == words(s@.take(i as int))
                &&& (i == 0 || is_white_space(s@[i - 1]))
            },
    {
        let ghost prev = string_views(res@);
        let ghost w = words(s@.take(i as int));
        assert(s@.take(i + 1).drop_last() =~= s@.take(i as int));
        assert(s@.take(i + 1).last() == s@[i as int]);
        if white_space(cs[i]) {
            if in_word {
                let word = s.substring_char(start, i).to_owned();
                res.push(word);
                assert(string_views(res@) =~= prev.push(s@.subrange(start as int, i as int)));
                assert(string_views(res@) =~= prev + seq![s@.subrange(start as int, i as int)]);
                in_word = false;
            }
        } else if !in_word {
            start = i;
            in_word = true;
            assert(s@.subrange(i as int, i + 1) =~= seq![s@[i as int]]);
            assert(prev + seq![s@.subrange(i as int, i + 1)] =~= w.push(seq![s@[i as int]]));
        } else {
            assert(s@.subrange(start as int, i + 1) =~= s@.subrange(start as int, i as int).push(
                s@[i as int],
            ));
            assert(prev + seq![s@.subrange(start as int, i + 1)] =~= w.update(
                w.len() - 1,
                w.last().push(s@[i as int]),
            ));
        }
    }
    assert(s@.take(n as int) =~= s@);
    if in_word {
        let word = s.substring_char(start, n).to_owned();
        let ghost prev = string_views(res@);
        res.push(word);
        assert(string_views(res@) =~= prev + seq![s@.subrange(start as int, n as int)]);
    }
    res
}

/// Whether every character of the text is an ASCII digit.
pub fn is_all_ascii_digits(s: &str) -> (res: bool)
    ensures
        res == all_ascii_digits(s@),
{
    let cs = chars_of(s);
    let n = cs.len();
    for i in 0..n
        invariant
            n == s@.len(),
            cs@ == s@,
            forall|k: int| 0 <= k < i ==> '0' <= #[trigger] s@[k] && s@[k] <= '9',
    {
        if !('0' <= cs[i] && cs[i] <= '9') {
            return false;
        }
    }
    true
}

/// `str::starts_with` for a text pattern: the bytes of `p` begin those of `s`.
pub fn starts_with(s: &str, p: &str) -> (res: bool)
    ensures
        res == has_prefix(s@, p@),
{
    let sb = s.as_bytes();
    let pb = p.as_bytes();
    if pb.len() > sb.len() {
        return false;
    }
    for i in 0..pb.len()
        invariant
            pb.len() <= sb.len(),
            sb@ == encode_utf8(s@),
            pb@ == encode_utf8(p@),
            forall|k: int| 0 <= k < i ==> pb@[k] == sb@[k],
    {
        if pb[i] != sb[i] {
            return false;
        }
    }
    assert(pb@ =~= sb@.subrange(0, pb@.len() as int));
    true
}

/// Equality of two texts, decided on their bytes.
pub fn same_text(a: &str, b: &str) -> (res: bool)
    ensures
        res == (a@ == b@),
{
    let al = a.as_bytes().len();
    let bl = b.as_bytes().len();
    proof {
        vstd::utf8::encode_utf8_decode_utf8(a@);
        vstd::utf8::encode_utf8_decode_utf8(b@);
    }
    if al != bl {
        return false;
    }
    let r = starts_with(a, b);
    if r {
        let ghost ea = encode_utf8(a@);
        assert(ea.subrange(0, ea.len() as int) =~= ea);
        assert(ea =~= encode_utf8(b@));
    }
    r
}

/// Law: every word that `split_words` yields is non-empty and holds no
/// white space.
pub proof fn law_words_are_nonblank(s: Seq<char>)
    ensures
        forall|k: int|
            0 <= k < words(s).len() ==> (#[trigger] words(s)[k]).len() > 0 && forall|m: int|
                0 <= m < words(s)[k].len() ==> !is_white_space(#[trigger] words(s)[k][m]),
        s.len() > 0 && !is_white_space(s.last()) ==> words(s).len() > 0,
    decreases s.len(),
{
    if s.len() > 0 {
        let init = s.drop_last();
        let c = s.last();
        law_words_are_nonblank(init);
        let w = words(init);
        if is_white_space(c) {
        } else if init.len() == 0 || is_white_space(init.last()) {
            assert(words(s) == w.push(seq![c]));
            assert forall|k: int| 0 <= k < words(s).len() implies (#[trigger] words(s)[k]).len() > 0
                && forall|m: int| 0 <= m < words(s)[k].len() ==> !is_white_space(
                #[trigger] words(s)[k][m],
            ) by {
                if k < w.len() {
                    assert(words(s)[k] == w[k]);
                }
            }
        } else {
            let lw = w.last().push(c);
            assert(words(s) == w.update(w.len() - 1, lw));
            assert forall|k: int| 0 <= k < words(s).len() implies (#[trigger] words(s)[k]).len() > 0
                && forall|m: int| 0 <= m < words(s)[k].len() ==> !is_white_space(
                #[trigger] words(s)[k][m],
            ) by {
                if k < w.len() - 1 {
                    assert(words(s)[k] == w[k]);
                } else {
                    assert(words(s)[k] == lw);
                    assert forall|m: int| 0 <= m < lw.len() implies !is_white_space(
                        #[trigger] lw[m],
                    ) by {
                        if m < lw.len() - 1 {
                            assert(lw[m] == w[w.len() - 1][m]);
                        }
                    }
                }
            }
        }
    }
}

/// `trim_end` keeps a prefix and removes only white space, the prefix
/// keeping the first character when that character is not white space.
proof fn lemma_trim_end_prefix(s: Seq<char>) -> (m: int)
    ensures
        0 <= m <= s.len(),
        trim_end(s) == s.take(m),
        forall|i: int| m <= i < s.len() ==> is_white_space(#[trigger] s[i]),
        trim_end(s).len() == 0 || !is_white_space(trim_end(s).last()),
        s.len() > 0 && !is_white_space(s[0]) ==> trim_end(s).len() > 0,
    decreases s.len(),
{
    if s.len() > 0 && is_white_space(s.last()) {
        let m = lemma_trim_end_prefix(s.drop_last());
        if s.len() > 1 {
            assert(s.drop_last()[0] == s[0]);
        }
        assert(s.drop_last().take(m) =~= s.take(m));
        assert forall|i: int| m <= i < s.len() implies is_white_space(#[trigger] s[i]) by {
            if i < s.len() - 1 {
                assert(s.drop_last()[i] == s[i]);
            }
        }
        m
    } else {
        assert(s.take(s.len() as int) =~= s);
        s.len() as int
    }
}

/// `trim_start` keeps a suffix that does not begin with white space and
/// removes only white space.
proof fn lemma_trim_start_suffix(s: Seq<char>) -> (a: int)
    ensures
        0 <= a <= s.len(),
        trim_start(s) == s.subrange(a, s.len() as int),
        forall|i: int| 0 <= i < a ==> is_white_space(#[trigger] s[i]),
        trim_start(s).len() == 0 || !is_white_space(trim_start(s)[0]),
    decreases s.len(),
{
    if s.len() > 0 && is_white_space(s[0]) {
        let a = lemma_trim_start_suffix(s.drop_first());
        assert(s.drop_first().subrange(a, s.drop_first().len() as int) =~= s.subrange(
            a + 1,
            s.len() as int,
        ));
        assert forall|i: int| 0 <= i < a + 1 implies is_white_space(#[trigger] s[i]) by {
            if i > 0 {
                assert(s.drop_first()[i - 1] == s[i]);
            }
        }
        a + 1
    } else {
        assert(s.subrange(0, s.len() as int) =~= s);
        0
    }
}

/// Law: a trimmed text is the piece of the original between two positions,
/// everything before and after it is white space, and it neither begins nor
/// ends with white space.
pub proof fn law_trimmed_has_no_outer_space(s: Seq<char>) -> (ab: (int, int))
    ensures
        0 <= ab.0 <= ab.1 <= s.len(),
        trimmed(s) == s.subrange(ab.0, ab.1),
        forall|i: int| 0 <= i < ab.0 ==> is_white_space(#[trigger] s[i]),
        forall|i: int| ab.1 <= i < s.len() ==> is_white_space(#[trigger] s[i]),
        trimmed(s).len() > 0 ==> !is_white_space(trimmed(s)[0]) && !is_white_space(
            trimmed(s).last(),
        ),
{
    let a = lemma_trim_start_suffix(s);
    let t = trim_start(s);
    let m = lemma_trim_end_prefix(t);
    let b = a + m;
    assert(trimmed(s) =~= s.subrange(a, b));
    assert forall|i: int| b <= i < s.len() implies is_white_space(#[trigger] s[i]) by {
        assert(t[i - a] == s[i]);
    }
    if trimmed(s).len() > 0 {
        assert(trimmed(s)[0] == t[0]);
    }
    (a, b)
}

/// `spans` places the words `w` in `s`: each word is the text between its
/// span's ends, the spans come in order with a gap between them, each is a
/// run of non-white-space characters bounded by white space or an end of
/// the text, and every non-white-space character lies in some span.
pub open spec fn maximal_runs(s: Seq<char>, w: Seq<Seq<char>>, spans: Seq<(int, int)>) -> bool {
    &&& spans.len() == w.len()
    &&& forall|k: int|
        0 <= k < spans.len() ==> {
            &&& 0 <= (#[trigger] spans[k]).0 < spans[k].1 <= s.len()
            &&& w[k] == s.subrange(spans[k].0, spans[k].1)
            &&& (spans[k].0 == 0 || is_white_space(s[spans[k].0 - 1]))
            &&& (spans[k].1 == s.len() || is_white_space(s[spans[k].1]))
        }
    &&& forall|k: int, i: int|
        0 <= k < spans.len() && (#[trigger] spans[k]).0 <= i < spans[k].1 ==> !is_white_space(
            #[trigger] s[i],
        )
    &&& forall|a: int, b: int|
        0 <= a < b < spans.len() ==> (#[trigger] spans[a]).1 < (#[trigger] spans[b]).0
    &&& forall|i: int|
        0 <= i < s.len() && !is_white_space(#[trigger] s[i]) ==> exists|k: int|
            0 <= k < spans.len() && (#[trigger] spans[k]).0 <= i < spans[k].1
}

/// Law: the words of a text are exactly its maximal runs of
/// non-white-space characters, in order.
pub proof fn law_words_are_maximal_runs(s: Seq<char>) -> (spans: Seq<(int, int)>)
    ensures
        maximal_runs(s, words(s), spans),
    decreases s.len(),
{
    if s.len() == 0 {
        Seq::empty()
    } else {
        let n = s.len() as int;
        let init = s.drop_last();
        let c = s.last();
        let sp = law_words_are_maximal_runs(init);
        let w = words(init);
        assert forall|i: int| 0 <= i < n - 1 implies #[trigger] s[i] == init[i] by {}
        assert forall|a: int, b: int| 0 <= a <= b <= n - 1 implies #[trigger] s.subrange(a, b)
            == init.subrange(a, b) by {
            assert(s.subrange(a, b) =~= init.subrange(a, b));
        }
        if is_white_space(c) {
            assert(words(s) == w);
            assert forall|k: int| 0 <= k < sp.len() implies {
                &&& 0 <= (#[trigger] sp[k]).0 < sp[k].1 <= s.len()
                &&& words(s)[k] == s.subrange(sp[k].0, sp[k].1)
                &&& (sp[k].0 == 0 || is_white_space(s[sp[k].0 - 1]))
                &&& (sp[k].1 == s.len() || is_white_space(s[sp[k].1]))
            } by {
                assert(s.subrange(sp[k].0, sp[k].1) == init.subrange(sp[k].0, sp[k].1));
                if sp[k].0 > 0 {
                    assert(s[sp[k].0 - 1] == init[sp[k].0 - 1]);
                }
                if sp[k].1 < n - 1 {
                    assert(s[sp[k].1] == init[sp[k].1]);
                }
            }
            assert forall|k: int, i: int|
                0 <= k < sp.len() && (#[trigger] sp[k]).0 <= i < sp[k].1 implies !is_white_space(
                #[trigger] s[i],
            ) by {
                assert(s[i] == init[i]);
            }
            assert forall|i: int| 0 <= i < s.len() && !is_white_space(#[trigger] s[i]) implies exists|k: int|
                0 <= k < sp.len() && (#[trigger] sp[k]).0 <= i < sp[k].1 by {
                assert(s[i] == init[i]);
            }
            sp
        } else if init.len() == 0 || is_white_space(init.last()) {
            let sp2 = sp.push((n - 1, n));
            assert(words(s) == w.push(seq![c]));
            assert(s.subrange(n - 1, n) =~= seq![c]);
            assert forall|k: int| 0 <= k < sp2.len() implies {
                &&& 0 <= (#[trigger] sp2[k]).0 < sp2[k].1 <= s.len()
                &&& words(s)[k] == s.subrange(sp2[k].0, sp2[k].1)
                &&& (sp2[k].0 == 0 || is_white_space(s[sp2[k].0 - 1]))
                &&& (sp2[k].1 == s.len() || is_white_space(s[sp2[k].1]))
            } by {
                if k < sp.len() {
                    assert(sp2[k] == sp[k]);
                    assert(s.subrange(sp[k].0, sp[k].1) == init.subrange(sp[k].0, sp[k].1));
                    if sp[k].0 > 0 {
                        assert(s[sp[k].0 - 1] == init[sp[k].0 - 1]);
                    }
                    if sp[k].1 == n - 1 {
                        assert(!is_white_space(init[n - 2]));
                    }
                    if sp[k].1 < n - 1 {
                        assert(s[sp[k].1] == init[sp[k].1]);
                    }
                } else {
                    if n > 1 {
                        assert(s[n - 2] == init.last());
                    }
                }
            }
            assert forall|k: int, i: int|
                0 <= k < sp2.len() && (#[trigger] sp2[k]).0 <= i < sp2[k].1 implies !is_white_space(
                #[trigger] s[i],
            ) by {
                if k < sp.len() {
                    assert(sp2[k] == sp[k]);
                    assert(s[i] == init[i]);
                }
            }
            assert forall|a: int, b: int| 0 <= a < b < sp2.len() implies (#[trigger] sp2[a]).1 < (
            #[trigger] sp2[b]).0 by {
                assert(sp2[a] == sp[a]);
                if b < sp.len() {
                    assert(sp2[b] == sp[b]);
                } else if sp[a].1 == n - 1 {
                    assert(!is_white_space(init[n - 2]));
                }
            }
            assert forall|i: int| 0 <= i < s.len() && !is_white_space(#[trigger] s[i]) implies exists|k: int|
                0 <= k < sp2.len() && (#[trigger] sp2[k]).0 <= i < sp2[k].1 by {
                if i < n - 1 {
                    assert(s[i] == init[i]);
                    let k = choose|k: int| 0 <= k < sp.len() && (#[trigger] sp[k]).0 <= i < sp[k].1;
                    assert(sp2[k] == sp[k]);
                } else {
                    assert(sp2[sp.len() as int] == (n - 1, n));
                }
            }
            sp2
        } else {
            law_words_are_nonblank(init);
            let last = sp.len() - 1;
            assert(s[n - 2] == init[n - 2]);
            let k0 = choose|k: int| 0 <= k < sp.len() && (#[trigger] sp[k]).0 <= n - 2 < sp[k].1;
            if k0 < last {
                assert(sp[k0].1 < sp[last].0);
            }
            assert(k0 == last);
            let a0 = sp[last].0;
            let sp2 = sp.update(last, (a0, n));
            let lw = w.last().push(c);
            assert(words(s) == w.update(w.len() - 1, lw));
            assert(s.subrange(a0, n) =~= init.subrange(a0, n - 1).push(c));
            assert forall|k: int| 0 <= k < sp2.len() implies {
                &&& 0 <= (#[trigger] sp2[k]).0 < sp2[k].1 <= s.len()
                &&& words(s)[k] == s.subrange(sp2[k].0, sp2[k].1)
                &&& (sp2[k].0 == 0 || is_white_space(s[sp2[k].0 - 1]))
                &&& (sp2[k].1 == s.len() || is_white_space(s[sp2[k].1]))
            } by {
                if k < last {
                    assert(sp2[k] == sp[k]);
                    assert(sp[k].1 < sp[last].0);
                    assert(s.subrange(sp[k].0, sp[k].1) == init.subrange(sp[k].0, sp[k].1));
                    if sp[k].0 > 0 {
                        assert(s[sp[k].0 - 1] == init[sp[k].0 - 1]);
                    }
                    assert(s[sp[k].1] == init[sp[k].1]);
                } else {
                    if a0 > 0 {
                        assert(s[a0 - 1] == init[a0 - 1]);
                    }
                }
            }
            assert forall|k: int, i: int|
                0 <= k < sp2.len() && (#[trigger] sp2[k]).0 <= i < sp2[k].1 implies !is_white_space(
                #[trigger] s[i],
            ) by {
                if k < last {
                    assert(sp2[k] == sp[k]);
                    assert(s[i] == init[i]);
                } else if i < n - 1 {
                    assert(s[i] == init[i]);
                    assert(sp[last].0 <= i < sp[last].1);
                }
            }
            assert forall|a: int, b: int| 0 <= a < b < sp2.len() implies (#[trigger] sp2[a]).1 < (
            #[trigger] sp2[b]).0 by {
                assert(sp2[a] == sp[a]);
                assert(sp[a].1 < sp[b].0);
                assert(sp2[b].0 == sp[b].0);
            }
            assert forall|i: int| 0 <= i < s.len() && !is_white_space(#[trigger] s[i]) implies exists|k: int|
                0 <= k < sp2.len() && (#[trigger] sp2[k]).0 <= i < sp2[k].1 by {
                if i < n - 1 {
                    assert(s[i] == init[i]);
                    let k = choose|k: int| 0 <= k < sp.len() && (#[trigger] sp[k]).0 <= i < sp[k].1;
                    if k < last {
                        assert(sp2[k] == sp[k]);
                    } else {
                        assert(sp2[k].0 <= i < sp2[k].1);
                    }
                } else {
                    assert(sp2[last].0 <= i < sp2[last].1);
                }
            }
            sp2
        }
    }
}

/// Law: among ASCII characters, exactly the space and the controls tab,
/// line feed, vertical tab, form feed and carriage return are white space;
/// in particular no digit, letter or punctuation mark is.
pub proof fn law_ascii_white_space(c: char)
    ensures
        (c as u32) < 128 ==> (is_white_space(c) <==> (c == ' ' || c == '\t' || c == '\n' || c
            == '\u{b}' || c == '\u{c}' || c == '\r')),
        ('!' <= c && c <= '~') ==> !is_white_space(c),
{
}

/// Trimming leaves a text alone whose ends are not white space.
proof fn lemma_trim_keeps_unpadded(s: Seq<char>)
    requires
        s.len() > 0,
        !is_white_space(s[0]),
        !is_white_space(s.last()),
    ensures
        trimmed(s) == s,
{
    assert(trim_start(s) == s);
    assert(trim_end(s) == s);
}

/// Law: trimming changes no text of ASCII digits; an all-digit query is
/// looked up as it was typed.
pub proof fn law_trim_keeps_digits(s: Seq<char>)
    requires
        forall|i: int| 0 <= i < s.len() ==> '0' <= #[trigger] s[i] && s[i] <= '9',
    ensures
        trimmed(s) == s,
{
    if s.len() == 0 {
        assert(trim_start(s) == s);
        assert(trim_end(s) == s);
    } else {
        law_ascii_white_space(s[0]);
        law_ascii_white_space(s.last());
        assert('0' <= s[s.len() - 1] && s[s.len() - 1] <= '9');
        lemma_trim_keeps_unpadded(s);
    }
}

/// Law: `s` starts with `p` exactly when the UTF-8 bytes of `p` are the
/// first bytes of `s`, compared in full whatever the length of `p`.
pub proof fn law_has_prefix_compares_all_bytes(s: Seq<char>, p: Seq<char>)
    ensures
        has_prefix(s, p) <==> (encode_utf8(p).len() <= encode_utf8(s).len() && forall|k: int|
            0 <= k < encode_utf8(p).len() ==> #[trigger] encode_utf8(p)[k] == encode_utf8(s)[k]),
{
    let ep = encode_utf8(p);
    let es = encode_utf8(s);
    if ep.len() <= es.len() && forall|k: int| 0 <= k < ep.len() ==> #[trigger] ep[k] == es[k] {
        assert(ep =~= es.subrange(0, ep.len() as int));
    }
    if has_prefix(s, p) {
        assert forall|k: int| 0 <= k < ep.len() implies #[trigger] ep[k] == es[k] by {
            assert(es.subrange(0, ep.len() as int)[k] == es[k]);
        }
    }
}

} // verus!
