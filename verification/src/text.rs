//! Character classes and small string utilities shared by the sanitizer,
//! tokenizer, balancer and renderer.

use vstd::prelude::*;

verus! {

/// The code points with the Unicode white-space property: the ASCII
/// whitespace characters, the next line, no-break, ogham, typographic,
/// line/paragraph separator, narrow no-break, mathematical and ideographic
/// spaces.
pub open spec fn is_space_char(c: char) -> bool {
    let u = c as u32;
    (0x9 <= u && u <= 0xd) || u == 0x20 || u == 0x85 || u == 0xa0 || u == 0x1680 || (0x2000 <= u
        && u <= 0x200a) || u == 0x2028 || u == 0x2029 || u == 0x202f || u == 0x205f || u == 0x3000
}

/// ASCII decimal digits.
pub open spec fn is_digit_char(c: char) -> bool {
    '0' <= c && c <= '9'
}

/// ASCII letters.
pub open spec fn is_letter_char(c: char) -> bool {
    ('a' <= c && c <= 'z') || ('A' <= c && c <= 'Z')
}

/// Letters of the common non-ASCII scripts: Latin with diacritics and its
/// extended blocks, the phonetic extensions, Greek (plain and extended),
/// Cyrillic, Armenian, Hebrew, Arabic, the Indic blocks through Sinhala,
/// Thai, Lao, Myanmar, Georgian, Ethiopic, Cherokee, Hangul, the CJK
/// scripts and the fullwidth alphanumeric forms.
///
/// This approximates the Unicode word class beyond ASCII: letters of
/// scripts not listed here count as punctuation in the tokenizer.
pub open spec fn is_ext_letter_char(c: char) -> bool {
    let u = c as u32;
    u == 0xaa || u == 0xb5 || u == 0xba || (0xc0 <= u && u <= 0xd6) || (0xd8 <= u && u <= 0xf6)
        || (0xf8 <= u && u <= 0x2af) || (0x370 <= u && u <= 0x3ff && u != 0x375 && u != 0x37e
        && u != 0x384 && u != 0x385 && u != 0x387) || (0x400 <= u && u <= 0x52f) || (0x531 <= u
        && u <= 0x556) || (0x561 <= u && u <= 0x587) || (0x5d0 <= u && u <= 0x5ea) || (0x620 <= u
        && u <= 0x64a) || (0x660 <= u && u <= 0x669) || (0x671 <= u && u <= 0x6d3) || (0x900 <= u
        && u <= 0xdff) || (0xe01 <= u && u <= 0xe3a) || (0xe40 <= u && u <= 0xe4e) || (0xe50 <= u
        && u <= 0xe59) || (0xe81 <= u && u <= 0xedf) || (0x1000 <= u && u <= 0x109f) || (0x10a0
        <= u && u <= 0x10fa) || (0x10fc <= u && u <= 0x10ff) || (0x1200 <= u && u <= 0x137c) || (
    0x13a0 <= u && u <= 0x13f5) || (0x1e00 <= u && u <= 0x1eff) || (0x1f00 <= u && u <= 0x1fff)
        || (0x1100 <= u && u <= 0x11ff) || (0x3040 <= u && u <= 0x30ff && u != 0x3097 && u
        != 0x3098) || (0x3130 <= u && u <= 0x318f) || (0xac00 <= u && u <= 0xd7a3) || (0xff10 <= u
        && u <= 0xff19) || (0xff21 <= u && u <= 0xff3a) || (0xff41 <= u && u <= 0xff5a)
        || is_cjk_char(c)
}

/// Word characters: ASCII letters, digits and the underscore, together
/// with the letters of the common non-ASCII scripts.
pub open spec fn is_word_char(c: char) -> bool {
    is_letter_char(c) || is_digit_char(c) || c == '_' || is_ext_letter_char(c)
}

/// ASCII alphanumeric characters.
pub open spec fn is_alnum_char(c: char) -> bool {
    is_letter_char(c) || is_digit_char(c)
}

/// Punctuation for tokenization purposes: neither whitespace nor a word
/// character.
pub open spec fn is_punct_char(c: char) -> bool {
    !is_space_char(c) && !is_word_char(c)
}

/// Characters that may appear inside a word token: letters, the apostrophe
/// and the hyphen.
pub open spec fn is_wordseg_char(c: char) -> bool {
    is_letter_char(c) || c == '\'' || c == '-'
}

/// Whitespace test on a single character.
pub fn char_is_space(c: char) -> (r: bool)
    ensures
        r == is_space_char(c),
{
    let u = c as u32;
    (0x9 <= u && u <= 0xd) || u == 0x20 || u == 0x85 || u == 0xa0 || u == 0x1680 || (0x2000 <= u
        && u <= 0x200a) || u == 0x2028 || u == 0x2029 || u == 0x202f || u == 0x205f || u == 0x3000
}

/// Letter test on a single character.
pub fn char_is_letter(c: char) -> (r: bool)
    ensures
        r == is_letter_char(c),
{
    ('a' <= c && c <= 'z') || ('A' <= c && c <= 'Z')
}

/// Non-ASCII letter test on a single character.
pub fn char_is_ext_letter(c: char) -> (r: bool)
    ensures
        r == is_ext_letter_char(c),
{
    let u = c as u32;
    u == 0xaa || u == 0xb5 || u == 0xba || (0xc0 <= u && u <= 0xd6) || (0xd8 <= u && u <= 0xf6)
        || (0xf8 <= u && u <= 0x2af) || (0x370 <= u && u <= 0x3ff && u != 0x375 && u != 0x37e
        && u != 0x384 && u != 0x385 && u != 0x387) || (0x400 <= u && u <= 0x52f) || (0x531 <= u
        && u <= 0x556) || (0x561 <= u && u <= 0x587) || (0x5d0 <= u && u <= 0x5ea) || (0x620 <= u
        && u <= 0x64a) || (0x660 <= u && u <= 0x669) || (0x671 <= u && u <= 0x6d3) || (0x900 <= u
        && u <= 0xdff) || (0xe01 <= u && u <= 0xe3a) || (0xe40 <= u && u <= 0xe4e) || (0xe50 <= u
        && u <= 0xe59) || (0xe81 <= u && u <= 0xedf) || (0x1000 <= u && u <= 0x109f) || (0x10a0
        <= u && u <= 0x10fa) || (0x10fc <= u && u <= 0x10ff) || (0x1200 <= u && u <= 0x137c) || (
    0x13a0 <= u && u <= 0x13f5) || (0x1e00 <= u && u <= 0x1eff) || (0x1f00 <= u && u <= 0x1fff)
        || (0x1100 <= u && u <= 0x11ff) || (0x3040 <= u && u <= 0x30ff && u != 0x3097 && u
        != 0x3098) || (0x3130 <= u && u <= 0x318f) || (0xac00 <= u && u <= 0xd7a3) || (0xff10 <= u
        && u <= 0xff19) || (0xff21 <= u && u <= 0xff3a) || (0xff41 <= u && u <= 0xff5a)
        || char_is_cjk(c)
}

/// Word-character test on a single character.
pub fn char_is_word(c: char) -> (r: bool)
    ensures
        r == is_word_char(c),
{
    char_is_letter(c) || ('0' <= c && c <= '9') || c == '_' || char_is_ext_letter(c)
}

/// Alphanumeric test on a single character.
pub fn char_is_alnum(c: char) -> (r: bool)
    ensures
        r == is_alnum_char(c),
{
    char_is_letter(c) || ('0' <= c && c <= '9')
}

/// Punctuation test on a single character.
pub fn char_is_punct(c: char) -> (r: bool)
    ensures
        r == is_punct_char(c),
{
    !char_is_space(c) && !char_is_word(c)
}

/// Word-segment test on a single character.
pub fn char_is_wordseg(c: char) -> (r: bool)
    ensures
        r == is_wordseg_char(c),
{
    char_is_letter(c) || c == '\'' || c == '-'
}

/// Characters of the Hiragana, Katakana or Han scripts, over the blocks
/// that carry them.
///
/// Hiragana: the main block with its iteration marks and digraph, the
/// historic letters of the Kana Supplement, the small letters of the Kana
/// Extended-A block, and the squared `hoka`. Katakana: the main block (the
/// prolonged sound mark at U+30FC is script-common and excluded), the
/// phonetic extensions, the circled and squared forms, the halfwidth forms
/// (likewise without their common-script sound marks), and the archaic `e`.
/// Han: the radical blocks, the iteration and numeral marks, the unified
/// ideograph blocks with all their extensions, and the compatibility
/// blocks.
pub open spec fn is_cjk_char(c: char) -> bool {
    let u = c as u32;
    (0x3041 <= u && u <= 0x3096) || (0x309d <= u && u <= 0x309f) || (0x1b001 <= u && u <= 0x1b11f)
        || (0x1b150 <= u && u <= 0x1b152) || u == 0x1f200 || (0x30a1 <= u && u <= 0x30fa) || (
    0x30fd <= u && u <= 0x30ff) || (0x31f0 <= u && u <= 0x31ff) || (0x32d0 <= u && u <= 0x32fe)
        || (0x3300 <= u && u <= 0x3357) || (0xff66 <= u && u <= 0xff6f) || (0xff71 <= u && u
        <= 0xff9d) || u == 0x1b000 || (0x1b164 <= u && u <= 0x1b167) || (0x2e80 <= u && u
        <= 0x2e99) || (0x2e9b <= u && u <= 0x2ef3) || (0x2f00 <= u && u <= 0x2fd5) || u == 0x3005
        || u == 0x3007 || (0x3021 <= u && u <= 0x3029) || (0x3038 <= u && u <= 0x303b) || (0x3400
        <= u && u <= 0x4dbf) || (0x4e00 <= u && u <= 0x9fff) || (0xf900 <= u && u <= 0xfa6d) || (
    0xfa70 <= u && u <= 0xfad9) || (0x20000 <= u && u <= 0x2a6df) || (0x2a700 <= u && u <= 0x2ee5f)
        || (0x2f800 <= u && u <= 0x2fa1f) || (0x30000 <= u && u <= 0x3134a) || (0x31350 <= u && u
        <= 0x323af)
}

/// CJK-script test on a single character.
pub fn char_is_cjk(c: char) -> (r: bool)
    ensures
        r == is_cjk_char(c),
{
    let u = c as u32;
    (0x3041 <= u && u <= 0x3096) || (0x309d <= u && u <= 0x309f) || (0x1b001 <= u && u <= 0x1b11f)
        || (0x1b150 <= u && u <= 0x1b152) || u == 0x1f200 || (0x30a1 <= u && u <= 0x30fa) || (
    0x30fd <= u && u <= 0x30ff) || (0x31f0 <= u && u <= 0x31ff) || (0x32d0 <= u && u <= 0x32fe)
        || (0x3300 <= u && u <= 0x3357) || (0xff66 <= u && u <= 0xff6f) || (0xff71 <= u && u
        <= 0xff9d) || u == 0x1b000 || (0x1b164 <= u && u <= 0x1b167) || (0x2e80 <= u && u
        <= 0x2e99) || (0x2e9b <= u && u <= 0x2ef3) || (0x2f00 <= u && u <= 0x2fd5) || u == 0x3005
        || u == 0x3007 || (0x3021 <= u && u <= 0x3029) || (0x3038 <= u && u <= 0x303b) || (0x3400
        <= u && u <= 0x4dbf) || (0x4e00 <= u && u <= 0x9fff) || (0xf900 <= u && u <= 0xfa6d) || (
    0xfa70 <= u && u <= 0xfad9) || (0x20000 <= u && u <= 0x2a6df) || (0x2a700 <= u && u <= 0x2ee5f)
        || (0x2f800 <= u && u <= 0x2fa1f) || (0x30000 <= u && u <= 0x3134a) || (0x31350 <= u && u
        <= 0x323af)
}

/// True when every character of `s` is whitespace (in particular for the
/// empty sequence).
pub open spec fn all_space(s: Seq<char>) -> bool {
    forall|i: int| 0 <= i < s.len() ==> is_space_char(s[i])
}

/// The characters of a string as a vector, in order.
pub fn str_to_chars(s: &str) -> (v: Vec<char>)
    ensures
        v@ == s@,
{
    let n = s.unicode_len();
    let mut v: Vec<char> = Vec::new();
    for i in 0..n
        invariant
            n == s@.len(),
            v@ == s@.subrange(0, i as int),
    {
        v.push(s.get_char(i));
    }
    assert(v@ =~= s@);
    v
}

/// Builds a string from a vector of characters.
///
/// Relies on `String`'s `FromIterator` over characters: collecting the
/// characters of `v` yields a string with exactly those characters.
#[verifier::external_body]
pub fn chars_to_string(v: &Vec<char>) -> (s: String)
    ensures
        s@ == v@,
{
    v.iter().collect()
}

/// True when `pat` occurs in `s` starting at position `k`.
pub open spec fn occurs_at(s: Seq<char>, pat: Seq<char>, k: int) -> bool {
    0 <= k && k + pat.len() <= s.len() && s.subrange(k, k + pat.len()) == pat
}

/// True when `pat` occurs somewhere in `s`.
pub open spec fn contains_seq(s: Seq<char>, pat: Seq<char>) -> bool {
    exists|k: int| occurs_at(s, pat, k)
}

/// The characters of `s` in the range `[a, b)`.
pub fn copy_range(s: &Vec<char>, a: usize, b: usize) -> (v: Vec<char>)
    requires
        a <= b <= s@.len(),
    ensures
        v@ == s@.subrange(a as int, b as int),
{
    let mut v: Vec<char> = Vec::new();
    let mut m = a;
    while m < b
        invariant
            a <= m <= b <= s@.len(),
            v@ == s@.subrange(a as int, m as int),
        decreases b - m,
    {
        v.push(s[m]);
        proof {
            assert(v@ =~= s@.subrange(a as int, m + 1));
        }
        m += 1;
    }
    proof {
        assert(v@ =~= s@.subrange(a as int, b as int));
    }
    v
}

/// Appends the characters of `s` in the range `[a, b)` to `toks` as one
/// token.
pub fn push_token(toks: &mut Vec<String>, s: &Vec<char>, a: usize, b: usize)
    requires
        a <= b <= s@.len(),
    ensures
        final(toks).deep_view() == old(toks).deep_view().push(s@.subrange(a as int, b as int)),
{
    let sub = copy_range(s, a, b);
    let tok = chars_to_string(&sub);
    toks.push(tok);
    proof {
        assert(toks.deep_view() =~= old(toks).deep_view().push(
            s@.subrange(a as int, b as int),
        ));
    }
}

/// True when `line` starts with `pat`.
pub open spec fn starts_with(line: Seq<char>, pat: Seq<char>) -> bool {
    line.len() >= pat.len() && line.subrange(0, pat.len() as int) == pat
}

/// Prefix test on the range `[start, end)` of a character vector.
pub fn range_starts_with(s: &Vec<char>, start: usize, end: usize, pat: &Vec<char>) -> (r: bool)
    requires
        start <= end <= s@.len(),
    ensures
        r == starts_with(s@.subrange(start as int, end as int), pat@),
{
    let ghost line = s@.subrange(start as int, end as int);
    let m = pat.len();
    if end - start < m {
        return false;
    }
    proof {
        assert(s@.subrange(start as int, start as int) =~= pat@.subrange(0, 0));
    }
    for j in 0..m
        invariant
            start <= end <= s@.len(),
            m == pat@.len(),
            m <= end - start,
            line == s@.subrange(start as int, end as int),
            s@.subrange(start as int, start + j) == pat@.subrange(0, j as int),
        decreases m - j,
    {
        proof {
            assert(s@.subrange(start as int, start + j + 1).drop_last() == s@.subrange(
                start as int,
                start + j,
            ));
            assert(pat@.subrange(0, j + 1).drop_last() == pat@.subrange(0, j as int));
        }
        if s[start + j] != pat[j] {
            proof {
                if starts_with(line, pat@) {
                    assert(line.subrange(0, m as int) == pat@);
                    assert(line.subrange(0, m as int)[j as int] == pat@[j as int]);
                    assert(false);
                }
            }
            return false;
        }
        proof {
            assert(s@.subrange(start as int, start + j + 1) =~= pat@.subrange(0, j + 1));
        }
    }
    proof {
        assert(line.subrange(0, m as int) =~= s@.subrange(start as int, start + m));
        assert(pat@.subrange(0, m as int) =~= pat@);
    }
    true
}

/// Substring search over character vectors.
pub fn contains_chars(s: &Vec<char>, pat: &Vec<char>) -> (r: bool)
    ensures
        r == contains_seq(s@, pat@),
{
    let n = s.len();
    let m = pat.len();
    if m == 0 {
        proof {
            assert(s@.subrange(0, 0) =~= pat@);
            assert(occurs_at(s@, pat@, 0));
        }
        return true;
    }
    if m > n {
        assert(forall|k: int| !occurs_at(s@, pat@, k));
        return false;
    }
    for k in 0..n - m + 1
        invariant
            m <= n,
            n == s@.len(),
            m == pat@.len(),
            forall|k0: int| 0 <= k0 < k ==> !occurs_at(s@, pat@, k0),
    {
        let mut ok = true;
        proof {
            assert(s@.subrange(k as int, k as int) =~= pat@.subrange(0, 0));
        }
        for j in 0..m
            invariant
                m <= n,
                n == s@.len(),
                m == pat@.len(),
                0 <= k <= n - m,
                ok == (s@.subrange(k as int, k + j) == pat@.subrange(0, j as int)),
        {
            let same = s[k + j] == pat[j];
            proof {
                assert(s@.subrange(k as int, k + j + 1).drop_last() == s@.subrange(
                    k as int,
                    k + j,
                ));
                assert(pat@.subrange(0, j + 1).drop_last() == pat@.subrange(0, j as int));
                if ok && same {
                    assert(s@.subrange(k as int, k + j + 1) =~= pat@.subrange(0, j + 1));
                } else {
                    if s@.subrange(k as int, k + j + 1) == pat@.subrange(0, j + 1) {
                        assert(s@.subrange(k as int, k + j + 1).drop_last() == pat@.subrange(
                            0,
                            j + 1,
                        ).drop_last());
                        assert(s@.subrange(k as int, k + j + 1).last() == pat@.subrange(
                            0,
                            j + 1,
                        ).last());
                        assert(false);
                    }
                }
            }
            ok = ok && same;
        }
        if ok {
            proof {
                assert(pat@.subrange(0, m as int) =~= pat@);
                assert(occurs_at(s@, pat@, k as int));
            }
            return true;
        }
        proof {
            assert(pat@.subrange(0, m as int) =~= pat@);
        }
    }
    assert forall|k0: int| !occurs_at(s@, pat@, k0) by {
        if 0 <= k0 && k0 + pat@.len() <= s@.len() {
            assert(k0 < n - m + 1);
        }
    }
    false
}

/// Token-sequence equality over views.
pub fn tokens_eq(a: &Vec<String>, b: &Vec<String>) -> (r: bool)
    ensures
        r == (a.deep_view() == b.deep_view()),
{
    if a.len() != b.len() {
        proof {
            assert(a.deep_view().len() == a@.len());
            assert(b.deep_view().len() == b@.len());
        }
        return false;
    }
    let n = a.len();
    for i in 0..n
        invariant
            n == a@.len() == b@.len(),
            forall|m: int| 0 <= m < i ==> a.deep_view()[m] == b.deep_view()[m],
        decreases n - i,
    {
        if !a[i].eq(&b[i]) {
            proof {
                assert(a.deep_view()[i as int] != b.deep_view()[i as int]);
            }
            return false;
        }
    }
    proof {
        assert(a.deep_view() =~= b.deep_view());
    }
    true
}

} // verus!
