//! Locale-aware tokenizer: sanitized text is split either by an external
//! CJK segmenter (when any Hiragana, Katakana or Han character is present)
//! or by a scan that pairs words with their adjacent punctuation.

use vstd::prelude::*;

use crate::render::{space_joined, spec_render};
use crate::sanitize::{group_close_at, sanitize_chars, sanitize_from, spec_sanitize};
use crate::text::{
    char_is_cjk, char_is_letter, char_is_punct, char_is_space, char_is_wordseg, chars_to_string,
    is_alnum_char, is_cjk_char, is_letter_char, is_punct_char, is_space_char, is_wordseg_char,
    push_token, str_to_chars,
};

verus! {

/// True when the text contains a character of the Hiragana, Katakana or Han
/// scripts, which routes the whole line to the CJK segmenter.
pub open spec fn has_cjk(s: Seq<char>) -> bool {
    exists|i: int| 0 <= i < s.len() && is_cjk_char(s[i])
}

/// CJK-presence test on raw text.
pub fn is_cjk(text: &str) -> (r: bool)
    ensures
        r == has_cjk(text@),
{
    let chars = str_to_chars(text);
    has_cjk_chars(&chars)
}

/// CJK-presence test on a vector of characters.
pub fn has_cjk_chars(chars: &Vec<char>) -> (r: bool)
    ensures
        r == has_cjk(chars@),
{
    let n = chars.len();
    for i in 0..n
        invariant
            n == chars@.len(),
            forall|m: int| 0 <= m < i ==> !is_cjk_char(chars@[m]),
        decreases n - i,
    {
        if char_is_cjk(chars[i]) {
            return true;
        }
    }
    false
}

/// End of the maximal run of punctuation characters starting at `i`.
pub open spec fn punct_run_end(s: Seq<char>, i: int) -> int
    decreases s.len() - i,
{
    if 0 <= i < s.len() && is_punct_char(s[i]) {
        punct_run_end(s, i + 1)
    } else {
        i
    }
}

/// End of the maximal run of word-segment characters starting at `i`.
pub open spec fn wordseg_run_end(s: Seq<char>, i: int) -> int
    decreases s.len() - i,
{
    if 0 <= i < s.len() && is_wordseg_char(s[i]) {
        wordseg_run_end(s, i + 1)
    } else {
        i
    }
}

/// Bounds and content of a punctuation run.
pub proof fn lemma_punct_run(s: Seq<char>, i: int)
    requires
        0 <= i <= s.len(),
    ensures
        i <= punct_run_end(s, i) <= s.len(),
        forall|m: int| i <= m < punct_run_end(s, i) ==> is_punct_char(s[m]),
        punct_run_end(s, i) < s.len() ==> !is_punct_char(s[punct_run_end(s, i)]),
    decreases s.len() - i,
{
    if 0 <= i < s.len() && is_punct_char(s[i]) {
        lemma_punct_run(s, i + 1);
    }
}

/// If `[a, b)` is all punctuation and `b` ends the run, the run end is `b`.
pub proof fn lemma_punct_run_at(s: Seq<char>, a: int, b: int)
    requires
        0 <= a <= b <= s.len(),
        forall|m: int| a <= m < b ==> is_punct_char(s[m]),
        b == s.len() || !is_punct_char(s[b]),
    ensures
        punct_run_end(s, a) == b,
    decreases b - a,
{
    if a < b {
        lemma_punct_run_at(s, a + 1, b);
    }
}

/// Bounds and content of a word-segment run.
pub proof fn lemma_wordseg_run(s: Seq<char>, i: int)
    requires
        0 <= i <= s.len(),
    ensures
        i <= wordseg_run_end(s, i) <= s.len(),
        forall|m: int| i <= m < wordseg_run_end(s, i) ==> is_wordseg_char(s[m]),
    decreases s.len() - i,
{
    if 0 <= i < s.len() && is_wordseg_char(s[i]) {
        lemma_wordseg_run(s, i + 1);
    }
}

/// If `[a, b)` is all word-segment characters and `b` ends the run, the run
/// end is `b`.
pub proof fn lemma_wordseg_run_at(s: Seq<char>, a: int, b: int)
    requires
        0 <= a <= b <= s.len(),
        forall|m: int| a <= m < b ==> is_wordseg_char(s[m]),
        b == s.len() || !is_wordseg_char(s[b]),
    ensures
        wordseg_run_end(s, a) == b,
    decreases b - a,
{
    if a < b {
        lemma_wordseg_run_at(s, a + 1, b);
    }
}

/// Start of the maximal run of apostrophes and hyphens that ends at `j`,
/// scanning no further left than `i`.
pub open spec fn dash_run_start(s: Seq<char>, i: int, j: int) -> int
    decreases j - i,
{
    if i < j && j <= s.len() && (s[j - 1] == '\'' || s[j - 1] == '-') {
        dash_run_start(s, i, j - 1)
    } else {
        j
    }
}

/// Bounds and content of an apostrophe/hyphen stretch.
pub proof fn lemma_dash_run(s: Seq<char>, i: int, j: int)
    requires
        0 <= i <= j <= s.len(),
    ensures
        i <= dash_run_start(s, i, j) <= j,
        forall|k: int| dash_run_start(s, i, j) <= k < j ==> s[k] == '\'' || s[k] == '-',
    decreases j - i,
{
    if i < j && (s[j - 1] == '\'' || s[j - 1] == '-') {
        lemma_dash_run(s, i, j - 1);
    }
}

/// If `[m, j)` is all apostrophes and hyphens and `m` ends the stretch, the
/// scan finds exactly `m`.
pub proof fn lemma_dash_run_at(s: Seq<char>, i: int, m: int, j: int)
    requires
        0 <= i <= m <= j <= s.len(),
        forall|k: int| m <= k < j ==> s[k] == '\'' || s[k] == '-',
        m == i || !(s[m - 1] == '\'' || s[m - 1] == '-'),
    ensures
        dash_run_start(s, i, j) == m,
    decreases j - m,
{
    if m < j {
        lemma_dash_run_at(s, i, m, j - 1);
    }
}

#[via_fn]
proof fn english_tokens_from_decreases(s: Seq<char>, i: int) {
    if 0 <= i < s.len() {
        lemma_punct_run(s, i);
    }
}

#[via_fn]
proof fn english_word_at_decreases(s: Seq<char>, i: int) {
    if 0 <= i < s.len() && is_wordseg_char(s[i]) {
        lemma_wordseg_run(s, i + 1);
        assert(wordseg_run_end(s, i) == wordseg_run_end(s, i + 1));
    }
}

/// The tokens of non-CJK text from position `i` on.
///
/// A token is one of: a run of punctuation immediately preceding a word, a
/// word (letters, apostrophes and hyphens), a letterless run of apostrophes
/// and hyphens (with any punctuation directly before it), a single
/// punctuation character immediately following a word, or a double quote
/// following that; every other punctuation run, and every other character,
/// is dropped.
pub open spec fn english_tokens_from(s: Seq<char>, i: int) -> Seq<Seq<char>>
    decreases s.len() - i, 1int,
        via english_tokens_from_decreases
{
    if i < 0 || i >= s.len() {
        Seq::empty()
    } else if is_punct_char(s[i]) {
        let j = punct_run_end(s, i);
        if j < s.len() && is_letter_char(s[j]) {
            seq![s.subrange(i, j)] + english_word_at(s, j)
        } else {
            // no word follows: a trailing stretch of apostrophes and
            // hyphens is still a word-segment run and is kept
            let m = dash_run_start(s, i, j);
            if m < j {
                if i < m {
                    seq![s.subrange(i, m), s.subrange(m, j)] + english_tokens_from(s, j)
                } else {
                    seq![s.subrange(i, j)] + english_tokens_from(s, j)
                }
            } else {
                english_tokens_from(s, j)
            }
        }
    } else if is_letter_char(s[i]) {
        english_word_at(s, i)
    } else {
        english_tokens_from(s, i + 1)
    }
}

/// The word starting at `i` followed by its trailing punctuation tokens.
pub open spec fn english_word_at(s: Seq<char>, i: int) -> Seq<Seq<char>>
    decreases s.len() - i, 0int,
        via english_word_at_decreases
{
    if 0 <= i < s.len() && is_wordseg_char(s[i]) {
        let k = wordseg_run_end(s, i);
        seq![s.subrange(i, k)] + english_trail_at(s, k)
    } else {
        Seq::empty()
    }
}

/// The trailing punctuation after a word: at most one punctuation character
/// and, right after it, at most one double quote.
pub open spec fn english_trail_at(s: Seq<char>, k: int) -> Seq<Seq<char>>
    decreases s.len() - k, 2int,
{
    if 0 <= k < s.len() && is_punct_char(s[k]) {
        if k + 1 < s.len() && s[k + 1] == '"' {
            seq![s.subrange(k, k + 1), seq!['"']] + english_tokens_from(s, k + 2)
        } else {
            seq![s.subrange(k, k + 1)] + english_tokens_from(s, k + 1)
        }
    } else {
        english_tokens_from(s, k)
    }
}

/// The tokens of non-CJK text.
pub open spec fn spec_tokenize_english(s: Seq<char>) -> Seq<Seq<char>> {
    english_tokens_from(s, 0)
}

/// Tokenizes sanitized non-CJK text; see [`spec_tokenize_english`].
pub fn tokenize_english(chars: &Vec<char>) -> (r: Vec<String>)
    ensures
        r.deep_view() == spec_tokenize_english(chars@),
{
    let ghost s = chars@;
    let n = chars.len();
    let mut toks: Vec<String> = Vec::new();
    let mut i: usize = 0;
    proof {
        assert(toks.deep_view() + english_tokens_from(s, 0) =~= spec_tokenize_english(s));
    }
    while i < n
        invariant
            n == s.len(),
            chars@ == s,
            i <= n,
            toks.deep_view() + english_tokens_from(s, i as int) == spec_tokenize_english(s),
        decreases n - i,
    {
        let c = chars[i];
        if char_is_punct(c) {
            // maximal punctuation run
            let mut j = i;
            while j < n && char_is_punct(chars[j])
                invariant
                    n == s.len(),
                    chars@ == s,
                    i <= j <= n,
                    forall|m: int| i <= m < j ==> is_punct_char(s[m]),
                decreases n - j,
            {
                j += 1;
            }
            proof {
                lemma_punct_run_at(s, i as int, j as int);
            }
            if j < n && char_is_letter(chars[j]) {
                push_token(&mut toks, chars, i, j);
                proof {
                    assert(toks.deep_view() + english_word_at(s, j as int)
                        =~= spec_tokenize_english(s));
                }
                i = word_and_trail(&mut toks, chars, j);
            } else {
                // keep a trailing apostrophe/hyphen stretch of the run
                let mut m = j;
                while m > i && (chars[m - 1] == '\'' || chars[m - 1] == '-')
                    invariant
                        n == s.len(),
                        chars@ == s,
                        i <= m <= j <= n,
                        forall|k: int| m <= k < j ==> s[k] == '\'' || s[k] == '-',
                    decreases m,
                {
                    m -= 1;
                }
                proof {
                    lemma_dash_run_at(s, i as int, m as int, j as int);
                }
                if m < j {
                    if i < m {
                        push_token(&mut toks, chars, i, m);
                    }
                    push_token(&mut toks, chars, m, j);
                }
                proof {
                    assert(toks.deep_view() + english_tokens_from(s, j as int)
                        =~= spec_tokenize_english(s));
                }
                i = j;
            }
        } else if char_is_letter(c) {
            i = word_and_trail(&mut toks, chars, i);
        } else {
            i += 1;
        }
    }
    proof {
        assert(toks.deep_view() =~= spec_tokenize_english(s));
    }
    toks
}

/// The segments an external CJK segmenter splits a text into.
pub uninterp spec fn segment_of(s: Seq<char>) -> Seq<Seq<char>>;

/// The concatenation of a sequence of segments.
pub open spec fn concat_segs(segs: Seq<Seq<char>>) -> Seq<char>
    decreases segs.len(),
{
    if segs.len() == 0 {
        Seq::empty()
    } else {
        segs[0] + concat_segs(segs.drop_first())
    }
}

/// Relies on `tinysegmenter::tokenize`: it deterministically splits text
/// into word-like segments whose concatenation is exactly the input, each
/// segment nonempty, and segments an empty text into no segments.
#[verifier::external_body]
fn segment_text(s: &str) -> (r: Vec<String>)
    ensures
        r.deep_view() == segment_of(s@),
        concat_segs(r.deep_view()) == s@,
        s@.len() == 0 ==> r.deep_view().len() == 0,
        forall|i: int| 0 <= i < r.deep_view().len() ==> r.deep_view()[i].len() > 0,
{
    tinysegmenter::tokenize(s)
}

/// `s` without its leading whitespace.
pub open spec fn trim_front(s: Seq<char>) -> Seq<char>
    decreases s.len(),
{
    if s.len() > 0 && is_space_char(s[0]) {
        trim_front(s.drop_first())
    } else {
        s
    }
}

/// `s` without its trailing whitespace.
pub open spec fn trim_back(s: Seq<char>) -> Seq<char>
    decreases s.len(),
{
    if s.len() > 0 && is_space_char(s.last()) {
        trim_back(s.drop_last())
    } else {
        s
    }
}

/// `s` without leading and trailing whitespace.
pub open spec fn spec_trim(s: Seq<char>) -> Seq<char> {
    trim_back(trim_front(s))
}

/// If `[0, a)` is all whitespace and `a` is the end or not whitespace,
/// trimming the front leaves exactly the suffix from `a`.
proof fn lemma_trim_front_at(s: Seq<char>, a: int)
    requires
        0 <= a <= s.len(),
        forall|m: int| 0 <= m < a ==> is_space_char(s[m]),
        a == s.len() || !is_space_char(s[a]),
    ensures
        trim_front(s) == s.subrange(a, s.len() as int),
    decreases a,
{
    if a == 0 {
        assert(s.subrange(0, s.len() as int) =~= s);
    } else {
        lemma_trim_front_at(s.drop_first(), a - 1);
        assert(s.drop_first().subrange(a - 1, s.drop_first().len() as int) =~= s.subrange(
            a,
            s.len() as int,
        ));
    }
}

/// If `[b, len)` is all whitespace and `b` is the start or preceded by a
/// non-whitespace character, trimming the back leaves the prefix up to `b`.
proof fn lemma_trim_back_at(s: Seq<char>, b: int)
    requires
        0 <= b <= s.len(),
        forall|m: int| b <= m < s.len() ==> is_space_char(s[m]),
        b == 0 || !is_space_char(s[b - 1]),
    ensures
        trim_back(s) == s.subrange(0, b),
    decreases s.len() - b,
{
    if b == s.len() as int {
        assert(s.subrange(0, b) =~= s);
    } else {
        lemma_trim_back_at(s.drop_last(), b);
        assert(s.drop_last().subrange(0, b) =~= s.subrange(0, b));
    }
}

/// The trimmed range `[a, b)` of `s` is what trimming `s` leaves.
pub proof fn lemma_trim_range(s: Seq<char>, a: int, b: int)
    requires
        0 <= a <= b <= s.len(),
        forall|m: int| 0 <= m < a ==> is_space_char(s[m]),
        forall|m: int| b <= m < s.len() ==> is_space_char(s[m]),
        a == s.len() || !is_space_char(s[a]),
        b == 0 || a == b || !is_space_char(s[b - 1]),
    ensures
        a < b ==> spec_trim(s) == s.subrange(a, b),
        a == b ==> spec_trim(s).len() == 0,
{
    lemma_trim_front_at(s, a);
    let t = s.subrange(a, s.len() as int);
    if a < b {
        lemma_trim_back_at(t, b - a);
        assert(t.subrange(0, b - a) =~= s.subrange(a, b));
    } else {
        // the whole suffix is whitespace
        lemma_trim_back_at(t, 0);
        assert(t.subrange(0, 0) =~= Seq::<char>::empty());
    }
}

/// The token list the CJK path produces from a segment list: each segment
/// is trimmed, and segments that were entirely whitespace are dropped.
pub open spec fn cjk_tokens(segs: Seq<Seq<char>>) -> Seq<Seq<char>>
    decreases segs.len(),
{
    if segs.len() == 0 {
        Seq::empty()
    } else {
        let t = spec_trim(segs[0]);
        let rest = cjk_tokens(segs.drop_first());
        if t.len() == 0 {
            rest
        } else {
            seq![t] + rest
        }
    }
}

/// Trims one segment, appending it to `toks` unless it was all whitespace.
fn push_trimmed(toks: &mut Vec<String>, seg: &String)
    ensures
        final(toks).deep_view() == if spec_trim(seg@).len() == 0 {
            old(toks).deep_view()
        } else {
            old(toks).deep_view().push(spec_trim(seg@))
        },
{
    let chars = str_to_chars(seg.as_str());
    let ghost s = chars@;
    let n = chars.len();
    let mut a: usize = 0;
    while a < n && char_is_space(chars[a])
        invariant
            n == s.len(),
            chars@ == s,
            a <= n,
            forall|m: int| 0 <= m < a ==> is_space_char(s[m]),
        decreases n - a,
    {
        a += 1;
    }
    let mut b: usize = n;
    while b > a && char_is_space(chars[b - 1])
        invariant
            a <= b <= n,
            n == s.len(),
            chars@ == s,
            forall|m: int| b <= m < n ==> is_space_char(s[m]),
        decreases b,
    {
        b -= 1;
    }
    proof {
        lemma_trim_range(s, a as int, b as int);
    }
    if b > a {
        push_token(toks, &chars, a, b);
    }
}

/// Tokenizes text that contains CJK characters: the external segmenter
/// splits it, whitespace-only segments are dropped, the rest are trimmed.
fn tokenize_cjk(text: &String) -> (r: Vec<String>)
    ensures
        r.deep_view() == cjk_tokens(segment_of(text@)),
{
    let segs = segment_text(text.as_str());
    let ghost all = segs.deep_view();
    let n = segs.len();
    let mut toks: Vec<String> = Vec::new();
    proof {
        assert(all.skip(0) =~= all);
    }
    let mut i: usize = 0;
    while i < n
        invariant
            n == segs@.len(),
            all == segs.deep_view(),
            i <= n,
            toks.deep_view() + cjk_tokens(all.skip(i as int)) == cjk_tokens(all),
        decreases n - i,
    {
        proof {
            assert(all.skip(i as int).drop_first() =~= all.skip(i + 1));
            assert(all.skip(i as int)[0] == segs@[i as int].deep_view());
        }
        let ghost before = toks.deep_view();
        push_trimmed(&mut toks, &segs[i]);
        proof {
            if spec_trim(segs@[i as int]@).len() != 0 {
                assert(toks.deep_view() + cjk_tokens(all.skip(i + 1)) =~= before + (seq![
                    spec_trim(segs@[i as int]@)
                ] + cjk_tokens(all.skip(i + 1))));
            }
        }
        i += 1;
    }
    proof {
        assert(all.skip(n as int) =~= Seq::<Seq<char>>::empty());
        assert(toks.deep_view() =~= cjk_tokens(all));
    }
    toks
}

/// The tokens of raw subtitle text: the text is sanitized, then routed to
/// the CJK segmenter when any CJK character is present and to the
/// word-and-punctuation scan otherwise.
pub open spec fn spec_tokenize(s: Seq<char>) -> Seq<Seq<char>> {
    let t = spec_sanitize(s);
    if has_cjk(t) {
        cjk_tokens(segment_of(t))
    } else {
        spec_tokenize_english(t)
    }
}

/// Turns one line of raw subtitle text into its ordered token sequence.
///
/// Empty or whitespace-only text produces an empty token sequence, which
/// callers treat as "no trainable content".
pub fn tokenize(input: &str) -> (r: Vec<String>)
    ensures
        r.deep_view() == spec_tokenize(input@),
{
    let chars = str_to_chars(input);
    let cleaned = sanitize_chars(&chars);
    if has_cjk_chars(&cleaned) {
        let text = chars_to_string(&cleaned);
        tokenize_cjk(&text)
    } else {
        tokenize_english(&cleaned)
    }
}

/// Emits the word starting at `i` and its trailing punctuation tokens;
/// returns the position where the scan resumes.
fn word_and_trail(toks: &mut Vec<String>, chars: &Vec<char>, i: usize) -> (r: usize)
    requires
        i < chars@.len(),
        is_letter_char(chars@[i as int]),
    ensures
        i < r <= chars@.len(),
        final(toks).deep_view() + english_tokens_from(chars@, r as int) == old(
            toks,
        ).deep_view() + english_word_at(chars@, i as int),
{
    let ghost s = chars@;
    let n = chars.len();
    // maximal word run
    let mut k = i;
    while k < n && char_is_wordseg(chars[k])
        invariant
            n == s.len(),
            chars@ == s,
            i <= k <= n,
            forall|m: int| i <= m < k ==> is_wordseg_char(s[m]),
        decreases n - k,
    {
        k += 1;
    }
    proof {
        lemma_wordseg_run_at(s, i as int, k as int);
    }
    push_token(toks, chars, i, k);
    if k < n && char_is_punct(chars[k]) {
        push_token(toks, chars, k, k + 1);
        if k + 1 < n && chars[k + 1] == '"' {
            push_token(toks, chars, k + 1, k + 2);
            proof {
                assert(s.subrange(k + 1, k + 2) =~= seq!['"']);
                assert(toks.deep_view() + english_tokens_from(s, k + 2) =~= old(
                    toks,
                ).deep_view() + english_word_at(s, i as int));
            }
            k + 2
        } else {
            proof {
                assert(toks.deep_view() + english_tokens_from(s, k + 1) =~= old(
                    toks,
                ).deep_view() + english_word_at(s, i as int));
            }
            k + 1
        }
    } else {
        proof {
            assert(toks.deep_view() + english_tokens_from(s, k as int) =~= old(
                toks,
            ).deep_view() + english_word_at(s, i as int));
        }
        k
    }
}


/// A token of the non-CJK tokenizer is never a mix: it is nonempty and
/// consists either of punctuation alone or of word-segment characters
/// (letters, apostrophes, hyphens) alone.
pub open spec fn homogeneous_token(t: Seq<char>) -> bool {
    &&& t.len() > 0
    &&& ((forall|i: int| 0 <= i < t.len() ==> is_punct_char(#[trigger] t[i])) || (forall|i: int|
        0 <= i < t.len() ==> is_wordseg_char(#[trigger] t[i])))
}

proof fn lemma_tokens_from_homogeneous(s: Seq<char>, i: int)
    requires
        0 <= i,
    ensures
        forall|k: int|
            0 <= k < english_tokens_from(s, i).len() ==> homogeneous_token(
                #[trigger] english_tokens_from(s, i)[k],
            ),
    decreases s.len() - i, 1int,
{
    if i >= s.len() {
    } else if is_punct_char(s[i]) {
        let j = punct_run_end(s, i);
        lemma_punct_run(s, i);
        lemma_punct_run(s, i + 1);
        assert(j >= i + 1);
        if j < s.len() && is_letter_char(s[j]) {
            lemma_word_at_homogeneous(s, j);
            let head = s.subrange(i, j);
            assert(homogeneous_token(head)) by {
                assert(forall|m: int| 0 <= m < head.len() ==> is_punct_char(#[trigger] head[m]));
            }
            assert forall|k: int|
                0 <= k < english_tokens_from(s, i).len() implies homogeneous_token(
                #[trigger] english_tokens_from(s, i)[k],
            ) by {
                if k == 0 {
                } else {
                    assert(english_tokens_from(s, i)[k] == english_word_at(s, j)[k - 1]);
                }
            }
        } else {
            lemma_tokens_from_homogeneous(s, j);
            let m = dash_run_start(s, i, j);
            lemma_dash_run(s, i, j);
            if m < j {
                let dash = s.subrange(m, j);
                assert(homogeneous_token(dash)) by {
                    assert(forall|x: int|
                        0 <= x < dash.len() ==> is_wordseg_char(#[trigger] dash[x]));
                }
                if i < m {
                    let head = s.subrange(i, m);
                    assert(homogeneous_token(head)) by {
                        assert(forall|x: int|
                            0 <= x < head.len() ==> is_punct_char(#[trigger] head[x]));
                    }
                    assert forall|k: int|
                        0 <= k < english_tokens_from(s, i).len() implies homogeneous_token(
                        #[trigger] english_tokens_from(s, i)[k],
                    ) by {
                        if k >= 2 {
                            assert(english_tokens_from(s, i)[k] == english_tokens_from(
                                s,
                                j,
                            )[k - 2]);
                        }
                    }
                } else {
                    assert(s.subrange(i, j) == dash);
                    assert forall|k: int|
                        0 <= k < english_tokens_from(s, i).len() implies homogeneous_token(
                        #[trigger] english_tokens_from(s, i)[k],
                    ) by {
                        if k >= 1 {
                            assert(english_tokens_from(s, i)[k] == english_tokens_from(
                                s,
                                j,
                            )[k - 1]);
                        }
                    }
                }
            } else {
                assert forall|k: int|
                    0 <= k < english_tokens_from(s, i).len() implies homogeneous_token(
                    #[trigger] english_tokens_from(s, i)[k],
                ) by {
                    assert(english_tokens_from(s, i)[k] == english_tokens_from(s, j)[k]);
                }
            }
        }
    } else if is_letter_char(s[i]) {
        lemma_word_at_homogeneous(s, i);
        assert forall|k: int|
            0 <= k < english_tokens_from(s, i).len() implies homogeneous_token(
            #[trigger] english_tokens_from(s, i)[k],
        ) by {
            assert(english_tokens_from(s, i)[k] == english_word_at(s, i)[k]);
        }
    } else {
        lemma_tokens_from_homogeneous(s, i + 1);
        assert forall|k: int|
            0 <= k < english_tokens_from(s, i).len() implies homogeneous_token(
            #[trigger] english_tokens_from(s, i)[k],
        ) by {
            assert(english_tokens_from(s, i)[k] == english_tokens_from(s, i + 1)[k]);
        }
    }
}

proof fn lemma_word_at_homogeneous(s: Seq<char>, i: int)
    requires
        0 <= i,
    ensures
        forall|k: int|
            0 <= k < english_word_at(s, i).len() ==> homogeneous_token(
                #[trigger] english_word_at(s, i)[k],
            ),
    decreases s.len() - i, 0int,
{
    if 0 <= i < s.len() && is_wordseg_char(s[i]) {
        let k2 = wordseg_run_end(s, i);
        lemma_wordseg_run(s, i);
        lemma_wordseg_run(s, i + 1);
        lemma_trail_at_homogeneous(s, k2);
        let word = s.subrange(i, k2);
        assert(homogeneous_token(word)) by {
            assert(forall|m: int| 0 <= m < word.len() ==> is_wordseg_char(#[trigger] word[m]));
        }
        assert forall|k: int|
            0 <= k < english_word_at(s, i).len() implies homogeneous_token(
            #[trigger] english_word_at(s, i)[k],
        ) by {
            if k == 0 {
            } else {
                assert(english_word_at(s, i)[k] == english_trail_at(s, k2)[k - 1]);
            }
        }
    }
}

proof fn lemma_trail_at_homogeneous(s: Seq<char>, k: int)
    requires
        0 <= k,
    ensures
        forall|k2: int|
            0 <= k2 < english_trail_at(s, k).len() ==> homogeneous_token(
                #[trigger] english_trail_at(s, k)[k2],
            ),
    decreases s.len() - k, 2int,
{
    if 0 <= k < s.len() && is_punct_char(s[k]) {
        let single = s.subrange(k, k + 1);
        assert(homogeneous_token(single)) by {
            assert(single.len() == 1 && single[0] == s[k]);
            assert(forall|m: int| 0 <= m < single.len() ==> is_punct_char(#[trigger] single[m]));
        }
        let quote = seq!['"'];
        assert(homogeneous_token(quote)) by {
            assert(is_punct_char('"'));
            assert(forall|m: int| 0 <= m < quote.len() ==> is_punct_char(#[trigger] quote[m]));
        }
        if k + 1 < s.len() && s[k + 1] == '"' {
            lemma_tokens_from_homogeneous(s, k + 2);
            assert forall|k2: int|
                0 <= k2 < english_trail_at(s, k).len() implies homogeneous_token(
                #[trigger] english_trail_at(s, k)[k2],
            ) by {
                if k2 >= 2 {
                    assert(english_trail_at(s, k)[k2] == english_tokens_from(s, k + 2)[k2 - 2]);
                }
            }
        } else {
            lemma_tokens_from_homogeneous(s, k + 1);
            assert forall|k2: int|
                0 <= k2 < english_trail_at(s, k).len() implies homogeneous_token(
                #[trigger] english_trail_at(s, k)[k2],
            ) by {
                if k2 >= 1 {
                    assert(english_trail_at(s, k)[k2] == english_tokens_from(s, k + 1)[k2 - 1]);
                }
            }
        }
    } else {
        lemma_tokens_from_homogeneous(s, k);
        assert forall|k2: int|
            0 <= k2 < english_trail_at(s, k).len() implies homogeneous_token(
            #[trigger] english_trail_at(s, k)[k2],
        ) by {
            assert(english_trail_at(s, k)[k2] == english_tokens_from(s, k)[k2]);
        }
    }
}

/// Tokenizer law: on text routed to the word-and-punctuation scan, no
/// emitted token mixes punctuation with letters; every token is a nonempty
/// run of one class.
pub proof fn lemma_tokenize_english_homogeneous(s: Seq<char>)
    ensures
        forall|k: int|
            0 <= k < spec_tokenize_english(s).len() ==> homogeneous_token(
                #[trigger] spec_tokenize_english(s)[k],
            ),
{
    lemma_tokens_from_homogeneous(s, 0);
}


/// A word fit for the round-trip law: nonempty and letters only.
pub open spec fn letter_word(w: Seq<char>) -> bool {
    w.len() > 0 && forall|m: int| 0 <= m < w.len() ==> is_letter_char(#[trigger] w[m])
}

/// Scanning a suffix that reads `space_joined(words, k)` yields exactly the
/// words from `k` on.
proof fn lemma_sentence_tokens(s: Seq<char>, i: int, words: Seq<Seq<char>>, k: int)
    requires
        0 <= i <= s.len(),
        0 <= k <= words.len(),
        s.subrange(i, s.len() as int) == space_joined(words, k),
        forall|j: int| k <= j < words.len() ==> letter_word(#[trigger] words[j]),
    ensures
        english_tokens_from(s, i) == words.skip(k),
    decreases words.len() - k,
{
    let suffix = s.subrange(i, s.len() as int);
    if k == words.len() {
        assert(suffix.len() == 0);
        assert(english_tokens_from(s, i) =~= words.skip(k));
    } else {
        let w = words[k];
        assert(letter_word(w));
        let wl = w.len() as int;
        // the suffix starts with the word itself
        if k == words.len() - 1 {
            assert(suffix == w);
        } else {
            assert(suffix == w + seq![' '] + space_joined(words, k + 1));
        }
        assert forall|m: int| 0 <= m < wl implies s[i + m] == w[m] by {
            assert(suffix[m] == w[m]);
        }
        // the scan takes the letter branch and the word run is exactly w
        assert(is_letter_char(s[i])) by {
            assert(w[0] == s[i + 0]);
        }
        assert(!is_punct_char(s[i]));
        assert forall|m: int| i <= m < i + wl implies is_wordseg_char(s[m]) by {
            assert(s[i + (m - i)] == w[m - i]);
            assert(is_letter_char(w[m - i]));
        }
        if k == words.len() - 1 {
            assert(i + wl == s.len());
            lemma_wordseg_run_at(s, i, i + wl);
        } else {
            assert(s[i + wl] == ' ') by {
                assert(suffix[wl] == (w + seq![' '] + space_joined(words, k + 1))[wl]);
            }
            assert(!is_wordseg_char(s[i + wl]));
            lemma_wordseg_run_at(s, i, i + wl);
        }
        assert(s.subrange(i, i + wl) =~= w);
        // past the word: the end of the text, or the separating space
        if k == words.len() - 1 {
            assert(english_trail_at(s, i + wl) =~= Seq::<Seq<char>>::empty());
            assert(english_word_at(s, i) =~= seq![w]);
            assert(english_tokens_from(s, i) =~= words.skip(k));
        } else {
            assert(!is_punct_char(s[i + wl]));
            assert(!is_letter_char(s[i + wl]));
            assert(english_trail_at(s, i + wl) == english_tokens_from(s, i + wl));
            assert(english_tokens_from(s, i + wl) == english_tokens_from(s, i + wl + 1));
            // the remainder reads as the sentence from the next word on
            assert(s.subrange(i + wl + 1, s.len() as int) =~= space_joined(words, k + 1)) by {
                assert forall|m: int|
                    0 <= m < s.len() - (i + wl + 1) implies #[trigger] s.subrange(
                    i + wl + 1,
                    s.len() as int,
                )[m] == space_joined(words, k + 1)[m] by {
                    assert(suffix[wl + 1 + m] == (w + seq![' '] + space_joined(
                        words,
                        k + 1,
                    ))[wl + 1 + m]);
                }
            }
            lemma_sentence_tokens(s, i + wl + 1, words, k + 1);
            assert(english_word_at(s, i) =~= seq![w] + words.skip(k + 1));
            assert(english_tokens_from(s, i) =~= words.skip(k));
        }
    }
}

/// The sanitizer leaves text of letters and plain spaces unchanged.
proof fn lemma_sanitize_plain(s: Seq<char>, i: int)
    requires
        0 <= i <= s.len(),
        forall|m: int| 0 <= m < s.len() ==> is_letter_char(#[trigger] s[m]) || s[m] == ' ',
    ensures
        sanitize_from(s, i, false) == s.subrange(i, s.len() as int),
    decreases s.len() - i,
{
    if i == s.len() {
        assert(sanitize_from(s, i, false) =~= s.subrange(i, s.len() as int));
    } else {
        assert(is_letter_char(s[i]) || s[i] == ' ');
        assert(s[i] != '{' && s[i] != '\n' && s[i] != '\\');
        assert(group_close_at(s, i) is None);
        lemma_sanitize_plain(s, i + 1);
        assert(seq![s[i]] + s.subrange(i + 1, s.len() as int) =~= s.subrange(
            i,
            s.len() as int,
        ));
    }
}

/// Letters and spaces are not CJK characters.
proof fn lemma_plain_not_cjk(s: Seq<char>)
    requires
        forall|m: int| 0 <= m < s.len() ==> is_letter_char(#[trigger] s[m]) || s[m] == ' ',
    ensures
        !has_cjk(s),
{
    assert forall|m: int| 0 <= m < s.len() implies !is_cjk_char(s[m]) by {
        assert(is_letter_char(s[m]) || s[m] == ' ');
    }
}

/// Round-trip law: a plain sentence of letter-only words joined by single
/// spaces tokenizes to exactly those words, and rendering the tokens
/// reproduces the sentence with its original spacing.
pub proof fn lemma_tokenize_round_trip(words: Seq<Seq<char>>)
    requires
        forall|j: int| 0 <= j < words.len() ==> letter_word(#[trigger] words[j]),
    ensures
        spec_tokenize(space_joined(words, 0)) == words,
        spec_render(words) == space_joined(words, 0),
{
    let s = space_joined(words, 0);
    lemma_space_joined_plain(words, 0);
    lemma_sanitize_plain(s, 0);
    assert(spec_sanitize(s) =~= s);
    lemma_plain_not_cjk(s);
    assert(s.subrange(0, s.len() as int) =~= s);
    lemma_sentence_tokens(s, 0, words, 0);
    assert(words.skip(0) =~= words);
    assert forall|j: int| 0 <= j < words.len() implies crate::render::has_alnum(
        #[trigger] words[j],
    ) by {
        let w = words[j];
        assert(is_letter_char(w[0]));
        assert(is_alnum_char(w[0]));
    }
    crate::render::lemma_render_joins_words(words);
}

/// A sentence of letter-only words contains only letters and spaces.
proof fn lemma_space_joined_plain(words: Seq<Seq<char>>, k: int)
    requires
        0 <= k <= words.len(),
        forall|j: int| k <= j < words.len() ==> letter_word(#[trigger] words[j]),
    ensures
        forall|m: int|
            0 <= m < space_joined(words, k).len() ==> is_letter_char(
                #[trigger] space_joined(words, k)[m],
            ) || space_joined(words, k)[m] == ' ',
    decreases words.len() - k,
{
    if k < words.len() {
        let w = words[k];
        assert(letter_word(w));
        if k == words.len() - 1 {
        } else {
            lemma_space_joined_plain(words, k + 1);
            assert forall|m: int|
                0 <= m < space_joined(words, k).len() implies is_letter_char(
                #[trigger] space_joined(words, k)[m],
            ) || space_joined(words, k)[m] == ' ' by {
                let joined = w + seq![' '] + space_joined(words, k + 1);
                if m < w.len() {
                    assert(joined[m] == w[m]);
                } else if m == w.len() {
                    assert(joined[m] == ' ');
                } else {
                    assert(joined[m] == space_joined(words, k + 1)[m - w.len() - 1]);
                }
            }
        }
    }
}

} // verus!
