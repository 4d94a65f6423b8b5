//! Line renderer: joins a token sequence into readable text, keeping
//! punctuation tight against words and pairing double quotes with the text
//! they enclose.

use vstd::prelude::*;

use crate::text::{char_is_alnum, chars_to_string, is_alnum_char, str_to_chars};

verus! {

/// True when the token contains an ASCII alphanumeric character; only such
/// tokens get a separating space before them.
pub open spec fn has_alnum(t: Seq<char>) -> bool {
    exists|i: int| 0 <= i < t.len() && is_alnum_char(t[i])
}

/// Alphanumeric-content test on a token's characters.
pub fn token_has_alnum(chars: &Vec<char>) -> (r: bool)
    ensures
        r == has_alnum(chars@),
{
    let n = chars.len();
    for i in 0..n
        invariant
            n == chars@.len(),
            forall|m: int| 0 <= m < i ==> !is_alnum_char(chars@[m]),
        decreases n - i,
    {
        if char_is_alnum(chars[i]) {
            return true;
        }
    }
    false
}

/// The text rendered from token `i` on, given the text `acc` built so far,
/// whether a double quote is waiting to be closed, and whether the next
/// token's separating space is suppressed.
///
/// A double-quote token closes a pending quote with no space, or opens one
/// after a space and glues itself to the following token. Any other token
/// is preceded by a space only when it has alphanumeric content and no
/// suppression is pending.
pub open spec fn render_rest(
    acc: Seq<char>,
    toks: Seq<Seq<char>>,
    i: int,
    need_cq: bool,
    skip_sp: bool,
) -> Seq<char>
    decreases toks.len() - i,
{
    if i < 0 || i >= toks.len() {
        acc
    } else {
        let t = toks[i];
        if t == seq!['"'] {
            if need_cq {
                render_rest(acc + seq!['"'], toks, i + 1, false, skip_sp)
            } else {
                render_rest(acc + seq![' ', '"'], toks, i + 1, true, true)
            }
        } else {
            if has_alnum(t) && !skip_sp {
                render_rest(acc + seq![' '] + t, toks, i + 1, need_cq, false)
            } else {
                render_rest(acc + t, toks, i + 1, need_cq, false)
            }
        }
    }
}

/// The text rendered from a whole token sequence: the first token verbatim,
/// the rest by [`render_rest`].
pub open spec fn spec_render(toks: Seq<Seq<char>>) -> Seq<char> {
    if toks.len() == 0 {
        Seq::empty()
    } else {
        render_rest(toks[0], toks, 1, toks[0] == seq!['"'], toks[0] == seq!['"'])
    }
}

/// Joins a token sequence into one line of text; see [`spec_render`].
pub fn write_tokens(tokens: &Vec<String>) -> (r: String)
    ensures
        r@ == spec_render(tokens.deep_view()),
{
    let ghost toks = tokens.deep_view();
    let n = tokens.len();
    if n == 0 {
        return String::new();
    }
    let first = str_to_chars(tokens[0].as_str());
    let is_quote = first.len() == 1 && first[0] == '"';
    proof {
        if is_quote {
            assert(first@ =~= seq!['"']);
        } else {
            if first@ == seq!['"'] {
                assert(first@.len() == 1 && first@[0] == '"');
                assert(false);
            }
        }
    }
    let mut out: Vec<char> = first;
    let mut need_cq = is_quote;
    let mut skip_sp = is_quote;
    let mut i: usize = 1;
    while i < n
        invariant
            n == tokens@.len(),
            toks == tokens.deep_view(),
            1 <= i <= n,
            render_rest(out@, toks, i as int, need_cq, skip_sp) == spec_render(toks),
        decreases n - i,
    {
        let t = str_to_chars(tokens[i].as_str());
        let ghost tv = t@;
        proof {
            assert(tv == toks[i as int]);
        }
        let t_is_quote = t.len() == 1 && t[0] == '"';
        proof {
            if t_is_quote {
                assert(tv =~= seq!['"']);
            } else {
                if tv == seq!['"'] {
                    assert(tv.len() == 1 && tv[0] == '"');
                    assert(false);
                }
            }
        }
        if t_is_quote {
            let ghost out0 = out@;
            if need_cq {
                out.push('"');
                need_cq = false;
                proof {
                    assert(out@ =~= out0 + seq!['"']);
                }
            } else {
                out.push(' ');
                out.push('"');
                need_cq = true;
                skip_sp = true;
                proof {
                    assert(out@ =~= out0 + seq![' ', '"']);
                }
            }
        } else {
            let ghost out_pre = out@;
            let spaced = token_has_alnum(&t) && !skip_sp;
            if spaced {
                out.push(' ');
            }
            // append the token's characters
            let ghost out0 = out@;
            let m = t.len();
            let mut j: usize = 0;
            while j < m
                invariant
                    m == tv.len(),
                    t@ == tv,
                    j <= m,
                    out@ == out0 + tv.subrange(0, j as int),
                decreases m - j,
            {
                out.push(t[j]);
                proof {
                    assert(out@ =~= out0 + tv.subrange(0, j + 1));
                }
                j += 1;
            }
            proof {
                assert(out@ =~= out0 + tv);
                if spaced {
                    assert(out@ =~= out_pre + seq![' '] + tv);
                } else {
                    assert(out@ =~= out_pre + tv);
                }
            }
            skip_sp = false;
        }
        proof {
            assert(render_rest(out@, toks, i + 1, need_cq, skip_sp) == spec_render(toks));
        }
        i += 1;
    }
    chars_to_string(&out)
}

/// The tokens joined with single spaces, from token `i` on.
pub open spec fn space_joined(toks: Seq<Seq<char>>, i: int) -> Seq<char>
    decreases toks.len() - i,
{
    if i < 0 || i >= toks.len() {
        Seq::empty()
    } else if i == toks.len() - 1 {
        toks[i]
    } else {
        toks[i] + seq![' '] + space_joined(toks, i + 1)
    }
}

proof fn lemma_render_rest_alnum(
    acc: Seq<char>,
    toks: Seq<Seq<char>>,
    i: int,
    need_cq: bool,
)
    requires
        1 <= i,
        forall|k: int| i <= k < toks.len() ==> has_alnum(#[trigger] toks[k]),
    ensures
        i < toks.len() ==> render_rest(acc, toks, i, need_cq, false) == acc + seq![' ']
            + space_joined(toks, i),
        i >= toks.len() ==> render_rest(acc, toks, i, need_cq, false) == acc,
    decreases toks.len() - i,
{
    if i < toks.len() {
        let t = toks[i];
        assert(has_alnum(t));
        assert(t != seq!['"']) by {
            if t == seq!['"'] {
                assert(!is_alnum_char('"'));
                assert(forall|m: int| 0 <= m < t.len() ==> t[m] == '"');
                assert(!has_alnum(t));
            }
        }
        lemma_render_rest_alnum(acc + seq![' '] + t, toks, i + 1, need_cq);
        if i == toks.len() - 1 {
        } else {
            assert((acc + seq![' '] + t) + seq![' '] + space_joined(toks, i + 1) =~= acc + seq![
                ' ',
            ] + (t + seq![' '] + space_joined(toks, i + 1)));
        }
    }
}

/// Rendering a sequence of word tokens reproduces plain spacing: when every
/// token has alphanumeric content, the rendered line is exactly the tokens
/// joined by single spaces.
pub proof fn lemma_render_joins_words(toks: Seq<Seq<char>>)
    requires
        forall|k: int| 0 <= k < toks.len() ==> has_alnum(#[trigger] toks[k]),
    ensures
        spec_render(toks) == space_joined(toks, 0),
{
    if toks.len() == 0 {
    } else {
        let t = toks[0];
        assert(t != seq!['"']) by {
            if t == seq!['"'] {
                assert(!is_alnum_char('"'));
                assert(!has_alnum(t));
            }
        }
        lemma_render_rest_alnum(t, toks, 1, false);
        if toks.len() == 1 {
        } else {
            assert(t + seq![' '] + space_joined(toks, 1) =~= space_joined(toks, 0));
        }
    }
}

} // verus!
