//! Symbol balancer: computes the minimal bracket/quote prefix and suffix
//! that make a sampled token sequence look well formed when rendered.
//!
//! Scanning every character left to right: a closing symbol that matches
//! the most recently owed closer settles that expectation; any other
//! opening symbol owes its closer at the end; any other closing symbol owes
//! its opener at the front. The double quote pairs with itself, so its
//! second occurrence settles the expectation its first occurrence opened.

use vstd::prelude::*;

use crate::text::{chars_to_string, str_to_chars};

verus! {

/// The closing symbol paired with `c`, when `c` is an opening symbol.
pub open spec fn closer_of(c: char) -> Option<char> {
    if c == '\u{ff08}' {
        Some('\u{ff09}')
    } else if c == '\u{ff5b}' {
        Some('\u{ff5d}')
    } else if c == '\u{ff3b}' {
        Some('\u{ff3d}')
    } else if c == '\u{3010}' {
        Some('\u{3011}')
    } else if c == '\u{3016}' {
        Some('\u{3017}')
    } else if c == '\u{3014}' {
        Some('\u{3015}')
    } else if c == '\u{3018}' {
        Some('\u{3019}')
    } else if c == '\u{3008}' {
        Some('\u{3009}')
    } else if c == '\u{300a}' {
        Some('\u{300b}')
    } else if c == '\u{300c}' {
        Some('\u{300d}')
    } else if c == '\u{300e}' {
        Some('\u{300f}')
    } else if c == '\u{ff1c}' {
        Some('\u{ff1e}')
    } else if c == '\u{226a}' {
        Some('\u{226b}')
    } else if c == '\u{ff62}' {
        Some('\u{ff63}')
    } else if c == '(' {
        Some(')')
    } else if c == '[' {
        Some(']')
    } else if c == '<' {
        Some('>')
    } else if c == '"' {
        Some('"')
    } else {
        None
    }
}

/// The opening symbol paired with `c`, when `c` is a closing symbol.
pub open spec fn opener_of(c: char) -> Option<char> {
    if c == '\u{ff09}' {
        Some('\u{ff08}')
    } else if c == '\u{ff5d}' {
        Some('\u{ff5b}')
    } else if c == '\u{ff3d}' {
        Some('\u{ff3b}')
    } else if c == '\u{3011}' {
        Some('\u{3010}')
    } else if c == '\u{3017}' {
        Some('\u{3016}')
    } else if c == '\u{3015}' {
        Some('\u{3014}')
    } else if c == '\u{3019}' {
        Some('\u{3018}')
    } else if c == '\u{3009}' {
        Some('\u{3008}')
    } else if c == '\u{300b}' {
        Some('\u{300a}')
    } else if c == '\u{300d}' {
        Some('\u{300c}')
    } else if c == '\u{300f}' {
        Some('\u{300e}')
    } else if c == '\u{ff1e}' {
        Some('\u{ff1c}')
    } else if c == '\u{226b}' {
        Some('\u{226a}')
    } else if c == '\u{ff63}' {
        Some('\u{ff62}')
    } else if c == ')' {
        Some('(')
    } else if c == ']' {
        Some('[')
    } else if c == '>' {
        Some('<')
    } else if c == '"' {
        Some('"')
    } else {
        None
    }
}

/// Closing symbol paired with `c`, executable form.
pub fn char_closer(c: char) -> (r: Option<char>)
    ensures
        r == closer_of(c),
{
    match c {
        '\u{ff08}' => Some('\u{ff09}'),
        '\u{ff5b}' => Some('\u{ff5d}'),
        '\u{ff3b}' => Some('\u{ff3d}'),
        '\u{3010}' => Some('\u{3011}'),
        '\u{3016}' => Some('\u{3017}'),
        '\u{3014}' => Some('\u{3015}'),
        '\u{3018}' => Some('\u{3019}'),
        '\u{3008}' => Some('\u{3009}'),
        '\u{300a}' => Some('\u{300b}'),
        '\u{300c}' => Some('\u{300d}'),
        '\u{300e}' => Some('\u{300f}'),
        '\u{ff1c}' => Some('\u{ff1e}'),
        '\u{226a}' => Some('\u{226b}'),
        '\u{ff62}' => Some('\u{ff63}'),
        '(' => Some(')'),
        '[' => Some(']'),
        '<' => Some('>'),
        '"' => Some('"'),
        _ => None,
    }
}

/// Opening symbol paired with `c`, executable form.
pub fn char_opener(c: char) -> (r: Option<char>)
    ensures
        r == opener_of(c),
{
    match c {
        '\u{ff09}' => Some('\u{ff08}'),
        '\u{ff5d}' => Some('\u{ff5b}'),
        '\u{ff3d}' => Some('\u{ff3b}'),
        '\u{3011}' => Some('\u{3010}'),
        '\u{3017}' => Some('\u{3016}'),
        '\u{3015}' => Some('\u{3014}'),
        '\u{3019}' => Some('\u{3018}'),
        '\u{3009}' => Some('\u{3008}'),
        '\u{300b}' => Some('\u{300a}'),
        '\u{300d}' => Some('\u{300c}'),
        '\u{300f}' => Some('\u{300e}'),
        '\u{ff1e}' => Some('\u{ff1c}'),
        '\u{226b}' => Some('\u{226a}'),
        '\u{ff63}' => Some('\u{ff62}'),
        ')' => Some('('),
        ']' => Some('['),
        '>' => Some('<'),
        '"' => Some('"'),
        _ => None,
    }
}

/// One balancing step. The state is the pair of stacks
/// `(pending_open, pending_close)`: openers still owed at the front, and
/// closers still owed at the end.
///
/// A closing symbol matching the top of `pending_close` settles that
/// expectation; this is checked first, so that a quote pairs with a pending
/// quote. Any other opening symbol pushes its closer onto `pending_close`;
/// any other closing symbol pushes its opener onto `pending_open`.
pub open spec fn bal_step(st: (Seq<char>, Seq<char>), c: char) -> (Seq<char>, Seq<char>) {
    if opener_of(c) is Some && st.1.len() > 0 && st.1.last() == c {
        // a closing symbol supplies the most recently owed closer
        (st.0, st.1.drop_last())
    } else if closer_of(c) is Some {
        // an opening symbol: its closer becomes owed at the end
        (st.0, st.1.push(closer_of(c)->Some_0))
    } else if opener_of(c) is Some {
        // a closing symbol with no pending expectation: its opener is
        // missing at the front
        (st.0.push(opener_of(c)->Some_0), st.1)
    } else {
        st
    }
}

/// Balancing state after scanning the characters of `s` from `i` on.
pub open spec fn bal_chars(st: (Seq<char>, Seq<char>), s: Seq<char>, i: int) -> (
    Seq<char>,
    Seq<char>,
)
    decreases s.len() - i,
{
    if i < 0 || i >= s.len() {
        st
    } else {
        bal_chars(bal_step(st, s[i]), s, i + 1)
    }
}

/// Balancing state after scanning every character of every token from
/// token `i` on.
pub open spec fn bal_tokens(st: (Seq<char>, Seq<char>), toks: Seq<Seq<char>>, i: int) -> (
    Seq<char>,
    Seq<char>,
)
    decreases toks.len() - i,
{
    if i < 0 || i >= toks.len() {
        st
    } else {
        bal_tokens(bal_chars(st, toks[i], 0), toks, i + 1)
    }
}

/// The two stacks after scanning a whole token sequence.
pub open spec fn spec_balance(toks: Seq<Seq<char>>) -> (Seq<char>, Seq<char>) {
    bal_tokens((Seq::empty(), Seq::empty()), toks, 0)
}

/// Each character of `cs` as a one-character token.
pub open spec fn chars_to_tokens(cs: Seq<char>) -> Seq<Seq<char>> {
    Seq::new(cs.len(), |i: int| seq![cs[i]])
}

/// Turns a stack of symbols into tokens, innermost symbol last.
fn stack_to_tokens(stack: &Vec<char>) -> (r: Vec<String>)
    ensures
        r.deep_view() == chars_to_tokens(stack@.reverse()),
{
    let n = stack.len();
    let mut out: Vec<String> = Vec::new();
    for i in 0..n
        invariant
            n == stack@.len(),
            out.deep_view() == chars_to_tokens(stack@.reverse()).subrange(0, i as int),
        decreases n - i,
    {
        let c = stack[n - 1 - i];
        let single: Vec<char> = vec![c];
        proof {
            assert(out.deep_view().len() == i as int);
            assert(out@.len() == i as int);
        }
        out.push(chars_to_string(&single));
        proof {
            assert(single@ =~= seq![c]);
            let rev = stack@.reverse();
            let prev = chars_to_tokens(rev).subrange(0, i as int);
            assert(out@.len() == i + 1);
            assert(out@[i as int]@ == seq![c]);
            assert(rev[i as int] == stack@[n - 1 - i]);
            assert forall|k: int| 0 <= k < i + 1 implies out.deep_view()[k] == chars_to_tokens(
                rev,
            ).subrange(0, i + 1)[k] by {
                if k < i as int {
                    assert(out.deep_view()[k] == prev[k]);
                } else {
                    assert(chars_to_tokens(rev)[k] == seq![rev[k]]);
                }
            }
            assert(out.deep_view() =~= chars_to_tokens(rev).subrange(0, i + 1));
        }
    }
    proof {
        assert(chars_to_tokens(stack@.reverse()).subrange(0, n as int) =~= chars_to_tokens(
            stack@.reverse(),
        ));
    }
    out
}

/// Computes the token prefix and suffix that balance the brackets and
/// quotes of a generated token sequence.
///
/// The prefix holds the openers still owed at the front, outermost first;
/// the suffix holds the closers still owed at the end, innermost first, so
/// that prepending the prefix and appending the suffix nests properly.
pub fn balance_symbols(tokens: &Vec<String>) -> (r: (Vec<String>, Vec<String>))
    ensures
        r.0.deep_view() == chars_to_tokens(spec_balance(tokens.deep_view()).0.reverse()),
        r.1.deep_view() == chars_to_tokens(spec_balance(tokens.deep_view()).1.reverse()),
{
    let ghost toks = tokens.deep_view();
    let mut pre: Vec<char> = Vec::new();
    let mut post: Vec<char> = Vec::new();
    let n = tokens.len();
    let mut i: usize = 0;
    while i < n
        invariant
            n == tokens@.len(),
            toks == tokens.deep_view(),
            i <= n,
            bal_tokens((pre@, post@), toks, i as int) == spec_balance(toks),
        decreases n - i,
    {
        let chars = str_to_chars(tokens[i].as_str());
        let ghost s = chars@;
        proof {
            assert(s == toks[i as int]);
        }
        let m = chars.len();
        let mut j: usize = 0;
        while j < m
            invariant
                m == s.len(),
                chars@ == s,
                j <= m,
                i < n,
                n == tokens@.len(),
                toks == tokens.deep_view(),
                s == toks[i as int],
                bal_tokens(bal_chars((pre@, post@), s, j as int), toks, i + 1) == spec_balance(
                    toks,
                ),
            decreases m - j,
        {
            let c = chars[j];
            let ghost st = (pre@, post@);
            let settles_pending = match char_opener(c) {
                Some(_) => post.len() > 0 && post[post.len() - 1] == c,
                None => false,
            };
            if settles_pending {
                post.pop();
            } else {
                match char_closer(c) {
                    Some(close) => {
                        post.push(close);
                    },
                    None => {
                        match char_opener(c) {
                            Some(open) => {
                                pre.push(open);
                            },
                            None => {},
                        }
                    },
                }
            }
            proof {
                assert((pre@, post@) == bal_step(st, s[j as int]));
            }
            j += 1;
        }
        i += 1;
    }
    let prefix = stack_to_tokens(&pre);
    let suffix = stack_to_tokens(&post);
    (prefix, suffix)
}

} // verus!
