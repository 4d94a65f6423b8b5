//! Markup sanitizer: removes subtitle styling and comment groups and
//! normalizes line-break markers, before tokenization.
//!
//! Two kinds of noise are removed from a line of subtitle text:
//! - a brace group that sets a fully transparent color hides everything up
//!   to the next brace group or end of line, since that text is invisible
//!   and not spoken dialogue;
//! - every other brace group is a styling or comment annotation and is
//!   dropped outright.
//!
//! Explicit line-break markers (`\N`, `\n`), the non-breaking-space marker
//! (`\h`) and literal newlines each become a single ASCII space.

use vstd::prelude::*;

use crate::text::{chars_to_string, contains_chars, contains_seq, range_starts_with, starts_with, str_to_chars};

verus! {

/// Position of the first `}` at or after `j`, scanning neither past a
/// literal newline nor past the end of the text.
pub open spec fn find_group_close(s: Seq<char>, j: int) -> Option<int>
    decreases s.len() - j,
{
    if j < 0 || j >= s.len() {
        None
    } else if s[j] == '}' {
        Some(j)
    } else if s[j] == '\n' {
        None
    } else {
        find_group_close(s, j + 1)
    }
}

/// A found group close lies between the scan start and the end of the text.
pub proof fn lemma_find_group_close_range(s: Seq<char>, j: int)
    ensures
        find_group_close(s, j) matches Some(r) ==> j <= r < s.len(),
    decreases s.len() - j,
{
    if j < 0 || j >= s.len() {
    } else if s[j] == '}' {
    } else if s[j] == '\n' {
    } else {
        lemma_find_group_close_range(s, j + 1);
    }
}

/// If no `}` or newline occurs in `[a, b)` and `s[b] == '}'`, the scan from
/// `a` finds exactly `b`.
pub proof fn lemma_find_group_close_at(s: Seq<char>, a: int, b: int)
    requires
        0 <= a <= b < s.len(),
        s[b] == '}',
        forall|m: int| a <= m < b ==> s[m] != '}' && s[m] != '\n',
    ensures
        find_group_close(s, a) == Some(b),
    decreases b - a,
{
    if a < b {
        lemma_find_group_close_at(s, a + 1, b);
    }
}

/// If every character from `a` to the end or the next newline is neither
/// `}` nor past a newline, the scan finds nothing.
pub proof fn lemma_find_group_close_none(s: Seq<char>, a: int, b: int)
    requires
        0 <= a <= b <= s.len(),
        b == s.len() || s[b] == '\n',
        forall|m: int| a <= m < b ==> s[m] != '}' && s[m] != '\n',
    ensures
        find_group_close(s, a) is None,
    decreases b - a,
{
    if a < b {
        lemma_find_group_close_none(s, a + 1, b);
    }
}

/// The close position of the brace group opening at `i`, if a group opens
/// there: `s[i]` is `{`, at least one character of content follows, and a
/// `}` closes the group before any newline.
pub open spec fn group_close_at(s: Seq<char>, i: int) -> Option<int> {
    if 0 <= i < s.len() && s[i] == '{' && i + 1 < s.len() && s[i + 1] != '\n' {
        find_group_close(s, i + 2)
    } else {
        None
    }
}

/// Marker for a color override whose alpha starts with an upper-case `F`.
pub open spec fn transparent_marker_upper() -> Seq<char> {
    seq!['\\', 'c', '&', 'H', 'F']
}

/// Marker for a color override whose alpha starts with a lower-case `f`.
pub open spec fn transparent_marker_lower() -> Seq<char> {
    seq!['\\', 'c', '&', 'H', 'f']
}

/// True when a brace group's content sets a fully transparent color: it
/// contains a `\c&H` color override whose first digit is `F` or `f`.
pub open spec fn group_is_transparent(g: Seq<char>) -> bool {
    contains_seq(g, transparent_marker_upper()) || contains_seq(g, transparent_marker_lower())
}

#[via_fn]
proof fn sanitize_from_decreases(s: Seq<char>, i: int, hidden: bool) {
    lemma_find_group_close_range(s, i + 2);
}

/// The sanitized remainder of `s` from position `i`, with `hidden` telling
/// whether the text at `i` is inside a transparent stretch.
pub open spec fn sanitize_from(s: Seq<char>, i: int, hidden: bool) -> Seq<char>
    decreases s.len() - i,
        via sanitize_from_decreases
{
    if i < 0 || i >= s.len() {
        Seq::empty()
    } else if group_close_at(s, i) is Some {
        let j = group_close_at(s, i)->Some_0;
        sanitize_from(s, j + 1, group_is_transparent(s.subrange(i + 1, j)))
    } else if s[i] == '\n' {
        seq![' '] + sanitize_from(s, i + 1, false)
    } else if hidden {
        sanitize_from(s, i + 1, true)
    } else if s[i] == '\\' && i + 1 < s.len() && (s[i + 1] == 'N' || s[i + 1] == 'n' || s[i + 1]
        == 'h') {
        seq![' '] + sanitize_from(s, i + 2, false)
    } else {
        seq![s[i]] + sanitize_from(s, i + 1, false)
    }
}

/// What the sanitizer produces for `s`.
pub open spec fn spec_sanitize(s: Seq<char>) -> Seq<char> {
    sanitize_from(s, 0, false)
}

/// Sanitizer pass over a vector of characters; see [`spec_sanitize`].
pub fn sanitize_chars(chars: &Vec<char>) -> (r: Vec<char>)
    ensures
        r@ == spec_sanitize(chars@),
{
    let ghost s = chars@;
    let n = chars.len();
    let mut out: Vec<char> = Vec::new();
    let mut i: usize = 0;
    let mut hidden = false;
    let upper: Vec<char> = vec!['\\', 'c', '&', 'H', 'F'];
    let lower: Vec<char> = vec!['\\', 'c', '&', 'H', 'f'];
    proof {
        assert(upper@ =~= transparent_marker_upper());
        assert(lower@ =~= transparent_marker_lower());
        assert(out@ + sanitize_from(s, 0, false) =~= spec_sanitize(s));
    }
    while i < n
        invariant
            n == s.len(),
            i <= n,
            upper@ == transparent_marker_upper(),
            lower@ == transparent_marker_lower(),
            chars@ == s,
            out@ + sanitize_from(s, i as int, hidden) == spec_sanitize(s),
        decreases n - i,
    {
        let c = chars[i];
        if c == '{' && i + 1 < n && chars[i + 1] != '\n' {
            // look for the matching close, past at least one content char
            let mut j = i + 2;
            while j < n && chars[j] != '}' && chars[j] != '\n'
                invariant
                    n == s.len(),
                    chars@ == s,
                    i + 2 <= j <= n,
                    forall|m: int| i + 2 <= m < j ==> s[m] != '}' && s[m] != '\n',
                decreases n - j,
            {
                j += 1;
            }
            if j < n && chars[j] == '}' {
                proof {
                    lemma_find_group_close_at(s, i + 2, j as int);
                    assert(group_close_at(s, i as int) == Some(j as int));
                }
                let mut group: Vec<char> = Vec::new();
                let mut m = i + 1;
                while m < j
                    invariant
                        n == s.len(),
                        chars@ == s,
                        i + 1 <= m <= j <= n,
                        group@ == s.subrange(i + 1, m as int),
                    decreases j - m,
                {
                    group.push(chars[m]);
                    m += 1;
                }
                proof {
                    assert(group@ =~= s.subrange(i + 1, j as int));
                }
                let transparent = contains_chars(&group, &upper) || contains_chars(&group, &lower);
                proof {
                    assert(sanitize_from(s, i as int, hidden) == sanitize_from(
                        s,
                        j + 1,
                        group_is_transparent(s.subrange(i + 1, j as int)),
                    ));
                }
                hidden = transparent;
                i = j + 1;
                continue ;
            }
            proof {
                if j < n {
                    lemma_find_group_close_none(s, i + 2, j as int);
                } else {
                    lemma_find_group_close_none(s, i + 2, n as int);
                }
                assert(group_close_at(s, i as int) is None);
            }
        } else {
            proof {
                assert(group_close_at(s, i as int) is None);
            }
        }
        // no group opens at i
        if c == '\n' {
            out.push(' ');
            hidden = false;
            proof {
                assert(out@ + sanitize_from(s, i + 1, false) =~= spec_sanitize(s));
            }
            i += 1;
        } else if hidden {
            i += 1;
        } else if c == '\\' && i + 1 < n && (chars[i + 1] == 'N' || chars[i + 1] == 'n' || chars[i
            + 1] == 'h') {
            out.push(' ');
            proof {
                assert(out@ + sanitize_from(s, i + 2, false) =~= spec_sanitize(s));
            }
            i += 2;
        } else {
            out.push(c);
            proof {
                assert(out@ + sanitize_from(s, i + 1, false) =~= spec_sanitize(s));
            }
            i += 1;
        }
    }
    proof {
        assert(out@ =~= spec_sanitize(s));
    }
    out
}

/// Removes styling noise and line-break markers from raw subtitle text.
///
/// This is a pure function; it must run before tokenization, since the
/// markers it removes would otherwise corrupt token boundaries.
pub fn sanitize(input: &str) -> (r: String)
    ensures
        r@ == spec_sanitize(input@),
{
    let chars = str_to_chars(input);
    let cleaned = sanitize_chars(&chars);
    chars_to_string(&cleaned)
}

/// Position of the first newline in `s` at or after `j`, or the length of
/// `s` when there is none.
pub open spec fn find_newline(s: Seq<char>, j: int) -> int
    decreases s.len() - j,
{
    if j < 0 || j >= s.len() {
        s.len() as int
    } else if s[j] == '\n' {
        j
    } else {
        find_newline(s, j + 1)
    }
}

/// The found newline position lies between the scan start and the length.
pub proof fn lemma_find_newline_range(s: Seq<char>, j: int)
    requires
        0 <= j <= s.len(),
    ensures
        j <= find_newline(s, j) <= s.len(),
        find_newline(s, j) < s.len() ==> s[find_newline(s, j)] == '\n',
    decreases s.len() - j,
{
    if j < s.len() && s[j] != '\n' {
        lemma_find_newline_range(s, j + 1);
    }
}

/// If no newline occurs in `[a, b)` and `b` is a newline or the end, the
/// scan from `a` finds exactly `b`.
pub proof fn lemma_find_newline_at(s: Seq<char>, a: int, b: int)
    requires
        0 <= a <= b <= s.len(),
        b == s.len() || s[b] == '\n',
        forall|m: int| a <= m < b ==> s[m] != '\n',
    ensures
        find_newline(s, a) == b,
    decreases b - a,
{
    if a < b {
        lemma_find_newline_at(s, a + 1, b);
    }
}

/// The prefix that marks a non-dialogue line in the stored subtitle text.
pub open spec fn comment_prefix() -> Seq<char> {
    seq!['C', 'o', 'm', 'm', 'e', 'n', 't', ':', ' ']
}

#[via_fn]
proof fn strip_comments_from_decreases(s: Seq<char>, i: int) {
    if 0 <= i < s.len() {
        lemma_find_newline_range(s, i);
    }
}

/// The comment-stripped remainder of `s` from position `i`: each line is
/// taken up to the next newline, a trailing carriage return is dropped,
/// lines that start with the comment prefix are removed, and every kept
/// line is terminated with a single newline.
pub open spec fn strip_comments_from(s: Seq<char>, i: int) -> Seq<char>
    decreases s.len() - i,
        via strip_comments_from_decreases
{
    if i < 0 || i >= s.len() {
        Seq::empty()
    } else {
        let e = find_newline(s, i);
        let raw = s.subrange(i, e);
        let line = if raw.len() > 0 && raw.last() == '\r' {
            raw.drop_last()
        } else {
            raw
        };
        let rest = if e < s.len() {
            strip_comments_from(s, e + 1)
        } else {
            Seq::empty()
        };
        if starts_with(line, comment_prefix()) {
            rest
        } else {
            line + seq!['\n'] + rest
        }
    }
}

/// What [`strip_comment_lines`] produces for `s`.
pub open spec fn spec_strip_comment_lines(s: Seq<char>) -> Seq<char> {
    strip_comments_from(s, 0)
}

/// Drops every line of stored subtitle text that is marked as a comment,
/// normalizing line endings to a single `\n` on the way.
///
/// Comment lines carry typesetting annotations rather than dialogue, so
/// they are removed before the text is handed to the subtitle parser.
pub fn strip_comment_lines(input: &str) -> (r: String)
    ensures
        r@ == spec_strip_comment_lines(input@),
{
    let chars = str_to_chars(input);
    let ghost s = chars@;
    let n = chars.len();
    let prefix: Vec<char> = vec!['C', 'o', 'm', 'm', 'e', 'n', 't', ':', ' '];
    proof {
        assert(prefix@ =~= comment_prefix());
    }
    let mut out: Vec<char> = Vec::new();
    let mut i: usize = 0;
    proof {
        assert(out@ + strip_comments_from(s, 0) =~= spec_strip_comment_lines(s));
    }
    while i < n
        invariant
            n == s.len(),
            chars@ == s,
            i <= n,
            prefix@ == comment_prefix(),
            out@ + strip_comments_from(s, i as int) == spec_strip_comment_lines(s),
        decreases n - i,
    {
        // find the end of the current line
        let mut e = i;
        while e < n && chars[e] != '\n'
            invariant
                n == s.len(),
                chars@ == s,
                i <= e <= n,
                forall|m: int| i <= m < e ==> s[m] != '\n',
            decreases n - e,
        {
            e += 1;
        }
        proof {
            lemma_find_newline_at(s, i as int, e as int);
        }
        // the line without its trailing carriage return
        let line_end = if e > i && chars[e - 1] == '\r' {
            e - 1
        } else {
            e
        };
        proof {
            let raw = s.subrange(i as int, e as int);
            if raw.len() > 0 && raw.last() == '\r' {
                assert(raw.drop_last() =~= s.subrange(i as int, line_end as int));
            } else {
                assert(raw =~= s.subrange(i as int, line_end as int));
            }
        }
        let is_comment = range_starts_with(&chars, i, line_end, &prefix);
        if !is_comment {
            // copy the line and terminate it
            let ghost out0 = out@;
            proof {
                assert(out@ =~= out0 + s.subrange(i as int, i as int));
            }
            let mut m = i;
            while m < line_end
                invariant
                    n == s.len(),
                    chars@ == s,
                    i <= m <= line_end <= n,
                    out@ == out0 + s.subrange(i as int, m as int),
                decreases line_end - m,
            {
                out.push(chars[m]);
                proof {
                    assert(out@ =~= out0 + s.subrange(i as int, m + 1));
                }
                m += 1;
            }
            out.push('\n');
            proof {
                assert(out@ =~= out0 + s.subrange(i as int, line_end as int) + seq!['\n']);
            }
        }
        if e == n {
            i = n;
            proof {
                assert(out@ + strip_comments_from(s, n as int) =~= spec_strip_comment_lines(s));
            }
        } else {
            proof {
                assert(out@ + strip_comments_from(s, e + 1) =~= spec_strip_comment_lines(s));
            }
            i = e + 1;
        }
    }
    proof {
        assert(out@ =~= spec_strip_comment_lines(s));
    }
    chars_to_string(&out)
}

} // verus!
