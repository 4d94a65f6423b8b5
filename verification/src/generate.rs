//! Generation orchestrator: renders balanced lines from chain walks,
//! enforces a minimum length by appending further independently generated
//! segments, and fills subtitle entries with cached per-token-sequence
//! output.

use vstd::prelude::*;

use crate::balance::{balance_symbols, chars_to_tokens, spec_balance};
use crate::chain::{ctx_after, find_row, init_ctx, start_ctx, walk_done, walk_ok, Chain, ChainView};
use crate::error::Error;
use crate::render::{space_joined, spec_render, write_tokens};
use crate::text::{
    all_space, char_is_space, chars_to_string, contains_chars, contains_seq, copy_range,
    is_space_char, str_to_chars, tokens_eq,
};
use crate::tokenize::{spec_tokenize, tokenize};

verus! {

/// A rendered line with the cosmetic trailing empty-quote artifact (a space
/// followed by two adjacent quotes) removed.
pub open spec fn trim_quote_artifact(s: Seq<char>) -> Seq<char> {
    if s.len() >= 3 && s[s.len() - 3] == ' ' && s[s.len() - 2] == '"' && s[s.len() - 1] == '"' {
        s.subrange(0, s.len() - 3)
    } else {
        s
    }
}

/// The text a single generation renders from the walked tokens: the
/// balancing prefix and suffix are attached, the whole is rendered, and the
/// trailing quote artifact is trimmed.
pub open spec fn spec_line_of(toks: Seq<Seq<char>>) -> Seq<char> {
    let pre = chars_to_tokens(spec_balance(toks).0.reverse());
    let post = chars_to_tokens(spec_balance(toks).1.reverse());
    trim_quote_artifact(spec_render(pre + toks + post))
}

/// The spec-level image of an optional start token.
pub open spec fn start_view(start_token: Option<&str>) -> Option<Seq<char>> {
    match start_token {
        None => None,
        Some(t) => Some(t@),
    }
}

/// A start token was supplied but its context never occurred in training:
/// the one condition under which generation fails.
pub open spec fn missing_start(c: ChainView, start_token: Option<&str>) -> bool {
    match start_token {
        None => false,
        Some(t) => find_row(c.rows, start_ctx(c.order, t@)) < 0,
    }
}

/// `s` is a text that one single generation on `c` can produce for the
/// given start: the rendering of some recorded walk, seeded when a start
/// token is given.
pub open spec fn is_single_output(c: ChainView, start: Option<Seq<char>>, s: Seq<char>) -> bool {
    match start {
        None => exists|toks: Seq<Seq<char>>|
            walk_ok(c.rows, init_ctx(c.order), toks, 0) && (walk_done(
                c.rows,
                ctx_after(init_ctx(c.order), toks, 0),
            ) || toks.len() >= usize::MAX) && s == spec_line_of(toks),
        Some(t) => exists|toks: Seq<Seq<char>>|
            toks.len() >= 1 && toks[0] == t && walk_ok(
                c.rows,
                start_ctx(c.order, t),
                toks.drop_first(),
                0,
            ) && (walk_done(c.rows, ctx_after(start_ctx(c.order, t), toks.drop_first(), 0))
                || toks.drop_first().len() >= usize::MAX) && s == spec_line_of(toks),
    }
}

/// `segs` is a list of independently generated segments: the first honours
/// the start token, the rest are unseeded.
pub open spec fn segs_ok(c: ChainView, start: Option<Seq<char>>, segs: Seq<Seq<char>>) -> bool {
    &&& segs.len() >= 1
    &&& is_single_output(c, start, segs[0])
    &&& forall|k: int| 1 <= k < segs.len() ==> is_single_output(c, None, #[trigger] segs[k])
}

/// `s` is a text [`generate_line`] can return: space-joined independently
/// generated segments, meeting the minimum length when one is set, and a
/// single segment when none is. Appending stops as soon as the minimum is
/// reached: without its last segment the text is still too short.
pub open spec fn line_ok(
    c: ChainView,
    start: Option<Seq<char>>,
    min_length: Option<usize>,
    s: Seq<char>,
) -> bool {
    &&& (min_length matches Some(m) ==> s.len() >= m)
    &&& exists|segs: Seq<Seq<char>>|
        segs_ok(c, start, segs) && s == space_joined(segs, 0) && (min_length is None
            ==> segs.len() == 1) && (min_length is Some && segs.len() > 1
            ==> space_joined(segs.drop_last(), 0).len() < min_length->Some_0)
}

/// The characters still missing to a minimum length, zero once reached.
pub open spec fn remaining_len(m: int, len: int) -> int {
    if len < m {
        m - len
    } else {
        0
    }
}

/// Trims the trailing empty-quote artifact, mirroring
/// [`trim_quote_artifact`].
fn trim_artifact(line: String) -> (r: String)
    ensures
        r@ == trim_quote_artifact(line@),
{
    let chars = str_to_chars(line.as_str());
    let n = chars.len();
    if n >= 3 && chars[n - 3] == ' ' && chars[n - 2] == '"' && chars[n - 1] == '"' {
        let kept = copy_range(&chars, 0, n - 3);
        chars_to_string(&kept)
    } else {
        line
    }
}

/// Generates one line: a chain walk (seeded when a start token is given),
/// balanced, rendered and trimmed. Fails exactly when a start token is
/// given and its context never occurred in training.
fn generate_single(chain: &Chain, start_token: Option<&str>) -> (r: Result<String, Error>)
    requires
        chain.wf(),
    ensures
        r is Err <==> missing_start(chain@, start_token),
        r matches Err(e) ==> e.context@ == "failed to generate chain from start token"@,
        r matches Ok(s) ==> is_single_output(chain@, start_view(start_token), s@),
{
    let generated = match start_token {
        Some(t) => {
            let g = chain.generate_from_token(t);
            if g.len() == 0 {
                return Err(Error::context("failed to generate chain from start token"));
            }
            g
        },
        None => chain.generate(),
    };
    let ghost toks = generated.deep_view();
    let (mut pre, mut post) = balance_symbols(&generated);
    let ghost prev = pre.deep_view();
    let ghost postv = post.deep_view();
    // assemble prefix ++ tokens ++ suffix
    let mut all = pre;
    let mut mid = generated;
    all.append(&mut mid);
    all.append(&mut post);
    proof {
        assert(all.deep_view() =~= prev + toks + postv);
    }
    let rendered = write_tokens(&all);
    let out = trim_artifact(rendered);
    proof {
        assert(out@ == spec_line_of(toks));
        match start_token {
            None => {
                assert(walk_ok(chain@.rows, init_ctx(chain@.order), toks, 0));
                assert(walk_done(chain@.rows, ctx_after(init_ctx(chain@.order), toks, 0))
                    || toks.len() >= usize::MAX);
                assert(is_single_output(chain@, None, out@));
            },
            Some(t) => {
                assert(toks.len() >= 1 && toks[0] == t@);
                assert(walk_ok(chain@.rows, start_ctx(chain@.order, t@), toks.drop_first(), 0));
                assert(walk_done(
                    chain@.rows,
                    ctx_after(start_ctx(chain@.order, t@), toks.drop_first(), 0),
                ) || toks.drop_first().len() >= usize::MAX);
                assert(is_single_output(chain@, Some(t@), out@));
            },
        }
    }
    Ok(out)
}

/// Appending one more segment keeps the space-joined text in step.
proof fn lemma_space_joined_push(segs: Seq<Seq<char>>, t: Seq<char>, i: int)
    requires
        0 <= i < segs.len(),
    ensures
        space_joined(segs.push(t), i) == space_joined(segs, i) + seq![' '] + t,
    decreases segs.len() - i,
{
    if i == segs.len() - 1 {
        assert(segs.push(t)[i] == segs[i]);
        assert(segs.push(t)[i + 1] == t);
        assert(space_joined(segs.push(t), i + 1) == t);
    } else {
        assert(segs.push(t)[i] == segs[i]);
        lemma_space_joined_push(segs, t, i + 1);
        assert(segs[i] + seq![' '] + (space_joined(segs, i + 1) + seq![' '] + t) =~= (segs[i]
            + seq![' '] + space_joined(segs, i + 1)) + seq![' '] + t);
    }
}

/// Generates one line of text, appending further independently generated,
/// balanced and rendered segments (joined by single spaces) until the
/// requested minimum character count is reached. Fails exactly when a start
/// token is given and its context never occurred in training.
pub fn generate_line(chain: &Chain, start_token: Option<&str>, min_length: Option<usize>) -> (r:
    Result<String, Error>)
    requires
        chain.wf(),
    ensures
        r is Err <==> missing_start(chain@, start_token),
        r matches Err(e) ==> e.context@ == "failed to generate chain from start token"@,
        r matches Ok(s) ==> line_ok(chain@, start_view(start_token), min_length, s@),
{
    let first = match generate_single(chain, start_token) {
        Ok(s) => s,
        Err(e) => {
            return Err(e);
        },
    };
    let ghost sv = start_view(start_token);
    let ghost c = chain@;
    match min_length {
        None => {
            proof {
                let segs = seq![first@];
                assert(segs[0] == first@);
                assert(segs_ok(c, sv, segs));
                assert(space_joined(segs, 0) == first@);
                assert(line_ok(c, sv, min_length, first@));
            }
            Ok(first)
        },
        Some(m) => {
            let mut line = first;
            let ghost segs = seq![line@];
            proof {
                assert(segs[0] == line@);
                assert(segs_ok(c, sv, segs));
                assert(space_joined(segs, 0) == line@);
            }
            while line.as_str().unicode_len() < m
                invariant
                    chain.wf(),
                    c == chain@,
                    sv == start_view(start_token),
                    segs_ok(c, sv, segs),
                    line@ == space_joined(segs, 0),
                    segs.len() > 1 ==> space_joined(segs.drop_last(), 0).len() < m,
                decreases remaining_len(m as int, line@.len() as int),
            {
                let next = match generate_single(chain, None) {
                    Ok(s) => s,
                    Err(e) => {
                        proof {
                            assert(false);
                        }
                        return Err(e);
                    },
                };
                let ghost segs0 = segs;
                let ghost line0 = line@;
                line.append(" ");
                line.append(next.as_str());
                proof {
                    segs = segs0.push(next@);
                    lemma_space_joined_push(segs0, next@, 0);
                    reveal_strlit(" ");
                    assert(" "@ =~= seq![' ']);
                    assert(line@ =~= space_joined(segs, 0));
                    assert(segs[0] == segs0[0]);
                    assert(segs_ok(c, sv, segs));
                    // the text before this append was still below the
                    // minimum, so the last segment was needed
                    assert(segs.drop_last() =~= segs0);
                    assert(space_joined(segs.drop_last(), 0).len() == line0.len());
                }
            }
            proof {
                assert(line@.len() >= m);
                assert(line_ok(c, sv, min_length, line@));
            }
            Ok(line)
        },
    }
}

/// Generates a batch of lines, each as [`generate_line`] does. Fails
/// exactly when at least one line is requested with a start token whose
/// context never occurred in training.
pub fn generate_lines(
    chain: &Chain,
    start_token: Option<&str>,
    min_length: Option<usize>,
    count: usize,
) -> (r: Result<Vec<String>, Error>)
    requires
        chain.wf(),
    ensures
        r is Err <==> (missing_start(chain@, start_token) && count > 0),
        r matches Err(e) ==> e.context@ == "failed to generate chain from start token"@,
        r matches Ok(v) ==> v@.len() == count && forall|k: int|
            0 <= k < count ==> line_ok(
                chain@,
                start_view(start_token),
                min_length,
                #[trigger] v.deep_view()[k],
            ),
{
    let mut v: Vec<String> = Vec::new();
    for i in 0..count
        invariant
            chain.wf(),
            v@.len() == i,
            i > 0 ==> !missing_start(chain@, start_token),
            forall|k: int|
                0 <= k < i ==> line_ok(
                    chain@,
                    start_view(start_token),
                    min_length,
                    #[trigger] v.deep_view()[k],
                ),
        decreases count - i,
    {
        match generate_line(chain, start_token, min_length) {
            Ok(s) => {
                let ghost before = v.deep_view();
                v.push(s);
                proof {
                    assert(v.deep_view() =~= before.push(v.deep_view()[i as int]));
                }
            },
            Err(e) => {
                return Err(e);
            },
        }
    }
    Ok(v)
}


/// The directive that tags an entry as positioned typesetting rather than
/// dialogue.
pub open spec fn pos_marker() -> Seq<char> {
    seq!['\\', 'p', 'o', 's']
}

/// An entry whose text is blank or carries a positioning directive is not
/// dialogue and is blanked instead of replaced.
pub open spec fn skip_line(l: Seq<char>) -> bool {
    all_space(l) || contains_seq(l, pos_marker())
}

/// Non-dialogue test on an entry's text, mirroring [`skip_line`].
fn line_is_skippable(l: &String) -> (r: bool)
    ensures
        r == skip_line(l@),
{
    let chars = str_to_chars(l.as_str());
    let n = chars.len();
    let mut blank = true;
    for i in 0..n
        invariant
            n == chars@.len(),
            chars@ == l@,
            blank == all_space(l@.subrange(0, i as int)),
        decreases n - i,
    {
        proof {
            assert(l@.subrange(0, i + 1).drop_last() == l@.subrange(0, i as int));
        }
        if !char_is_space(chars[i]) {
            proof {
                assert(l@.subrange(0, i + 1)[i as int] == l@[i as int]);
                assert(!all_space(l@.subrange(0, i + 1)));
            }
            blank = false;
        } else {
            proof {
                if all_space(l@.subrange(0, i as int)) {
                    assert forall|m: int| 0 <= m < i + 1 implies is_space_char(
                        #[trigger] l@.subrange(0, i + 1)[m],
                    ) by {
                        if m < i {
                            assert(is_space_char(l@.subrange(0, i as int)[m]));
                        }
                    }
                }
            }
        }
    }
    proof {
        assert(l@.subrange(0, n as int) =~= l@);
    }
    if blank {
        return true;
    }
    let marker: Vec<char> = vec!['\\', 'p', 'o', 's'];
    proof {
        assert(marker@ =~= pos_marker());
    }
    contains_chars(&chars, &marker)
}

/// The cache witnesses of already-processed entries survive appending to
/// the cache or to the output.
proof fn lemma_cache_witness_preserved(
    olddv: Seq<Option<Seq<char>>>,
    cache0: Seq<(Seq<Seq<char>>, Seq<char>)>,
    cache1: Seq<(Seq<Seq<char>>, Seq<char>)>,
    out0: Seq<Option<Seq<char>>>,
    out1: Seq<Option<Seq<char>>>,
    i: int,
)
    requires
        0 <= i <= olddv.len(),
        cache1.len() >= cache0.len(),
        forall|e: int| 0 <= e < cache0.len() ==> #[trigger] cache1[e] == cache0[e],
        forall|m: int| 0 <= m < i ==> #[trigger] out1[m] == out0[m],
        forall|m: int|
            0 <= m < i && (#[trigger] olddv[m]) is Some && !skip_line(olddv[m]->Some_0)
                ==> exists|e: int|
                0 <= e < cache0.len() && (#[trigger] cache0[e]).0 == spec_tokenize(
                    olddv[m]->Some_0,
                ) && out0[m] == Some(cache0[e].1),
    ensures
        forall|m: int|
            0 <= m < i && (#[trigger] olddv[m]) is Some && !skip_line(olddv[m]->Some_0)
                ==> exists|e: int|
                0 <= e < cache1.len() && (#[trigger] cache1[e]).0 == spec_tokenize(
                    olddv[m]->Some_0,
                ) && out1[m] == Some(cache1[e].1),
{
    assert forall|m: int|
        0 <= m < i && (#[trigger] olddv[m]) is Some && !skip_line(olddv[m]->Some_0)
            implies exists|e: int|
            0 <= e < cache1.len() && (#[trigger] cache1[e]).0 == spec_tokenize(olddv[m]->Some_0)
                && out1[m] == Some(cache1[e].1) by {
        let e0 = choose|e: int|
            0 <= e < cache0.len() && (#[trigger] cache0[e]).0 == spec_tokenize(olddv[m]->Some_0)
                && out0[m] == Some(cache0[e].1);
        assert(cache1[e0] == cache0[e0]);
        assert(out1[m] == out0[m]);
        assert(0 <= e0 < cache1.len() && cache1[e0].0 == spec_tokenize(olddv[m]->Some_0)
            && out1[m] == Some(cache1[e0].1));
    }
}

/// Fills the dialogue entries of a subtitle file with generated text, in
/// place. A blank entry or one carrying a positioning directive becomes
/// empty; every other entry is replaced by a generated line, and entries
/// whose existing text tokenizes identically receive the same replacement.
/// Fails, leaving the entries unchanged, exactly when a start token was
/// given whose context never occurred in training and at least one entry
/// needs generation.
pub fn generate_subtitle_file(
    chain: &Chain,
    lines: &mut Vec<Option<String>>,
    start_token: Option<&str>,
    min_length: Option<usize>,
) -> (r: Result<(), Error>)
    requires
        chain.wf(),
    ensures
        r is Err ==> *final(lines) == *old(lines),
        r is Err <==> (missing_start(chain@, start_token) && exists|i: int|
            0 <= i < old(lines)@.len() && (#[trigger] old(lines).deep_view()[i]) is Some
                && !skip_line(old(lines).deep_view()[i]->Some_0)),
        r matches Err(e) ==> e.context@ == "failed to generate chain from start token"@,
        r is Ok ==> final(lines)@.len() == old(lines)@.len(),
        r is Ok ==> forall|i: int|
            0 <= i < old(lines)@.len() && (#[trigger] old(lines).deep_view()[i]) is None ==> final(lines).deep_view()[i] is None,
        r is Ok ==> forall|i: int|
            0 <= i < old(lines)@.len() && (#[trigger] old(lines).deep_view()[i]) is Some
                && skip_line(old(lines).deep_view()[i]->Some_0) ==> final(lines).deep_view()[i]
                == Some(Seq::<char>::empty()),
        r is Ok ==> forall|i: int|
            0 <= i < old(lines)@.len() && (#[trigger] old(lines).deep_view()[i]) is Some
                && !skip_line(old(lines).deep_view()[i]->Some_0) ==> (final(lines).deep_view()[i] is Some && line_ok(
                chain@,
                start_view(start_token),
                min_length,
                final(lines).deep_view()[i]->Some_0,
            )),
        r is Ok ==> forall|i: int, j: int|
            0 <= i < old(lines)@.len() && 0 <= j < old(lines)@.len() && (#[trigger] old(lines).deep_view()[i]) is Some && (#[trigger] old(lines).deep_view()[j]) is Some
                && !skip_line(old(lines).deep_view()[i]->Some_0) && !skip_line(
                old(lines).deep_view()[j]->Some_0,
            ) && spec_tokenize(old(lines).deep_view()[i]->Some_0) == spec_tokenize(
                old(lines).deep_view()[j]->Some_0,
            ) ==> final(lines).deep_view()[i] == final(lines).deep_view()[j],
{
    let ghost olddv = lines.deep_view();
    let ghost c = chain@;
    let ghost sv = start_view(start_token);
    let n = lines.len();
    let mut out: Vec<Option<String>> = Vec::new();
    let mut cache: Vec<(Vec<String>, String)> = Vec::new();
    let mut i: usize = 0;
    while i < n
        invariant
            chain.wf(),
            c == chain@,
            sv == start_view(start_token),
            n == lines@.len(),
            olddv == lines.deep_view(),
            i <= n,
            out@.len() == i,
            forall|e1: int, e2: int|
                0 <= e1 < e2 < cache@.len() ==> (#[trigger] cache.deep_view()[e1]).0 != (
                #[trigger] cache.deep_view()[e2]).0,
            forall|e: int|
                0 <= e < cache@.len() ==> line_ok(
                    c,
                    sv,
                    min_length,
                    (#[trigger] cache.deep_view()[e]).1,
                ),
            missing_start(c, start_token) ==> cache@.len() == 0,
            forall|m: int|
                0 <= m < i && (#[trigger] olddv[m]) is None ==> out.deep_view()[m] is None,
            forall|m: int|
                0 <= m < i && (#[trigger] olddv[m]) is Some && skip_line(olddv[m]->Some_0)
                    ==> out.deep_view()[m] == Some(Seq::<char>::empty()),
            forall|m: int|
                0 <= m < i && (#[trigger] olddv[m]) is Some && !skip_line(olddv[m]->Some_0)
                    ==> exists|e: int|
                    0 <= e < cache@.len() && (#[trigger] cache.deep_view()[e]).0 == spec_tokenize(
                        olddv[m]->Some_0,
                    ) && out.deep_view()[m] == Some(cache.deep_view()[e].1),
        decreases n - i,
    {
        let ghost out0 = out.deep_view();
        let ghost cacheg0 = cache.deep_view();
        let entry_is_none = lines[i].is_none();
        if entry_is_none {
            out.push(None);
            proof {
                assert(out.deep_view() =~= out0.push(None));
                lemma_cache_witness_preserved(
                    olddv,
                    cacheg0,
                    cache.deep_view(),
                    out0,
                    out.deep_view(),
                    i as int,
                );
            }
        } else {
            let l_chars: String = match &lines[i] {
                Some(l) => l.clone(),
                None => {
                    proof {
                        assert(false);
                    }
                    String::new()
                },
            };
            let ghost lv = l_chars@;
            proof {
                assert(olddv[i as int] == Some(lv));
            }
            if line_is_skippable(&l_chars) {
                out.push(Some(String::new()));
                proof {
                    assert(out.deep_view() =~= out0.push(Some(Seq::<char>::empty())));
                    lemma_cache_witness_preserved(
                        olddv,
                        cacheg0,
                        cache.deep_view(),
                        out0,
                        out.deep_view(),
                        i as int,
                    );
                }
            } else {
                let toks = tokenize(l_chars.as_str());
                // look for an entry with the same token sequence
                let mut found: Option<usize> = None;
                let cn = cache.len();
                let mut e: usize = 0;
                while e < cn && found.is_none()
                    invariant
                        cn == cache@.len(),
                        e <= cn,
                        toks.deep_view() == spec_tokenize(lv),
                        found matches Some(h) ==> h < cn && cache.deep_view()[h as int].0
                            == toks.deep_view(),
                        found is None ==> forall|e0: int|
                            0 <= e0 < e ==> (#[trigger] cache.deep_view()[e0]).0
                                != toks.deep_view(),
                    decreases cn - e + (if found is None { 1int } else { 0int }),
                {
                    if tokens_eq(&cache[e].0, &toks) {
                        found = Some(e);
                    } else {
                        e += 1;
                    }
                }
                proof {
                    if found is None {
                        assert(e == cn);
                    }
                }
                match found {
                    Some(hit) => {
                        proof {
                            assert(cache.deep_view()[hit as int].0 == toks.deep_view());
                        }
                        let text = cache[hit].1.clone();
                        out.push(Some(text));
                        proof {
                            assert(out.deep_view() =~= out0.push(
                                Some(cache.deep_view()[hit as int].1),
                            ));
                            lemma_cache_witness_preserved(
                                olddv,
                                cacheg0,
                                cache.deep_view(),
                                out0,
                                out.deep_view(),
                                i as int,
                            );
                            assert(out.deep_view()[i as int] == Some(
                                cache.deep_view()[hit as int].1,
                            ));
                        }
                    },
                    None => {
                        match generate_line(chain, start_token, min_length) {
                            Err(err) => {
                                proof {
                                    assert(missing_start(c, start_token));
                                    assert(olddv[i as int] is Some && !skip_line(
                                        olddv[i as int]->Some_0,
                                    ));
                                }
                                return Err(err);
                            },
                            Ok(text) => {
                                let ghost cache0 = cache.deep_view();
                                let text2 = text.clone();
                                cache.push((toks, text));
                                out.push(Some(text2));
                                proof {
                                    assert(cache.deep_view() =~= cache0.push(
                                        (spec_tokenize(lv), text2@),
                                    ));
                                    assert(out.deep_view() =~= out0.push(Some(text2@)));
                                    assert(cache.deep_view()[cache0.len() as int].0
                                        == spec_tokenize(lv));
                                    lemma_cache_witness_preserved(
                                        olddv,
                                        cacheg0,
                                        cache.deep_view(),
                                        out0,
                                        out.deep_view(),
                                        i as int,
                                    );
                                    assert(out.deep_view()[i as int] == Some(
                                        cache.deep_view()[cache0.len() as int].1,
                                    ));
                                }
                            },
                        }
                    },
                }
            }
        }
        i += 1;
    }
    proof {
        // a failure would have occurred before anything was generated
        if missing_start(c, start_token) {
            assert forall|m: int|
                0 <= m < n && (#[trigger] olddv[m]) is Some implies skip_line(
                olddv[m]->Some_0,
            ) by {
                if !skip_line(olddv[m]->Some_0) {
                    let e = choose|e: int|
                        0 <= e < cache@.len() && (#[trigger] cache.deep_view()[e]).0
                            == spec_tokenize(olddv[m]->Some_0) && out.deep_view()[m] == Some(
                            cache.deep_view()[e].1,
                        );
                    assert(false);
                }
            }
        }
    }
    *lines = out;
    proof {
        // entries with equal token sequences share one cache entry
        assert forall|i2: int, j2: int|
            0 <= i2 < olddv.len() && 0 <= j2 < olddv.len() && (#[trigger] olddv[i2]) is Some && (
            #[trigger] olddv[j2]) is Some && !skip_line(olddv[i2]->Some_0) && !skip_line(
                olddv[j2]->Some_0,
            ) && spec_tokenize(olddv[i2]->Some_0) == spec_tokenize(
                olddv[j2]->Some_0,
            ) implies lines.deep_view()[i2] == lines.deep_view()[j2] by {
            let li = olddv[i2]->Some_0;
            let lj = olddv[j2]->Some_0;
            let ei = choose|e: int|
                0 <= e < cache@.len() && (#[trigger] cache.deep_view()[e]).0 == spec_tokenize(li)
                    && lines.deep_view()[i2] == Some(cache.deep_view()[e].1);
            let ej = choose|e: int|
                0 <= e < cache@.len() && (#[trigger] cache.deep_view()[e]).0 == spec_tokenize(lj)
                    && lines.deep_view()[j2] == Some(cache.deep_view()[e].1);
            if ei != ej {
                assert(cache.deep_view()[ei].0 != cache.deep_view()[ej].0);
                assert(false);
            }
        }
    }
    Ok(())
}

} // verus!
