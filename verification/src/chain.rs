//! Order-k Markov chain over tokens: training accumulates transition
//! frequencies from context windows to successor tokens; generation walks
//! the table drawing successors with probability proportional to their
//! recorded counts.
//!
//! A context is the window of the last `order` tokens, padded at the front
//! with the start marker; the end marker records where fed sequences ended.
//! Both markers are represented by `None`, a real token by `Some`.

use vstd::prelude::*;

use crate::error::Error;

verus! {

/// One table row: a context and the frequency of each successor seen after
/// it. A `None` successor is the end marker.
pub struct Row {
    pub context: Vec<Option<String>>,
    pub counts: Vec<(Option<String>, u64)>,
}

/// Mathematical image of a [`Row`].
#[verifier::ext_equal]
pub struct RowView {
    pub context: Seq<Option<Seq<char>>>,
    pub counts: Seq<(Option<Seq<char>>, u64)>,
}

/// Mathematical image of a [`Chain`].
#[verifier::ext_equal]
pub struct ChainView {
    pub order: nat,
    pub rows: Seq<RowView>,
}

/// The image of one concrete row.
pub open spec fn row_view(r: Row) -> RowView {
    RowView { context: r.context.deep_view(), counts: r.counts.deep_view() }
}

/// The image of a concrete table.
pub open spec fn rows_view(t: Seq<Row>) -> Seq<RowView> {
    Seq::new(t.len(), |i: int| row_view(t[i]))
}

/// An order-k Markov chain.
pub struct Chain {
    order: usize,
    table: Vec<Row>,
}

impl View for Chain {
    type V = ChainView;

    closed spec fn view(&self) -> ChainView {
        ChainView { order: self.order as nat, rows: rows_view(self.table@) }
    }
}

/// Index of the first row at or after `i` whose context is `ctx`, or `-1`.
pub open spec fn find_row_from(rows: Seq<RowView>, ctx: Seq<Option<Seq<char>>>, i: int) -> int
    decreases rows.len() - i,
{
    if i < 0 || i >= rows.len() {
        -1
    } else if rows[i].context == ctx {
        i
    } else {
        find_row_from(rows, ctx, i + 1)
    }
}

/// Index of the first row whose context is `ctx`, or `-1`.
pub open spec fn find_row(rows: Seq<RowView>, ctx: Seq<Option<Seq<char>>>) -> int {
    find_row_from(rows, ctx, 0)
}

/// What the row scan returns: a valid first match, or `-1` when no row at
/// or after `i` matches.
pub proof fn lemma_find_row_from(rows: Seq<RowView>, ctx: Seq<Option<Seq<char>>>, i: int)
    requires
        0 <= i,
    ensures
        find_row_from(rows, ctx, i) < 0 ==> forall|m: int|
            i <= m < rows.len() ==> (#[trigger] rows[m]).context != ctx,
        find_row_from(rows, ctx, i) >= 0 ==> i <= find_row_from(rows, ctx, i) < rows.len()
            && rows[find_row_from(rows, ctx, i)].context == ctx && forall|m: int|
            i <= m < find_row_from(rows, ctx, i) ==> (#[trigger] rows[m]).context != ctx,
    decreases rows.len() - i,
{
    if i < rows.len() && rows[i].context != ctx {
        lemma_find_row_from(rows, ctx, i + 1);
    }
}

/// Index of the first entry at or after `i` whose token is `tok`, or `-1`.
pub open spec fn find_count_from(
    counts: Seq<(Option<Seq<char>>, u64)>,
    tok: Option<Seq<char>>,
    i: int,
) -> int
    decreases counts.len() - i,
{
    if i < 0 || i >= counts.len() {
        -1
    } else if counts[i].0 == tok {
        i
    } else {
        find_count_from(counts, tok, i + 1)
    }
}

/// Index of the first entry whose token is `tok`, or `-1`.
pub open spec fn find_count(counts: Seq<(Option<Seq<char>>, u64)>, tok: Option<Seq<char>>) -> int {
    find_count_from(counts, tok, 0)
}

/// What the entry scan returns: a valid first match, or `-1` when no entry
/// at or after `i` matches.
pub proof fn lemma_find_count_from(
    counts: Seq<(Option<Seq<char>>, u64)>,
    tok: Option<Seq<char>>,
    i: int,
)
    requires
        0 <= i,
    ensures
        find_count_from(counts, tok, i) < 0 ==> forall|m: int|
            i <= m < counts.len() ==> (#[trigger] counts[m]).0 != tok,
        find_count_from(counts, tok, i) >= 0 ==> i <= find_count_from(counts, tok, i)
            < counts.len() && counts[find_count_from(counts, tok, i)].0 == tok && forall|m: int|
            i <= m < find_count_from(counts, tok, i) ==> (#[trigger] counts[m]).0 != tok,
    decreases counts.len() - i,
{
    if i < counts.len() && counts[i].0 != tok {
        lemma_find_count_from(counts, tok, i + 1);
    }
}

/// A count incremented by one, saturating at the largest representable
/// value.
pub open spec fn sat_inc(c: u64) -> u64 {
    if c < u64::MAX {
        (c + 1) as u64
    } else {
        c
    }
}

/// A row after recording one more observation of `tok`: the matching
/// entry's count grows by one (saturating), or a fresh entry with count one
/// is appended.
pub open spec fn row_bump(row: RowView, tok: Option<Seq<char>>) -> RowView {
    let j = find_count(row.counts, tok);
    if j >= 0 {
        RowView {
            context: row.context,
            counts: row.counts.update(j, (tok, sat_inc(row.counts[j].1))),
        }
    } else {
        RowView { context: row.context, counts: row.counts.push((tok, 1u64)) }
    }
}

/// The table after recording that `tok` followed `ctx` once: the matching
/// row is bumped, or a fresh row is appended.
pub open spec fn bump(
    rows: Seq<RowView>,
    ctx: Seq<Option<Seq<char>>>,
    tok: Option<Seq<char>>,
) -> Seq<RowView> {
    let i = find_row(rows, ctx);
    if i >= 0 {
        rows.update(i, row_bump(rows[i], tok))
    } else {
        rows.push(RowView { context: ctx, counts: seq![(tok, 1u64)] })
    }
}

/// The all-start-marker context generation begins from.
pub open spec fn init_ctx(order: nat) -> Seq<Option<Seq<char>>> {
    Seq::new(order, |i: int| None)
}

/// The context window advanced by one token.
pub open spec fn roll(ctx: Seq<Option<Seq<char>>>, tok: Option<Seq<char>>) -> Seq<
    Option<Seq<char>>,
> {
    ctx.drop_first().push(tok)
}

/// The table after feeding the suffix of `toks` from `i` on, starting in
/// context `ctx`: each token is recorded as the successor of the rolling
/// window, and the end marker closes the sequence.
pub open spec fn feed_from(
    rows: Seq<RowView>,
    ctx: Seq<Option<Seq<char>>>,
    toks: Seq<Seq<char>>,
    i: int,
) -> Seq<RowView>
    decreases toks.len() - i,
{
    if i < 0 || i >= toks.len() {
        bump(rows, ctx, None)
    } else {
        feed_from(bump(rows, ctx, Some(toks[i])), roll(ctx, Some(toks[i])), toks, i + 1)
    }
}

/// The table after feeding one token sequence. Feeding an empty sequence
/// changes nothing.
pub open spec fn spec_feed(rows: Seq<RowView>, order: nat, toks: Seq<Seq<char>>) -> Seq<RowView> {
    if toks.len() == 0 {
        rows
    } else {
        feed_from(rows, init_ctx(order), toks, 0)
    }
}

/// Well-formed successor entries: at least one entry, every count at least
/// one, no token twice.
pub open spec fn wf_counts(counts: Seq<(Option<Seq<char>>, u64)>) -> bool {
    &&& counts.len() >= 1
    &&& forall|a: int| 0 <= a < counts.len() ==> (#[trigger] counts[a]).1 >= 1
    &&& forall|a: int, b: int|
        0 <= a < b < counts.len() ==> (#[trigger] counts[a]).0 != (#[trigger] counts[b]).0
}

/// Well-formed table for a given order: every context has the window
/// length, no context twice, every row's entries well formed.
pub open spec fn wf_rows(rows: Seq<RowView>, order: nat) -> bool {
    &&& forall|i: int| 0 <= i < rows.len() ==> (#[trigger] rows[i]).context.len() == order
    &&& forall|i: int, j: int|
        0 <= i < j < rows.len() ==> (#[trigger] rows[i]).context != (#[trigger] rows[j]).context
    &&& forall|i: int| 0 <= i < rows.len() ==> wf_counts((#[trigger] rows[i]).counts)
}

/// Well-formed chain: a positive order and a well-formed table.
pub open spec fn chain_wf(c: ChainView) -> bool {
    c.order >= 1 && wf_rows(c.rows, c.order)
}

/// Bumping preserves well-formedness when the context has the window
/// length.
pub proof fn lemma_bump_wf(rows: Seq<RowView>, ctx: Seq<Option<Seq<char>>>, tok: Option<Seq<char>>, order: nat)
    requires
        wf_rows(rows, order),
        ctx.len() == order,
    ensures
        wf_rows(bump(rows, ctx, tok), order),
{
    lemma_find_row_from(rows, ctx, 0);
    let i = find_row(rows, ctx);
    if i >= 0 {
        let row = rows[i];
        lemma_find_count_from(row.counts, tok, 0);
        let j = find_count(row.counts, tok);
        let row2 = row_bump(row, tok);
        assert(row2.context == row.context);
        if j >= 0 {
            assert(wf_counts(row2.counts)) by {
                assert(forall|a: int|
                    0 <= a < row2.counts.len() ==> (#[trigger] row2.counts[a]).0 == row.counts[a].0);
            }
        } else {
            assert(wf_counts(row2.counts)) by {
                assert(forall|m: int|
                    0 <= m < row.counts.len() ==> (#[trigger] row.counts[m]).0 != tok);
            }
        }
        let rows2 = rows.update(i, row2);
        assert(forall|m: int|
            0 <= m < rows2.len() ==> (#[trigger] rows2[m]).context == rows[m].context);
    } else {
        assert(forall|m: int| 0 <= m < rows.len() ==> (#[trigger] rows[m]).context != ctx);
    }
}

/// Option equality over token views.
pub fn opt_str_eq(a: &Option<String>, b: &Option<String>) -> (r: bool)
    ensures
        r == (a.deep_view() == b.deep_view()),
{
    match (a, b) {
        (None, None) => true,
        (Some(x), Some(y)) => x.eq(y),
        _ => false,
    }
}

/// Context equality over token views.
pub fn ctx_eq(a: &Vec<Option<String>>, b: &Vec<Option<String>>) -> (r: bool)
    ensures
        r == (a.deep_view() == b.deep_view()),
{
    if a.len() != b.len() {
        proof {
            assert(a.deep_view().len() == a@.len());
            assert(b.deep_view().len() == b@.len());
        }
        return false;
    }
    let n = a.len();
    for i in 0..n
        invariant
            n == a@.len() == b@.len(),
            forall|m: int| 0 <= m < i ==> a.deep_view()[m] == b.deep_view()[m],
        decreases n - i,
    {
        if !opt_str_eq(&a[i], &b[i]) {
            proof {
                assert(a.deep_view()[i as int] != b.deep_view()[i as int]);
            }
            return false;
        }
    }
    proof {
        assert(a.deep_view() =~= b.deep_view());
    }
    true
}

/// A copy of an optional token with the same view.
pub fn clone_opt(a: &Option<String>) -> (r: Option<String>)
    ensures
        r.deep_view() == a.deep_view(),
{
    match a {
        None => None,
        Some(s) => Some(s.clone()),
    }
}

/// A copy of a context with the same view.
pub fn clone_ctx(a: &Vec<Option<String>>) -> (r: Vec<Option<String>>)
    ensures
        r.deep_view() == a.deep_view(),
{
    let n = a.len();
    let mut r: Vec<Option<String>> = Vec::new();
    for i in 0..n
        invariant
            n == a@.len(),
            r@.len() == i,
            forall|m: int| 0 <= m < i ==> r.deep_view()[m] == a.deep_view()[m],
        decreases n - i,
    {
        r.push(clone_opt(&a[i]));
    }
    proof {
        assert(r.deep_view() =~= a.deep_view());
    }
    r
}

/// Index of the first table row matching `ctx`, mirroring [`find_row`].
fn find_row_exec(table: &Vec<Row>, ctx: &Vec<Option<String>>) -> (r: Option<usize>)
    ensures
        r matches Some(i) ==> i < table@.len() && find_row(rows_view(table@), ctx.deep_view())
            == i && rows_view(table@)[i as int].context == ctx.deep_view(),
        r is None ==> find_row(rows_view(table@), ctx.deep_view()) < 0,
{
    let ghost rows = rows_view(table@);
    let ghost cv = ctx.deep_view();
    let n = table.len();
    let mut i: usize = 0;
    while i < n
        invariant
            n == table@.len(),
            rows == rows_view(table@),
            cv == ctx.deep_view(),
            i <= n,
            find_row_from(rows, cv, 0) == find_row_from(rows, cv, i as int),
            forall|m: int| 0 <= m < i ==> (#[trigger] rows[m]).context != cv,
        decreases n - i,
    {
        if ctx_eq(&table[i].context, ctx) {
            proof {
                assert(rows[i as int].context == cv);
            }
            return Some(i);
        }
        proof {
            assert(rows[i as int].context != cv);
        }
        i += 1;
    }
    None
}

/// Index of the first entry matching `tok`, mirroring [`find_count`].
fn find_count_exec(counts: &Vec<(Option<String>, u64)>, tok: &Option<String>) -> (r: Option<usize>)
    ensures
        r matches Some(j) ==> j < counts@.len() && find_count(counts.deep_view(), tok.deep_view())
            == j,
        r is None ==> find_count(counts.deep_view(), tok.deep_view()) < 0,
{
    let ghost cs = counts.deep_view();
    let ghost tv = tok.deep_view();
    let n = counts.len();
    let mut j: usize = 0;
    while j < n
        invariant
            n == counts@.len(),
            cs == counts.deep_view(),
            tv == tok.deep_view(),
            j <= n,
            find_count_from(cs, tv, 0) == find_count_from(cs, tv, j as int),
            forall|m: int| 0 <= m < j ==> (#[trigger] cs[m]).0 != tv,
        decreases n - j,
    {
        if opt_str_eq(&counts[j].0, tok) {
            proof {
                assert(cs[j as int].0 == tv);
            }
            return Some(j);
        }
        proof {
            assert(cs[j as int].0 != tv);
        }
        j += 1;
    }
    None
}

/// Records one observation of `tok` after `ctx`, mirroring [`bump`].
fn bump_exec(table: &mut Vec<Row>, ctx: &Vec<Option<String>>, tok: &Option<String>)
    ensures
        rows_view(final(table)@) == bump(rows_view(old(table)@), ctx.deep_view(), tok.deep_view()),
{
    let ghost rows0 = rows_view(table@);
    let ghost cv = ctx.deep_view();
    let ghost tv = tok.deep_view();
    match find_row_exec(table, ctx) {
        Some(i) => {
            // rebuild the matched row with the entry bumped or appended
            let m = table[i].counts.len();
            let mut counts: Vec<(Option<String>, u64)> = Vec::new();
            let found = find_count_exec(&table[i].counts, tok);
            let ghost old_counts = table@[i as int].counts.deep_view();
            let mut j: usize = 0;
            while j < m
                invariant
                    m == table@[i as int].counts@.len(),
                    i < table@.len(),
                    old_counts == table@[i as int].counts.deep_view(),
                    j <= m,
                    counts@.len() == j,
                    forall|a: int| 0 <= a < j ==> counts.deep_view()[a] == old_counts[a],
                decreases m - j,
            {
                let entry_tok = clone_opt(&table[i].counts[j].0);
                let entry_cnt = table[i].counts[j].1;
                counts.push((entry_tok, entry_cnt));
                j += 1;
            }
            proof {
                assert(counts.deep_view() =~= old_counts);
            }
            match found {
                Some(k) => {
                    let c = counts[k].1;
                    let c2 = if c < u64::MAX {
                        c + 1
                    } else {
                        c
                    };
                    let t2 = clone_opt(tok);
                    counts.set(k, (t2, c2));
                    proof {
                        assert(counts.deep_view() =~= old_counts.update(
                            k as int,
                            (tv, sat_inc(old_counts[k as int].1)),
                        ));
                    }
                },
                None => {
                    counts.push((clone_opt(tok), 1u64));
                    proof {
                        assert(counts.deep_view() =~= old_counts.push((tv, 1u64)));
                    }
                },
            }
            let context = clone_ctx(&table[i].context);
            let new_row = Row { context, counts };
            proof {
                assert(row_view(new_row) =~= row_bump(rows0[i as int], tv));
            }
            table.set(i, new_row);
            proof {
                assert(rows_view(table@) =~= rows0.update(
                    i as int,
                    row_bump(rows0[i as int], tv),
                ));
            }
        },
        None => {
            let mut counts: Vec<(Option<String>, u64)> = Vec::new();
            counts.push((clone_opt(tok), 1u64));
            let new_row = Row { context: clone_ctx(ctx), counts };
            proof {
                assert(row_view(new_row) =~= (RowView { context: cv, counts: seq![(tv, 1u64)] }));
            }
            table.push(new_row);
            proof {
                assert(rows_view(table@) =~= rows0.push(
                    RowView { context: cv, counts: seq![(tv, 1u64)] },
                ));
            }
        },
    }
}

impl Chain {
    /// The chain is well formed; constructors establish this and every
    /// method preserves it.
    pub open spec fn wf(&self) -> bool {
        chain_wf(self@)
    }

    /// The model order: how many preceding tokens form a context.
    pub fn order(&self) -> (r: usize)
        ensures
            r == self@.order,
    {
        self.order
    }

    /// Creates an empty chain of the given order.
    pub fn of_order(order: usize) -> (r: Chain)
        requires
            order >= 1,
        ensures
            r.wf(),
            r@.order == order,
            r@.rows.len() == 0,
    {
        let c = Chain { order, table: Vec::new() };
        proof {
            assert(rows_view(c.table@) =~= Seq::<RowView>::empty());
        }
        c
    }

    /// Feeds one token sequence into the model: for every position, the
    /// window of the preceding `order` tokens (start-padded) records the
    /// token as a successor, and the end marker closes the sequence.
    /// Feeding an empty sequence is a no-op.
    pub fn feed(&mut self, tokens: &Vec<String>)
        requires
            old(self).wf(),
        ensures
            final(self).wf(),
            final(self)@.order == old(self)@.order,
            final(self)@.rows == spec_feed(
                old(self)@.rows,
                old(self)@.order,
                tokens.deep_view(),
            ),
    {
        let ghost toks = tokens.deep_view();
        let ghost order = self@.order;
        let ghost rows0 = self@.rows;
        let n = tokens.len();
        if n == 0 {
            return ;
        }
        // start in the all-start-marker window
        let mut ctx: Vec<Option<String>> = Vec::new();
        let k = self.order;
        for w in 0..k
            invariant
                ctx@.len() == w,
                forall|m: int| 0 <= m < w ==> ctx.deep_view()[m] is None,
            decreases k - w,
        {
            let ghost c0 = ctx.deep_view();
            ctx.push(None);
            proof {
                assert(ctx.deep_view() =~= c0.push(None));
            }
        }
        proof {
            assert(ctx.deep_view() =~= init_ctx(order));
        }
        let mut i: usize = 0;
        while i < n
            invariant
                n == tokens@.len(),
                n > 0,
                toks == tokens.deep_view(),
                self.order == order,
                i <= n,
                ctx.deep_view().len() == order,
                wf_rows(rows_view(self.table@), order),
                order >= 1,
                feed_from(rows_view(self.table@), ctx.deep_view(), toks, i as int) == feed_from(
                    rows0,
                    init_ctx(order),
                    toks,
                    0,
                ),
            decreases n - i,
        {
            let tok: Option<String> = Some(tokens[i].clone());
            proof {
                assert(tok.deep_view() == Some(toks[i as int]));
                lemma_bump_wf(rows_view(self.table@), ctx.deep_view(), tok.deep_view(), order);
            }
            bump_exec(&mut self.table, &ctx, &tok);
            // advance the window
            let ghost ctx0 = ctx.deep_view();
            ctx.remove(0);
            ctx.push(tok);
            proof {
                assert(ctx.deep_view() =~= roll(ctx0, Some(toks[i as int])));
            }
            i += 1;
        }
        // close the sequence with the end marker
        proof {
            lemma_bump_wf(rows_view(self.table@), ctx.deep_view(), None, order);
        }
        let end: Option<String> = None;
        bump_exec(&mut self.table, &ctx, &end);
    }
}


/// Sum of the counts of the entries from `i` on.
pub open spec fn total_from(counts: Seq<(Option<Seq<char>>, u64)>, i: int) -> int
    decreases counts.len() - i,
{
    if i < 0 || i >= counts.len() {
        0
    } else {
        counts[i].1 + total_from(counts, i + 1)
    }
}

/// Sum of all counts of a row's entries.
pub open spec fn counts_total(counts: Seq<(Option<Seq<char>>, u64)>) -> int {
    total_from(counts, 0)
}

/// The partial totals are bounded: nonnegative, at most one maximal count
/// per entry, and at least one per entry when the entries are well formed.
pub proof fn lemma_total_from_bounds(counts: Seq<(Option<Seq<char>>, u64)>, i: int)
    requires
        0 <= i <= counts.len(),
    ensures
        0 <= total_from(counts, i) <= (counts.len() - i) * (u64::MAX as int),
        (forall|a: int| 0 <= a < counts.len() ==> (#[trigger] counts[a]).1 >= 1)
            ==> total_from(counts, i) >= counts.len() - i,
    decreases counts.len() - i,
{
    if i < counts.len() {
        lemma_total_from_bounds(counts, i + 1);
        assert((counts.len() - i) * (u64::MAX as int) == u64::MAX as int + (counts.len() - i - 1)
            * (u64::MAX as int)) by (nonlinear_arith);
    }
}

/// Sum of a row's counts, mirroring [`counts_total`].
fn total_exec(counts: &Vec<(Option<String>, u64)>) -> (r: u128)
    ensures
        r == counts_total(counts.deep_view()),
{
    let ghost cs = counts.deep_view();
    let n = counts.len();
    let mut acc: u128 = 0;
    let mut i: usize = 0;
    proof {
        lemma_total_from_bounds(cs, 0);
    }
    while i < n
        invariant
            n == counts@.len(),
            cs == counts.deep_view(),
            i <= n,
            acc + total_from(cs, i as int) == total_from(cs, 0),
            0 <= acc <= (i as int) * (u64::MAX as int),
        decreases n - i,
    {
        let c = counts[i].1;
        proof {
            assert(cs[i as int].1 == c);
            lemma_total_from_bounds(cs, i as int);
            lemma_total_from_bounds(cs, i + 1);
            assert((i as int) * (u64::MAX as int) + u64::MAX as int == (i + 1) * (
            u64::MAX as int)) by (nonlinear_arith);
            assert((i + 1) * (u64::MAX as int) <= (n as int) * (u64::MAX as int)) by (nonlinear_arith)
                requires
                    0 <= i + 1 <= n as int,
            ;
            assert((n as int) * (u64::MAX as int) < u128::MAX as int) by (nonlinear_arith)
                requires
                    0 <= n as int <= u64::MAX as int,
            ;
        }
        acc = acc + c as u128;
        i += 1;
    }
    acc
}

/// The entry a draw of `d` selects, scanning from entry `i`: the first
/// entry whose cumulative count range contains `d`.
pub open spec fn pick_from(counts: Seq<(Option<Seq<char>>, u64)>, d: int, i: int) -> Option<
    Seq<char>,
>
    decreases counts.len() - i,
{
    if i < 0 || i >= counts.len() {
        None
    } else if d < counts[i].1 {
        counts[i].0
    } else {
        pick_from(counts, d - counts[i].1, i + 1)
    }
}

/// The token a weighted draw of `d` selects from a row.
pub open spec fn pick_spec(counts: Seq<(Option<Seq<char>>, u64)>, d: int) -> Option<Seq<char>> {
    pick_from(counts, d, 0)
}

/// A draw inside the total selects an entry of the row, and only one with a
/// positive count.
pub proof fn lemma_pick_from(counts: Seq<(Option<Seq<char>>, u64)>, d: int, i: int)
    requires
        0 <= i,
        0 <= d < total_from(counts, i),
    ensures
        exists|k: int|
            i <= k < counts.len() && (#[trigger] counts[k]).0 == pick_from(counts, d, i)
                && counts[k].1 >= 1,
    decreases counts.len() - i,
{
    if i < counts.len() {
        if d < counts[i].1 {
            assert(counts[i].0 == pick_from(counts, d, i) && counts[i].1 >= 1);
        } else {
            lemma_pick_from(counts, d - counts[i].1, i + 1);
        }
    }
}

/// Selects the entry whose cumulative count range contains `d`, mirroring
/// [`pick_spec`].
fn pick_exec(counts: &Vec<(Option<String>, u64)>, d: u128) -> (r: Option<String>)
    requires
        d < counts_total(counts.deep_view()),
    ensures
        r.deep_view() == pick_spec(counts.deep_view(), d as int),
{
    let ghost cs = counts.deep_view();
    let n = counts.len();
    let mut rem = d;
    let mut j: usize = 0;
    while j < n
        invariant
            n == counts@.len(),
            cs == counts.deep_view(),
            j <= n,
            rem <= d,
            rem < total_from(cs, j as int),
            pick_from(cs, rem as int, j as int) == pick_spec(cs, d as int),
        decreases n - j,
    {
        let c = counts[j].1;
        proof {
            assert(cs[j as int].1 == c);
        }
        if rem < c as u128 {
            let picked = clone_opt(&counts[j].0);
            proof {
                assert(cs[j as int].0 == counts@[j as int].0.deep_view());
            }
            return picked;
        }
        rem = rem - c as u128;
        j += 1;
    }
    proof {
        assert(total_from(cs, n as int) == 0);
        assert(false);
    }
    vstd::pervasive::unreached()
}

/// One generation step is recorded in the table: the context has a row, and
/// `t` is one of its successors with a positive count.
pub open spec fn step_ok(rows: Seq<RowView>, ctx: Seq<Option<Seq<char>>>, t: Seq<char>) -> bool {
    let r = find_row(rows, ctx);
    &&& r >= 0
    &&& {
        let cj = find_count(rows[r].counts, Some(t));
        cj >= 0 && rows[r].counts[cj].1 >= 1
    }
}

/// Every token of the walk from `i` on was drawn from the distribution of
/// its rolling context.
pub open spec fn walk_ok(
    rows: Seq<RowView>,
    ctx: Seq<Option<Seq<char>>>,
    toks: Seq<Seq<char>>,
    i: int,
) -> bool
    decreases toks.len() - i,
{
    if i < 0 || i >= toks.len() {
        true
    } else {
        step_ok(rows, ctx, toks[i]) && walk_ok(rows, roll(ctx, Some(toks[i])), toks, i + 1)
    }
}

/// The context reached after walking the tokens from `i` on, starting at
/// `ctx`.
pub open spec fn ctx_after(
    ctx: Seq<Option<Seq<char>>>,
    toks: Seq<Seq<char>>,
    i: int,
) -> Seq<Option<Seq<char>>>
    decreases toks.len() - i,
{
    if i < 0 || i >= toks.len() {
        ctx
    } else {
        ctx_after(roll(ctx, Some(toks[i])), toks, i + 1)
    }
}

/// A generation walk may stop in this context: either the context has no
/// row (a terminal state), or the end marker is among its recorded
/// successors and so can be drawn.
pub open spec fn walk_done(rows: Seq<RowView>, ctx: Seq<Option<Seq<char>>>) -> bool {
    let r = find_row(rows, ctx);
    r < 0 || find_count(rows[r].counts, None) >= 0
}

/// A walk stays valid when one more recorded step is appended at its end.
pub proof fn lemma_walk_extend(
    rows: Seq<RowView>,
    ctx: Seq<Option<Seq<char>>>,
    toks: Seq<Seq<char>>,
    t: Seq<char>,
    i: int,
)
    requires
        0 <= i <= toks.len(),
        walk_ok(rows, ctx, toks, i),
        step_ok(rows, ctx_after(ctx, toks, i), t),
    ensures
        walk_ok(rows, ctx, toks.push(t), i),
        ctx_after(ctx, toks.push(t), i) == roll(ctx_after(ctx, toks, i), Some(t)),
    decreases toks.len() - i,
{
    if i == toks.len() {
        assert(toks.push(t)[i] == t);
        assert(ctx_after(ctx, toks, i) == ctx);
        assert(step_ok(rows, ctx, t));
        assert(walk_ok(rows, roll(ctx, Some(t)), toks.push(t), i + 1));
        assert(ctx_after(ctx, toks.push(t), i) == ctx_after(roll(ctx, Some(t)), toks.push(t), i + 1));
    } else {
        assert(toks.push(t)[i] == toks[i]);
        assert(step_ok(rows, ctx, toks[i]));
        assert(walk_ok(rows, roll(ctx, Some(toks[i])), toks, i + 1));
        assert(ctx_after(ctx, toks, i) == ctx_after(roll(ctx, Some(toks[i])), toks, i + 1));
        lemma_walk_extend(rows, roll(ctx, Some(toks[i])), toks, t, i + 1);
        assert(walk_ok(rows, ctx, toks.push(t), i));
    }
}

/// Relies on `rand::random_range`: a uniform draw from `[0, n)`; it panics
/// only on an empty range, which the precondition rules out.
#[verifier::external_body]
fn random_below(n: u128) -> (r: u128)
    requires
        n > 0,
    ensures
        r < n,
{
    rand::random_range(0..n)
}

/// An all-start-marker context window of length `k`.
fn make_init_ctx(k: usize) -> (r: Vec<Option<String>>)
    ensures
        r.deep_view() == init_ctx(k as nat),
        r@.len() == k,
{
    let mut ctx: Vec<Option<String>> = Vec::new();
    for w in 0..k
        invariant
            ctx@.len() == w,
            forall|m: int| 0 <= m < w ==> ctx.deep_view()[m] is None,
        decreases k - w,
    {
        let ghost c0 = ctx.deep_view();
        ctx.push(None);
        proof {
            assert(ctx.deep_view() =~= c0.push(None));
        }
    }
    proof {
        assert(ctx.deep_view() =~= init_ctx(k as nat));
    }
    ctx
}

/// The context a generation seeded with `tok` starts from: start markers
/// followed by the token itself.
pub open spec fn start_ctx(order: nat, tok: Seq<char>) -> Seq<Option<Seq<char>>> {
    init_ctx((order - 1) as nat).push(Some(tok))
}

/// A context and each of the successors recorded for it, as plain pairs.
pub open spec fn rows_pairs(rows: Seq<RowView>) -> Seq<
    (Seq<Option<Seq<char>>>, Seq<(Option<Seq<char>>, u64)>),
> {
    Seq::new(rows.len(), |i: int| (rows[i].context, rows[i].counts))
}

/// Valid raw table data: a positive order, every context of window length,
/// no context twice, and well-formed successor entries.
pub open spec fn valid_rows_data(
    order: nat,
    pairs: Seq<(Seq<Option<Seq<char>>>, Seq<(Option<Seq<char>>, u64)>)>,
) -> bool {
    &&& order >= 1
    &&& forall|i: int| 0 <= i < pairs.len() ==> (#[trigger] pairs[i]).0.len() == order
    &&& forall|i: int, j: int|
        0 <= i < j < pairs.len() ==> (#[trigger] pairs[i]).0 != (#[trigger] pairs[j]).0
    &&& forall|i: int| 0 <= i < pairs.len() ==> wf_counts((#[trigger] pairs[i]).1)
}

/// A copy of a row's entries with the same view.
fn clone_counts(a: &Vec<(Option<String>, u64)>) -> (r: Vec<(Option<String>, u64)>)
    ensures
        r.deep_view() == a.deep_view(),
{
    let n = a.len();
    let mut r: Vec<(Option<String>, u64)> = Vec::new();
    for i in 0..n
        invariant
            n == a@.len(),
            r@.len() == i,
            forall|m: int| 0 <= m < i ==> r.deep_view()[m] == a.deep_view()[m],
        decreases n - i,
    {
        let tok = clone_opt(&a[i].0);
        let cnt = a[i].1;
        r.push((tok, cnt));
    }
    proof {
        assert(r.deep_view() =~= a.deep_view());
    }
    r
}

/// The walk of tokens selected by the given draws, each taken modulo the
/// current row's total, starting in context `ctx` at draw `i`: generation
/// with an injected deterministic randomness source. The walk ends when the
/// draws run out, the context has no row, or the end marker is selected.
pub open spec fn seeded_walk(
    rows: Seq<RowView>,
    ctx: Seq<Option<Seq<char>>>,
    draws: Seq<u64>,
    i: int,
) -> Seq<Seq<char>>
    decreases draws.len() - i,
{
    if i < 0 || i >= draws.len() {
        Seq::empty()
    } else {
        let r = find_row(rows, ctx);
        if r < 0 {
            Seq::empty()
        } else {
            let total = counts_total(rows[r].counts);
            if total <= 0 {
                Seq::empty()
            } else {
                let d = draws[i] as int % total;
                match pick_spec(rows[r].counts, d) {
                    None => Seq::empty(),
                    Some(t) => seq![t] + seeded_walk(rows, roll(ctx, Some(t)), draws, i + 1),
                }
            }
        }
    }
}

impl Chain {
    /// Walks the table from `start`, drawing each successor with
    /// probability proportional to its count, until the end marker is
    /// drawn, the context has no row, or the step budget runs out.
    fn walk_from(&self, start: Vec<Option<String>>) -> (r: Vec<String>)
        requires
            self.wf(),
            start.deep_view().len() == self@.order,
        ensures
            walk_ok(self@.rows, start.deep_view(), r.deep_view(), 0),
            walk_done(self@.rows, ctx_after(start.deep_view(), r.deep_view(), 0))
                || r.deep_view().len() >= usize::MAX,
    {
        let ghost rows = self@.rows;
        let ghost c0 = start.deep_view();
        let mut ctx = start;
        let mut out: Vec<String> = Vec::new();
        let mut budget: usize = usize::MAX;
        proof {
            assert(out.deep_view() =~= Seq::<Seq<char>>::empty());
        }
        while budget > 0
            invariant
                self.wf(),
                rows == self@.rows,
                c0 == start.deep_view(),
                c0.len() == self@.order,
                ctx.deep_view().len() == self@.order,
                walk_ok(rows, c0, out.deep_view(), 0),
                ctx.deep_view() == ctx_after(c0, out.deep_view(), 0),
                budget + out@.len() == usize::MAX,
            decreases budget,
        {
            let row_idx = match find_row_exec(&self.table, &ctx) {
                None => {
                    proof {
                        assert(walk_done(rows, ctx.deep_view()));
                    }
                    return out;
                },
                Some(i) => i,
            };
            proof {
                assert(rows[row_idx as int].context == ctx.deep_view());
                assert(wf_counts(rows[row_idx as int].counts));
                lemma_total_from_bounds(rows[row_idx as int].counts, 0);
            }
            let total = total_exec(&self.table[row_idx].counts);
            let d = random_below(total);
            proof {
                lemma_pick_from(rows[row_idx as int].counts, d as int, 0);
            }
            let picked = pick_exec(&self.table[row_idx].counts, d);
            match picked {
                None => {
                    // the end marker was drawn: a natural line ending
                    proof {
                        let counts = rows[row_idx as int].counts;
                        assert(pick_spec(counts, d as int) is None);
                        lemma_pick_from(counts, d as int, 0);
                        lemma_find_count_from(counts, None, 0);
                        if find_count(counts, None) < 0 {
                            let k = choose|k: int|
                                0 <= k < counts.len() && (#[trigger] counts[k]).0 == pick_from(
                                    counts,
                                    d as int,
                                    0,
                                ) && counts[k].1 >= 1;
                            assert(counts[k].0 == None::<Seq<char>>);
                            assert(false);
                        }
                        assert(walk_done(rows, ctx.deep_view()));
                    }
                    return out;
                },
                Some(t) => {
                    let ghost tv = t@;
                    proof {
                        let counts = rows[row_idx as int].counts;
                        lemma_find_count_from(counts, Some(tv), 0);
                        if find_count(counts, Some(tv)) < 0 {
                            let k = choose|k: int|
                                0 <= k < counts.len() && (#[trigger] counts[k]).0 == Some(tv)
                                    && counts[k].1 >= 1;
                            assert(counts[k].0 == Some(tv));
                            assert(false);
                        }
                        assert(step_ok(rows, ctx.deep_view(), tv));
                        lemma_walk_extend(rows, c0, out.deep_view(), tv, 0);
                    }
                    let ghost out0 = out.deep_view();
                    let ghost ctx0 = ctx.deep_view();
                    ctx.remove(0);
                    ctx.push(Some(t.clone()));
                    out.push(t);
                    proof {
                        assert(out.deep_view() =~= out0.push(tv));
                        assert(ctx.deep_view() =~= roll(ctx0, Some(tv)));
                    }
                },
            }
            budget -= 1;
        }
        proof {
            assert(out.deep_view().len() == out@.len());
        }
        out
    }

    /// Generates one token sequence from the start-marker context by a
    /// weighted random walk: every emitted token is a recorded successor of
    /// its rolling context, and the walk stops only where the end marker
    /// was drawn or the context has no row (or, in principle, at the step
    /// budget of the largest machine integer).
    pub fn generate(&self) -> (r: Vec<String>)
        requires
            self.wf(),
        ensures
            walk_ok(self@.rows, init_ctx(self@.order), r.deep_view(), 0),
            walk_done(self@.rows, ctx_after(init_ctx(self@.order), r.deep_view(), 0))
                || r.deep_view().len() >= usize::MAX,
    {
        let ctx = make_init_ctx(self.order);
        self.walk_from(ctx)
    }

    /// Generates one token sequence whose first token is `token`, walking
    /// on from the context that ends in it; as in [`Chain::generate`], the
    /// walk stops only where the end marker was drawn or the context has no
    /// row. When the seeded context never occurred in training the result
    /// is empty: the caller decides whether that is an error.
    ///
    /// Only a model of order one can be seeded meaningfully; at higher
    /// orders the remaining window positions are start markers.
    pub fn generate_from_token(&self, token: &str) -> (r: Vec<String>)
        requires
            self.wf(),
        ensures
            find_row(self@.rows, start_ctx(self@.order, token@)) < 0 ==> r.deep_view().len()
                == 0,
            find_row(self@.rows, start_ctx(self@.order, token@)) >= 0 ==> r.deep_view().len()
                >= 1 && r.deep_view()[0] == token@ && walk_ok(
                self@.rows,
                start_ctx(self@.order, token@),
                r.deep_view().drop_first(),
                0,
            ) && (walk_done(
                self@.rows,
                ctx_after(start_ctx(self@.order, token@), r.deep_view().drop_first(), 0),
            ) || r.deep_view().drop_first().len() >= usize::MAX),
    {
        let mut ctx = make_init_ctx(self.order - 1);
        let ghost c1 = ctx.deep_view();
        ctx.push(Some(token.to_owned()));
        proof {
            assert(c1 == init_ctx((self@.order - 1) as nat));
            assert(ctx.deep_view() =~= c1.push(Some(token@)));
            assert(ctx.deep_view() =~= start_ctx(self@.order, token@));
        }
        match find_row_exec(&self.table, &ctx) {
            None => Vec::new(),
            Some(_) => {
                let mut rest = self.walk_from(ctx);
                let ghost rv = rest.deep_view();
                let mut r: Vec<String> = Vec::new();
                r.push(token.to_owned());
                r.append(&mut rest);
                proof {
                    assert(r.deep_view().drop_first() =~= rv);
                    assert(r.deep_view()[0] == token@);
                }
                r
            },
        }
    }

    /// Generates one token sequence deterministically from the given
    /// draws: step `i` selects the successor at `draws[i]` modulo the
    /// current row's total. Generation stops when the draws run out, so
    /// tests can drive the walk without a randomness source.
    pub fn generate_with_draws(&self, draws: &Vec<u64>) -> (r: Vec<String>)
        requires
            self.wf(),
        ensures
            r.deep_view() == seeded_walk(self@.rows, init_ctx(self@.order), draws@, 0),
    {
        let ghost rows = self@.rows;
        let ghost dv = draws@;
        let mut ctx = make_init_ctx(self.order);
        let mut out: Vec<String> = Vec::new();
        let n = draws.len();
        let mut i: usize = 0;
        proof {
            assert(out.deep_view() + seeded_walk(rows, ctx.deep_view(), dv, 0) =~= seeded_walk(
                rows,
                init_ctx(self@.order),
                dv,
                0,
            ));
        }
        while i < n
            invariant
                self.wf(),
                rows == self@.rows,
                dv == draws@,
                n == draws@.len(),
                i <= n,
                ctx.deep_view().len() == self@.order,
                out.deep_view() + seeded_walk(rows, ctx.deep_view(), dv, i as int) == seeded_walk(
                    rows,
                    init_ctx(self@.order),
                    dv,
                    0,
                ),
            decreases n - i,
        {
            let row_idx = match find_row_exec(&self.table, &ctx) {
                None => {
                    proof {
                        assert(out.deep_view() =~= out.deep_view() + Seq::<Seq<char>>::empty());
                    }
                    return out;
                },
                Some(k) => k,
            };
            proof {
                assert(rows[row_idx as int].context == ctx.deep_view());
                assert(wf_counts(rows[row_idx as int].counts));
                lemma_total_from_bounds(rows[row_idx as int].counts, 0);
            }
            let total = total_exec(&self.table[row_idx].counts);
            let d = (draws[i] as u128) % total;
            let picked = pick_exec(&self.table[row_idx].counts, d);
            match picked {
                None => {
                    proof {
                        assert(out.deep_view() =~= out.deep_view() + Seq::<Seq<char>>::empty());
                    }
                    return out;
                },
                Some(t) => {
                    let ghost out0 = out.deep_view();
                    let ghost ctx0 = ctx.deep_view();
                    let ghost tv = t@;
                    ctx.remove(0);
                    ctx.push(Some(t.clone()));
                    out.push(t);
                    proof {
                        assert(out.deep_view() =~= out0.push(tv));
                        assert(ctx.deep_view() =~= roll(ctx0, Some(tv)));
                        assert(seeded_walk(rows, ctx0, dv, i as int) == seq![tv] + seeded_walk(
                            rows,
                            roll(ctx0, Some(tv)),
                            dv,
                            i + 1,
                        ));
                        assert(out.deep_view() + seeded_walk(rows, ctx.deep_view(), dv, i + 1)
                            =~= out0 + seeded_walk(rows, ctx0, dv, i as int));
                    }
                },
            }
            i += 1;
        }
        proof {
            assert(out.deep_view() =~= out.deep_view() + Seq::<Seq<char>>::empty());
        }
        out
    }

    /// The model's raw table: each context with its recorded successors
    /// and their counts, in table order. Together with [`Chain::from_rows`]
    /// this lets callers persist a model and restore it exactly.
    pub fn to_rows(&self) -> (r: Vec<(Vec<Option<String>>, Vec<(Option<String>, u64)>)>)
        ensures
            r.deep_view() == rows_pairs(self@.rows),
    {
        let ghost rows = self@.rows;
        let n = self.table.len();
        let mut r: Vec<(Vec<Option<String>>, Vec<(Option<String>, u64)>)> = Vec::new();
        let mut i: usize = 0;
        while i < n
            invariant
                n == self.table@.len(),
                rows == self@.rows,
                i <= n,
                r@.len() == i,
                forall|m: int| 0 <= m < i ==> r.deep_view()[m] == rows_pairs(rows)[m],
            decreases n - i,
        {
            let context = clone_ctx(&self.table[i].context);
            let counts = clone_counts(&self.table[i].counts);
            r.push((context, counts));
            i += 1;
        }
        proof {
            assert(r.deep_view() =~= rows_pairs(rows));
        }
        r
    }

    /// Rebuilds a chain from raw table data, validating it: the order must
    /// be positive, every context must have the window length, no context
    /// may repeat, and every row needs at least one successor, each with a
    /// positive count and no token twice. Returns the restored chain, or an
    /// error exactly when the data is not valid.
    pub fn from_rows(
        order: usize,
        rows: &Vec<(Vec<Option<String>>, Vec<(Option<String>, u64)>)>,
    ) -> (r: Result<Chain, Error>)
        ensures
            r is Ok <==> valid_rows_data(order as nat, rows.deep_view()),
            r matches Ok(c) ==> c.wf() && c@.order == order && rows_pairs(c@.rows)
                == rows.deep_view(),
    {
        let ghost pairs = rows.deep_view();
        if order == 0 {
            return Err(Error::context("model order must be at least one"));
        }
        let n = rows.len();
        let mut table: Vec<Row> = Vec::new();
        let mut i: usize = 0;
        while i < n
            invariant
                n == rows@.len(),
                pairs == rows.deep_view(),
                order >= 1,
                i <= n,
                table@.len() == i,
                forall|m: int| 0 <= m < i ==> rows_view(table@)[m].context == (
                #[trigger] pairs[m]).0 && rows_view(table@)[m].counts == pairs[m].1,
                forall|m: int| 0 <= m < i ==> (#[trigger] pairs[m]).0.len() == order,
                forall|m: int| 0 <= m < i ==> wf_counts((#[trigger] pairs[m]).1),
                forall|a: int, b: int|
                    0 <= a < b < i ==> (#[trigger] pairs[a]).0 != (#[trigger] pairs[b]).0,
            decreases n - i,
        {
            // window length
            if rows[i].0.len() != order {
                proof {
                    assert(pairs[i as int].0.len() != order);
                }
                return Err(Error::context("model context has the wrong length"));
            }
            // successor entries present, positive, unique
            let m = rows[i].1.len();
            if m == 0 {
                proof {
                    assert(!wf_counts(pairs[i as int].1));
                }
                return Err(Error::context("model row has no successors"));
            }
            let mut a: usize = 0;
            while a < m
                invariant
                    n == rows@.len(),
                    pairs == rows.deep_view(),
                    i < n,
                    m == rows@[i as int].1@.len(),
                    a <= m,
                    forall|x: int| 0 <= x < a ==> (#[trigger] pairs[i as int].1[x]).1 >= 1,
                    forall|x: int, y: int|
                        0 <= x < y < m && x < a ==> (#[trigger] pairs[i as int].1[x]).0 != (
                        #[trigger] pairs[i as int].1[y]).0,
                decreases m - a,
            {
                if rows[i].1[a].1 < 1 {
                    proof {
                        assert(pairs[i as int].1[a as int].1 < 1);
                        assert(!wf_counts(pairs[i as int].1));
                    }
                    return Err(Error::context("model count must be positive"));
                }
                let mut b: usize = a + 1;
                while b < m
                    invariant
                        n == rows@.len(),
                        pairs == rows.deep_view(),
                        i < n,
                        m == rows@[i as int].1@.len(),
                        a < b || b == a + 1,
                        a < m,
                        a + 1 <= b <= m,
                        forall|y: int|
                            a < y < b ==> (#[trigger] pairs[i as int].1[y]).0
                                != pairs[i as int].1[a as int].0,
                    decreases m - b,
                {
                    if opt_str_eq(&rows[i].1[a].0, &rows[i].1[b].0) {
                        proof {
                            assert(pairs[i as int].1[a as int].0 == pairs[i as int].1[b as int].0);
                            assert(!wf_counts(pairs[i as int].1));
                        }
                        return Err(Error::context("model row repeats a successor"));
                    }
                    proof {
                        assert(pairs[i as int].1[b as int].0 != pairs[i as int].1[a as int].0);
                    }
                    b += 1;
                }
                a += 1;
            }
            // context not seen before
            let mut j: usize = 0;
            while j < i
                invariant
                    n == rows@.len(),
                    pairs == rows.deep_view(),
                    i < n,
                    j <= i,
                    forall|m2: int| 0 <= m2 < j ==> (#[trigger] pairs[m2]).0 != pairs[i as int].0,
                decreases i - j,
            {
                if ctx_eq(&rows[j].0, &rows[i].0) {
                    proof {
                        assert(pairs[j as int].0 == pairs[i as int].0);
                    }
                    return Err(Error::context("model repeats a context"));
                }
                proof {
                    assert(pairs[j as int].0 != pairs[i as int].0);
                }
                j += 1;
            }
            let context = clone_ctx(&rows[i].0);
            let counts = clone_counts(&rows[i].1);
            table.push(Row { context, counts });
            proof {
                assert(forall|x: int|
                    0 <= x < m ==> (#[trigger] pairs[i as int].1[x]).1 >= 1);
                assert(wf_counts(pairs[i as int].1));
                assert(rows_view(table@)[i as int].context =~= pairs[i as int].0);
                assert(rows_view(table@)[i as int].counts =~= pairs[i as int].1);
            }
            i += 1;
        }
        let c = Chain { order, table };
        proof {
            assert(valid_rows_data(order as nat, pairs));
            assert(forall|m: int|
                0 <= m < n ==> (#[trigger] rows_view(c.table@)[m]).context == pairs[m].0
                    && rows_view(c.table@)[m].counts == pairs[m].1);
            assert(wf_rows(c@.rows, order as nat)) by {
                assert(forall|x: int|
                    0 <= x < n ==> (#[trigger] c@.rows[x]).context.len() == order);
                assert(forall|x: int, y: int|
                    0 <= x < y < n ==> (#[trigger] c@.rows[x]).context != (
                    #[trigger] c@.rows[y]).context);
                assert(forall|x: int| 0 <= x < n ==> wf_counts((#[trigger] c@.rows[x]).counts));
            }
            assert(rows_pairs(c@.rows) =~= pairs);
        }
        Ok(c)
    }
}


/// Persistence law: the raw rows of a well-formed chain are always valid
/// table data, so a saved model restores exactly (see [`Chain::to_rows`]
/// and [`Chain::from_rows`]).
pub proof fn lemma_rows_round_trip(c: ChainView)
    requires
        chain_wf(c),
    ensures
        valid_rows_data(c.order, rows_pairs(c.rows)),
{
    let pairs = rows_pairs(c.rows);
    assert forall|i: int| 0 <= i < pairs.len() implies (#[trigger] pairs[i]).0.len()
        == c.order by {
        assert(c.rows[i].context.len() == c.order);
    }
    assert forall|i: int, j: int|
        0 <= i < j < pairs.len() implies (#[trigger] pairs[i]).0 != (#[trigger] pairs[j]).0 by {
        assert(c.rows[i].context != c.rows[j].context);
    }
    assert forall|i: int| 0 <= i < pairs.len() implies wf_counts((#[trigger] pairs[i]).1) by {
        assert(wf_counts(c.rows[i].counts));
    }
}


/// The count recorded for successor `tok` in the row of context `ctx`, or
/// zero when no such row or entry exists: the table read as a mapping from
/// (context, successor) pairs to counts.
pub open spec fn count_of(
    rows: Seq<RowView>,
    ctx: Seq<Option<Seq<char>>>,
    tok: Option<Seq<char>>,
) -> int {
    let r = find_row(rows, ctx);
    if r < 0 {
        0
    } else {
        let j = find_count(rows[r].counts, tok);
        if j < 0 {
            0
        } else {
            rows[r].counts[j].1 as int
        }
    }
}

/// `x` increased by `k`, saturating at the largest count.
pub open spec fn sat_add(x: int, k: int) -> int {
    if x + k > u64::MAX {
        u64::MAX as int
    } else {
        x + k
    }
}

/// Every recorded count lies in the counter's range.
pub proof fn lemma_count_of_bounds(
    rows: Seq<RowView>,
    ctx: Seq<Option<Seq<char>>>,
    tok: Option<Seq<char>>,
)
    ensures
        0 <= count_of(rows, ctx, tok) <= u64::MAX,
{
    lemma_find_row_from(rows, ctx, 0);
    let r = find_row(rows, ctx);
    if r >= 0 {
        lemma_find_count_from(rows[r].counts, tok, 0);
    }
}

/// Saturating additions of nonnegative amounts compose.
proof fn lemma_sat_add_chain(x: int, a: int, b: int)
    requires
        0 <= x <= u64::MAX,
        a >= 0,
        b >= 0,
    ensures
        sat_add(sat_add(x, a), b) == sat_add(x, a + b),
{
}

/// Updating a row without changing its context leaves every context scan
/// unchanged.
proof fn lemma_find_row_update(
    rows: Seq<RowView>,
    i: int,
    row2: RowView,
    ctx: Seq<Option<Seq<char>>>,
    k: int,
)
    requires
        0 <= i < rows.len(),
        row2.context == rows[i].context,
        0 <= k,
    ensures
        find_row_from(rows.update(i, row2), ctx, k) == find_row_from(rows, ctx, k),
    decreases rows.len() - k,
{
    if k < rows.len() {
        assert(rows.update(i, row2)[k].context == rows[k].context);
        if rows[k].context != ctx {
            lemma_find_row_update(rows, i, row2, ctx, k + 1);
        }
    }
}

/// Scanning a table with one row appended: a found row stays found at the
/// same index; a miss finds the new row exactly on its own context.
proof fn lemma_find_row_push(
    rows: Seq<RowView>,
    newrow: RowView,
    ctx: Seq<Option<Seq<char>>>,
    k: int,
)
    requires
        0 <= k <= rows.len(),
    ensures
        find_row_from(rows, ctx, k) >= 0 ==> find_row_from(rows.push(newrow), ctx, k)
            == find_row_from(rows, ctx, k),
        find_row_from(rows, ctx, k) < 0 && newrow.context == ctx ==> find_row_from(
            rows.push(newrow),
            ctx,
            k,
        ) == rows.len(),
        find_row_from(rows, ctx, k) < 0 && newrow.context != ctx ==> find_row_from(
            rows.push(newrow),
            ctx,
            k,
        ) < 0,
    decreases rows.len() - k,
{
    if k < rows.len() {
        assert(rows.push(newrow)[k] == rows[k]);
        if rows[k].context != ctx {
            lemma_find_row_push(rows, newrow, ctx, k + 1);
        }
    } else {
        assert(rows.push(newrow)[k] == newrow);
        assert(find_row_from(rows.push(newrow), ctx, k + 1) == -1);
    }
}

/// Updating an entry without changing its token leaves every token scan
/// unchanged.
proof fn lemma_find_count_update(
    counts: Seq<(Option<Seq<char>>, u64)>,
    j: int,
    e2: (Option<Seq<char>>, u64),
    tok: Option<Seq<char>>,
    k: int,
)
    requires
        0 <= j < counts.len(),
        e2.0 == counts[j].0,
        0 <= k,
    ensures
        find_count_from(counts.update(j, e2), tok, k) == find_count_from(counts, tok, k),
    decreases counts.len() - k,
{
    if k < counts.len() {
        assert(counts.update(j, e2)[k].0 == counts[k].0);
        if counts[k].0 != tok {
            lemma_find_count_update(counts, j, e2, tok, k + 1);
        }
    }
}

/// Scanning a row with one entry appended: a found entry stays found at the
/// same index; a miss finds the new entry exactly on its own token.
proof fn lemma_find_count_push(
    counts: Seq<(Option<Seq<char>>, u64)>,
    newentry: (Option<Seq<char>>, u64),
    tok: Option<Seq<char>>,
    k: int,
)
    requires
        0 <= k <= counts.len(),
    ensures
        find_count_from(counts, tok, k) >= 0 ==> find_count_from(counts.push(newentry), tok, k)
            == find_count_from(counts, tok, k),
        find_count_from(counts, tok, k) < 0 && newentry.0 == tok ==> find_count_from(
            counts.push(newentry),
            tok,
            k,
        ) == counts.len(),
        find_count_from(counts, tok, k) < 0 && newentry.0 != tok ==> find_count_from(
            counts.push(newentry),
            tok,
            k,
        ) < 0,
    decreases counts.len() - k,
{
    if k < counts.len() {
        assert(counts.push(newentry)[k] == counts[k]);
        if counts[k].0 != tok {
            lemma_find_count_push(counts, newentry, tok, k + 1);
        }
    } else {
        assert(counts.push(newentry)[k] == newentry);
        assert(find_count_from(counts.push(newentry), tok, k + 1) == -1);
    }
}

/// Recording one observation changes exactly one pair's count, by a
/// saturating increment; every other count is untouched.
pub proof fn lemma_bump_count(
    rows: Seq<RowView>,
    c: Seq<Option<Seq<char>>>,
    t: Option<Seq<char>>,
    ctx: Seq<Option<Seq<char>>>,
    tok: Option<Seq<char>>,
)
    ensures
        count_of(bump(rows, c, t), ctx, tok) == if c == ctx && t == tok {
            sat_add(count_of(rows, ctx, tok), 1)
        } else {
            count_of(rows, ctx, tok)
        },
{
    lemma_find_row_from(rows, c, 0);
    lemma_find_row_from(rows, ctx, 0);
    let i = find_row(rows, c);
    if i >= 0 {
        let row = rows[i];
        lemma_find_count_from(row.counts, t, 0);
        lemma_find_count_from(row.counts, tok, 0);
        let j = find_count(row.counts, t);
        let row2 = row_bump(row, t);
        assert(row2.context == row.context);
        lemma_find_row_update(rows, i, row2, ctx, 0);
        let rows2 = rows.update(i, row2);
        if c == ctx {
            assert(find_row(rows2, ctx) == i);
            assert(rows2[i] == row2);
            if j >= 0 {
                let e2 = (t, sat_inc(row.counts[j].1));
                lemma_find_count_update(row.counts, j, e2, tok, 0);
                if t == tok {
                    assert(row2.counts[j] == e2);
                } else {
                    let j2 = find_count(row.counts, tok);
                    if j2 >= 0 {
                        assert(j2 != j);
                        assert(row2.counts[j2] == row.counts[j2]);
                    }
                }
            } else {
                lemma_find_count_push(row.counts, (t, 1u64), tok, 0);
                if t == tok {
                    assert(row2.counts[row.counts.len() as int] == (t, 1u64));
                } else {
                    let j2 = find_count(row.counts, tok);
                    if j2 >= 0 {
                        assert(row2.counts[j2] == row.counts[j2]);
                    }
                }
            }
        } else {
            // the scan for `ctx` cannot land on the updated row
            let r2 = find_row(rows, ctx);
            if r2 >= 0 {
                assert(rows[r2].context == ctx);
                assert(r2 != i);
                assert(rows2[r2] == rows[r2]);
            }
        }
    } else {
        let newrow = RowView { context: c, counts: seq![(t, 1u64)] };
        lemma_find_row_push(rows, newrow, ctx, 0);
        let rows2 = rows.push(newrow);
        if c == ctx {
            assert(find_row(rows2, ctx) == rows.len());
            assert(rows2[rows.len() as int] == newrow);
            if t == tok {
                assert(newrow.counts[0] == (t, 1u64));
            } else {
                lemma_find_count_from(newrow.counts, tok, 0);
                if find_count(newrow.counts, tok) >= 0 {
                    assert(newrow.counts[find_count(newrow.counts, tok)].0 == tok);
                    assert(false);
                }
            }
        } else {
            let r2 = find_row(rows, ctx);
            if r2 >= 0 {
                assert(rows2[r2] == rows[r2]);
            }
        }
    }
}

/// How many observations the feed of `toks` from position `i`, in window
/// `c`, records at the pair `(ctx, tok)`.
pub open spec fn obs_from(
    c: Seq<Option<Seq<char>>>,
    toks: Seq<Seq<char>>,
    i: int,
    ctx: Seq<Option<Seq<char>>>,
    tok: Option<Seq<char>>,
) -> int
    decreases toks.len() - i,
{
    if i < 0 || i >= toks.len() {
        if c == ctx && tok == None::<Seq<char>> {
            1
        } else {
            0
        }
    } else {
        (if c == ctx && tok == Some(toks[i]) {
            1int
        } else {
            0int
        }) + obs_from(roll(c, Some(toks[i])), toks, i + 1, ctx, tok)
    }
}

/// Observation counts are nonnegative.
proof fn lemma_obs_nonneg(
    c: Seq<Option<Seq<char>>>,
    toks: Seq<Seq<char>>,
    i: int,
    ctx: Seq<Option<Seq<char>>>,
    tok: Option<Seq<char>>,
)
    ensures
        obs_from(c, toks, i, ctx, tok) >= 0,
    decreases toks.len() - i,
{
    if 0 <= i < toks.len() {
        lemma_obs_nonneg(roll(c, Some(toks[i])), toks, i + 1, ctx, tok);
    }
}

/// Feeding from a window adds, at every pair, exactly the number of
/// observations the feed records there, saturating at the largest count.
proof fn lemma_feed_from_counts(
    rows: Seq<RowView>,
    c: Seq<Option<Seq<char>>>,
    toks: Seq<Seq<char>>,
    i: int,
    ctx: Seq<Option<Seq<char>>>,
    tok: Option<Seq<char>>,
)
    ensures
        count_of(feed_from(rows, c, toks, i), ctx, tok) == sat_add(
            count_of(rows, ctx, tok),
            obs_from(c, toks, i, ctx, tok),
        ),
    decreases toks.len() - i,
{
    lemma_count_of_bounds(rows, ctx, tok);
    if i < 0 || i >= toks.len() {
        lemma_bump_count(rows, c, None, ctx, tok);
    } else {
        let t = Some(toks[i]);
        lemma_bump_count(rows, c, t, ctx, tok);
        lemma_feed_from_counts(bump(rows, c, t), roll(c, t), toks, i + 1, ctx, tok);
        lemma_obs_nonneg(roll(c, t), toks, i + 1, ctx, tok);
        if c == ctx && t == tok {
            lemma_sat_add_chain(
                count_of(rows, ctx, tok),
                1,
                obs_from(roll(c, t), toks, i + 1, ctx, tok),
            );
        }
    }
}

/// The observations one whole fed sequence records at a pair; an empty
/// sequence records none.
pub open spec fn feed_obs(
    order: nat,
    toks: Seq<Seq<char>>,
    ctx: Seq<Option<Seq<char>>>,
    tok: Option<Seq<char>>,
) -> int {
    if toks.len() == 0 {
        0
    } else {
        obs_from(init_ctx(order), toks, 0, ctx, tok)
    }
}

/// Feeding one sequence adds its observation count at every pair.
pub proof fn lemma_spec_feed_counts(
    rows: Seq<RowView>,
    order: nat,
    toks: Seq<Seq<char>>,
    ctx: Seq<Option<Seq<char>>>,
    tok: Option<Seq<char>>,
)
    ensures
        count_of(spec_feed(rows, order, toks), ctx, tok) == sat_add(
            count_of(rows, ctx, tok),
            feed_obs(order, toks, ctx, tok),
        ),
        feed_obs(order, toks, ctx, tok) >= 0,
{
    lemma_count_of_bounds(rows, ctx, tok);
    if toks.len() == 0 {
    } else {
        lemma_feed_from_counts(rows, init_ctx(order), toks, 0, ctx, tok);
        lemma_obs_nonneg(init_ctx(order), toks, 0, ctx, tok);
    }
}

/// Commutative feed law: at every context and successor, feeding two
/// sequences in either order yields the same count, so the trained counts
/// are a function of the multiset of fed sequences, not of their order.
pub proof fn lemma_feed_commutes(
    rows: Seq<RowView>,
    order: nat,
    t1: Seq<Seq<char>>,
    t2: Seq<Seq<char>>,
)
    ensures
        forall|ctx: Seq<Option<Seq<char>>>, tok: Option<Seq<char>>|
            #[trigger] count_of(spec_feed(spec_feed(rows, order, t1), order, t2), ctx, tok)
                == count_of(spec_feed(spec_feed(rows, order, t2), order, t1), ctx, tok),
{
    assert forall|ctx: Seq<Option<Seq<char>>>, tok: Option<Seq<char>>|
        #[trigger] count_of(spec_feed(spec_feed(rows, order, t1), order, t2), ctx, tok)
            == count_of(spec_feed(spec_feed(rows, order, t2), order, t1), ctx, tok) by {
        let x = count_of(rows, ctx, tok);
        let k1 = feed_obs(order, t1, ctx, tok);
        let k2 = feed_obs(order, t2, ctx, tok);
        lemma_count_of_bounds(rows, ctx, tok);
        lemma_spec_feed_counts(rows, order, t1, ctx, tok);
        lemma_spec_feed_counts(spec_feed(rows, order, t1), order, t2, ctx, tok);
        lemma_spec_feed_counts(rows, order, t2, ctx, tok);
        lemma_spec_feed_counts(spec_feed(rows, order, t2), order, t1, ctx, tok);
        lemma_sat_add_chain(x, k1, k2);
        lemma_sat_add_chain(x, k2, k1);
    }
}

} // verus!
