//! Training orchestrator: tokenizes the dialogue lines of one input file
//! and feeds them to the chain, suppressing consecutive entries that
//! tokenize identically, since subtitle files repeat a line on several
//! layers for typesetting and those copies must not gain extra weight.

use vstd::prelude::*;

use crate::chain::{spec_feed, Chain, RowView};
use vstd::seq_lib::*;
use crate::text::tokens_eq;
use crate::tokenize::{spec_tokenize, tokenize};

verus! {

/// The table after the training pass over the entries from `i` on, where
/// `prev` is the token sequence of the most recent entry that had text.
/// An entry is skipped when it tokenizes exactly as the one before it;
/// entries without text change nothing.
pub open spec fn train_from(
    rows: Seq<RowView>,
    order: nat,
    entries: Seq<Option<Seq<char>>>,
    i: int,
    prev: Option<Seq<Seq<char>>>,
) -> Seq<RowView>
    decreases entries.len() - i,
{
    if i < 0 || i >= entries.len() {
        rows
    } else {
        match entries[i] {
            None => train_from(rows, order, entries, i + 1, prev),
            Some(l) => {
                let t = spec_tokenize(l);
                if prev == Some(t) {
                    train_from(rows, order, entries, i + 1, prev)
                } else {
                    train_from(spec_feed(rows, order, t), order, entries, i + 1, Some(t))
                }
            },
        }
    }
}

/// The table after training on one file's entries.
pub open spec fn spec_train(
    rows: Seq<RowView>,
    order: nat,
    entries: Seq<Option<Seq<char>>>,
) -> Seq<RowView> {
    train_from(rows, order, entries, 0, None)
}

/// Trains the chain on the dialogue entries of one file, in order: each
/// entry with text is tokenized and fed, except that an entry tokenizing
/// exactly as the entry fed or skipped just before it is skipped. The
/// suppression never crosses files: a fresh call starts with no previous
/// entry.
pub fn train_entries(chain: &mut Chain, entries: &Vec<Option<String>>)
    requires
        old(chain).wf(),
    ensures
        final(chain).wf(),
        final(chain)@.order == old(chain)@.order,
        final(chain)@.rows == spec_train(
            old(chain)@.rows,
            old(chain)@.order,
            entries.deep_view(),
        ),
{
    let ghost dv = entries.deep_view();
    let ghost order = chain@.order;
    let ghost rows0 = chain@.rows;
    let n = entries.len();
    let mut prev: Option<Vec<String>> = None;
    let mut i: usize = 0;
    while i < n
        invariant
            chain.wf(),
            chain@.order == order,
            n == entries@.len(),
            dv == entries.deep_view(),
            i <= n,
            train_from(chain@.rows, order, dv, i as int, match prev {
                None => None,
                Some(p) => Some(p.deep_view()),
            }) == spec_train(rows0, order, dv),
        decreases n - i,
    {
        match &entries[i] {
            None => {},
            Some(l) => {
                proof {
                    assert(dv[i as int] == Some(l@));
                }
                let toks = tokenize(l.as_str());
                let same = match &prev {
                    None => false,
                    Some(p) => tokens_eq(p, &toks),
                };
                if !same {
                    chain.feed(&toks);
                    prev = Some(toks);
                }
            },
        }
        i += 1;
    }
    proof {
        assert(train_from(chain@.rows, order, dv, n as int, match prev {
            None => None,
            Some(p) => Some(p.deep_view()),
        }) == chain@.rows);
    }
}


/// Training reads the same suffix the same way wherever it stands: two
/// entry lists with equal suffixes train a table identically from there.
proof fn lemma_train_from_shift(
    rows: Seq<RowView>,
    order: nat,
    e1: Seq<Option<Seq<char>>>,
    a: int,
    e2: Seq<Option<Seq<char>>>,
    b: int,
    prev: Option<Seq<Seq<char>>>,
)
    requires
        0 <= a <= e1.len(),
        0 <= b <= e2.len(),
        e1.len() - a == e2.len() - b,
        forall|m: int| 0 <= m < e1.len() - a ==> e1[a + m] == #[trigger] e2[b + m],
    ensures
        train_from(rows, order, e1, a, prev) == train_from(rows, order, e2, b, prev),
    decreases e1.len() - a,
{
    if a < e1.len() {
        assert(e1[a] == e2[b]) by {
            assert(e1[a + 0] == e2[b + 0]);
        }
        assert forall|m: int|
            0 <= m < e1.len() - (a + 1) implies e1[a + 1 + m] == #[trigger] e2[b + 1 + m] by {
            assert(e1[a + (m + 1)] == e2[b + (m + 1)]);
        }
        match e1[a] {
            None => {
                lemma_train_from_shift(rows, order, e1, a + 1, e2, b + 1, prev);
            },
            Some(l) => {
                let t = spec_tokenize(l);
                if prev == Some(t) {
                    lemma_train_from_shift(rows, order, e1, a + 1, e2, b + 1, prev);
                } else {
                    lemma_train_from_shift(
                        spec_feed(rows, order, t),
                        order,
                        e1,
                        a + 1,
                        e2,
                        b + 1,
                        Some(t),
                    );
                }
            },
        }
    }
}

/// From any state, removing the second of two adjacent entries that
/// tokenize identically does not change what training produces.
proof fn lemma_train_from_dup(
    rows: Seq<RowView>,
    order: nat,
    entries: Seq<Option<Seq<char>>>,
    i: int,
    j: int,
    prev: Option<Seq<Seq<char>>>,
)
    requires
        0 <= j <= i,
        i + 1 < entries.len(),
        entries[i] is Some,
        entries[i + 1] is Some,
        spec_tokenize(entries[i]->Some_0) == spec_tokenize(entries[i + 1]->Some_0),
    ensures
        train_from(rows, order, entries, j, prev) == train_from(
            rows,
            order,
            entries.remove(i + 1),
            j,
            prev,
        ),
    decreases entries.len() - j,
{
    let removed = entries.remove(i + 1);
    entries.remove_ensures(i + 1);
    if j < i {
        assert(removed[j] == entries[j]);
        match entries[j] {
            None => {
                lemma_train_from_dup(rows, order, entries, i, j + 1, prev);
            },
            Some(l) => {
                let t = spec_tokenize(l);
                if prev == Some(t) {
                    lemma_train_from_dup(rows, order, entries, i, j + 1, prev);
                } else {
                    lemma_train_from_dup(spec_feed(rows, order, t), order, entries, i, j + 1, Some(t));
                }
            },
        }
    } else {
        // at the duplicate pair: the first copy decides, the second copy is
        // skipped either way, and the suffixes beyond the pair agree
        assert(removed[i] == entries[i]);
        let l1 = entries[i]->Some_0;
        let t = spec_tokenize(l1);
        assert(spec_tokenize(entries[i + 1]->Some_0) == t);
        assert forall|m: int| 0 <= m < entries.len() - (i + 2) implies entries[i + 2 + m]
            == #[trigger] removed[i + 1 + m] by {
            assert(removed[(i + 1 + m) as int] == entries[i + 2 + m]);
        }
        if prev == Some(t) {
            assert(train_from(rows, order, entries, i, prev) == train_from(
                rows,
                order,
                entries,
                i + 1,
                prev,
            ));
            assert(train_from(rows, order, entries, i + 1, prev) == train_from(
                rows,
                order,
                entries,
                i + 2,
                prev,
            ));
            assert(train_from(rows, order, removed, i, prev) == train_from(
                rows,
                order,
                removed,
                i + 1,
                prev,
            ));
            lemma_train_from_shift(rows, order, entries, i + 2, removed, i + 1, prev);
        } else {
            let fed = spec_feed(rows, order, t);
            assert(train_from(rows, order, entries, i, prev) == train_from(
                fed,
                order,
                entries,
                i + 1,
                Some(t),
            ));
            assert(train_from(fed, order, entries, i + 1, Some(t)) == train_from(
                fed,
                order,
                entries,
                i + 2,
                Some(t),
            ));
            assert(train_from(rows, order, removed, i, prev) == train_from(
                fed,
                order,
                removed,
                i + 1,
                Some(t),
            ));
            lemma_train_from_shift(fed, order, entries, i + 2, removed, i + 1, Some(t));
        }
    }
}

/// Consecutive-duplicate law: an entry that tokenizes exactly as the entry
/// before it contributes nothing, so removing it leaves the trained table
/// unchanged; a run of identical lines feeds the model once.
pub proof fn lemma_train_skips_adjacent_duplicate(
    rows: Seq<RowView>,
    order: nat,
    entries: Seq<Option<Seq<char>>>,
    i: int,
)
    requires
        0 <= i,
        i + 1 < entries.len(),
        entries[i] is Some,
        entries[i + 1] is Some,
        spec_tokenize(entries[i]->Some_0) == spec_tokenize(entries[i + 1]->Some_0),
    ensures
        spec_train(rows, order, entries) == spec_train(rows, order, entries.remove(i + 1)),
{
    lemma_train_from_dup(rows, order, entries, i, 0, None);
}

/// Per-file suppression law: every training pass starts with no previous
/// entry, so its first text-bearing entry is always fed — duplicate
/// suppression never crosses a file boundary.
pub proof fn lemma_train_first_entry_fed(
    rows: Seq<RowView>,
    order: nat,
    entries: Seq<Option<Seq<char>>>,
)
    requires
        entries.len() > 0,
        entries[0] is Some,
    ensures
        spec_train(rows, order, entries) == train_from(
            spec_feed(rows, order, spec_tokenize(entries[0]->Some_0)),
            order,
            entries,
            1,
            Some(spec_tokenize(entries[0]->Some_0)),
        ),
{
}

} // verus!
