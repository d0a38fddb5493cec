//! The interval algebra: the mathematical model of a day's block set and
//! the laws the insertion and removal operations obey.
//!
//! A block set is modelled as a sequence of blocks that is sorted by start
//! and strictly disjoint (no two blocks overlap or touch). Insertion is
//! modelled by [`add_spec`], removal by [`remove_spec`], and the time a set
//! covers by [`set_covers`], which counts the half-open minute range
//! `[from, to)` of each block.

use vstd::prelude::*;

use crate::block::Block;

verus! {

/// The invariant of a day's block sequence: every block is well formed,
/// and any two blocks are strictly disjoint, earlier one first. Strict
/// disjointness of the ordered pairs also makes the sequence sorted by
/// `from` (see [`lemma_inv_sorted`]).
pub open spec fn blocks_inv(s: Seq<Block>) -> bool {
    &&& forall|i: int| 0 <= i < s.len() ==> (#[trigger] s[i]).wf()
    &&& forall|i: int, j: int|
        0 <= i < j < s.len() ==> (#[trigger] s[i]).to < (#[trigger] s[j]).from
}

/// Whether the minute cell `t` lies inside some block of `s`.
pub open spec fn set_covers(s: Seq<Block>, t: int) -> bool {
    exists|i: int| 0 <= i < s.len() && (#[trigger] s[i]).covers(t)
}

/// Whether `b` overlaps or touches the (closed) range of `x`.
pub open spec fn touches(b: Block, x: Block) -> bool {
    b.to >= x.from && b.from <= x.to
}

/// The single block spanning `x` together with every block of `s` that
/// overlaps or touches it.
pub open spec fn merged_span(s: Seq<Block>, x: Block) -> Block
    decreases s.len(),
{
    if s.len() == 0 {
        x
    } else {
        let m = merged_span(s.drop_last(), x);
        let b = s.last();
        if touches(b, x) {
            Block {
                from: if m.from <= b.from { m.from } else { b.from },
                to: if m.to >= b.to { m.to } else { b.to },
            }
        } else {
            m
        }
    }
}

/// `x` placed into `s` just before the first block starting at or after
/// `x.from`.
pub open spec fn insert_sorted(s: Seq<Block>, x: Block) -> Seq<Block>
    decreases s.len(),
{
    if s.len() == 0 {
        seq![x]
    } else if s[0].from < x.from {
        seq![s[0]] + insert_sorted(s.drop_first(), x)
    } else {
        seq![x] + s
    }
}

/// The predicate keeping the blocks that `x` does not contain.
pub open spec fn outside(x: Block) -> spec_fn(Block) -> bool {
    |b: Block| !x.spec_contains(b)
}

/// The result of inserting `x` into `s`: the blocks swallowed by the merged
/// span disappear, and the span takes their place in start order.
pub open spec fn add_spec(s: Seq<Block>, x: Block) -> Seq<Block> {
    let m = merged_span(s, x);
    insert_sorted(s.filter(outside(m)), m)
}

/// Checking neighbours is enough: well-formed blocks whose neighbours are
/// strictly disjoint are pairwise strictly disjoint.
pub proof fn lemma_adjacent_inv(s: Seq<Block>)
    requires
        forall|i: int| 0 <= i < s.len() ==> (#[trigger] s[i]).wf(),
        forall|i: int| 0 <= i < s.len() - 1 ==> (#[trigger] s[i]).to < s[i + 1].from,
    ensures
        blocks_inv(s),
{
    assert forall|i: int, j: int| 0 <= i < j < s.len() implies (#[trigger] s[i]).to < (
    #[trigger] s[j]).from by {
        lemma_chain(s, i, j);
    }
}

proof fn lemma_chain(s: Seq<Block>, i: int, j: int)
    requires
        forall|k: int| 0 <= k < s.len() ==> (#[trigger] s[k]).wf(),
        forall|k: int| 0 <= k < s.len() - 1 ==> (#[trigger] s[k]).to < s[k + 1].from,
        0 <= i < j < s.len(),
    ensures
        s[i].to < s[j].from,
    decreases j - i,
{
    if j > i + 1 {
        lemma_chain(s, i, j - 1);
        assert(s[j - 1].to < s[j].from);
    }
}

/// Sortedness of the set: strict disjointness orders the starts as well.
/// This is the sortedness law: after any operation whose result satisfies
/// [`blocks_inv`], the sequence is sorted ascending by `from`.
pub proof fn lemma_inv_sorted(s: Seq<Block>)
    requires
        blocks_inv(s),
    ensures
        forall|i: int, j: int|
            0 <= i < j < s.len() ==> (#[trigger] s[i]).from < (#[trigger] s[j]).from,
{
    assert forall|i: int, j: int|
        0 <= i < j < s.len() implies (#[trigger] s[i]).from < (#[trigger] s[j]).from by {
        assert(s[i].wf());
        assert(s[i].to < s[j].from);
    }
}

/// In a disjoint set, at most one block contains a given instant.
pub proof fn lemma_point_unique(s: Seq<Block>, i: int, j: int, t: u32)
    requires
        blocks_inv(s),
        0 <= i < s.len(),
        0 <= j < s.len(),
        s[i].spec_contains_dt(t),
        s[j].spec_contains_dt(t),
    ensures
        i == j,
{
    if i < j {
        assert(s[i].to < s[j].from);
    }
    if j < i {
        assert(s[j].to < s[i].from);
    }
}

/// The merged span contains `x` and every touching block, starts at `x.from`
/// or at a touching block's start, and ends at `x.to` or at a touching
/// block's end.
pub proof fn lemma_merged_span_bounds(s: Seq<Block>, x: Block)
    ensures
        merged_span(s, x).from <= x.from,
        x.to <= merged_span(s, x).to,
        forall|k: int|
            0 <= k < s.len() && touches(#[trigger] s[k], x) ==> merged_span(s, x).from <= s[k].from
                && s[k].to <= merged_span(s, x).to,
        merged_span(s, x).from == x.from || exists|k: int|
            0 <= k < s.len() && touches(#[trigger] s[k], x) && s[k].from == merged_span(s, x).from,
        merged_span(s, x).to == x.to || exists|k: int|
            0 <= k < s.len() && touches(#[trigger] s[k], x) && s[k].to == merged_span(s, x).to,
    decreases s.len(),
{
    if s.len() > 0 {
        lemma_merged_span_bounds(s.drop_last(), x);
        assert(forall|k: int| 0 <= k < s.len() - 1 ==> s.drop_last()[k] == s[k]);
    }
}

/// A block of the set lies inside the merged span exactly when it overlaps
/// or touches `x`; otherwise it lies strictly outside the span.
pub proof fn lemma_span_contains(s: Seq<Block>, x: Block, i: int)
    requires
        blocks_inv(s),
        x.from <= x.to,
        0 <= i < s.len(),
    ensures
        touches(s[i], x) ==> merged_span(s, x).spec_contains(s[i]),
        !touches(s[i], x) ==> s[i].to < merged_span(s, x).from || merged_span(s, x).to
            < s[i].from,
{
    let m = merged_span(s, x);
    lemma_merged_span_bounds(s, x);
    if !touches(s[i], x) {
        let b = s[i];
        if b.to < x.from {
            // b ends before x starts; show it also ends before the span starts.
            if m.from != x.from {
                let k = choose|k: int|
                    0 <= k < s.len() && touches(#[trigger] s[k], x) && s[k].from == m.from;
                if k < i {
                    assert(s[k].to < b.from);
                } else if i < k {
                    assert(b.to < s[k].from);
                }
            }
        } else {
            assert(b.from > x.to);
            if m.to != x.to {
                let k = choose|k: int|
                    0 <= k < s.len() && touches(#[trigger] s[k], x) && s[k].to == m.to;
                if k < i {
                    assert(s[k].to < b.from);
                } else if i < k {
                    assert(b.to < s[k].from);
                }
            }
        }
    }
}

/// Filtering one pushed element unfolds pointwise.
pub proof fn lemma_filter_push<A>(s: Seq<A>, pred: spec_fn(A) -> bool, b: A)
    ensures
        s.push(b).filter(pred) == if pred(b) {
            s.filter(pred).push(b)
        } else {
            s.filter(pred)
        },
{
    reveal(Seq::filter);
    assert(s.push(b).drop_last() =~= s);
}

/// A filter that keeps everything is the identity.
pub proof fn lemma_filter_all(s: Seq<Block>, pred: spec_fn(Block) -> bool)
    requires
        forall|i: int| 0 <= i < s.len() ==> pred(#[trigger] s[i]),
    ensures
        s.filter(pred) == s,
    decreases s.len(),
{
    reveal(Seq::filter);
    if s.len() > 0 {
        lemma_filter_all(s.drop_last(), pred);
        assert(s.drop_last().push(s.last()) =~= s);
    }
}

/// A second, stronger filter pass subsumes a first, weaker one.
pub proof fn lemma_filter_subsume(
    s: Seq<Block>,
    p: spec_fn(Block) -> bool,
    q: spec_fn(Block) -> bool,
)
    requires
        forall|i: int| 0 <= i < s.len() ==> (q(#[trigger] s[i]) ==> p(s[i])),
    ensures
        s.filter(p).filter(q) == s.filter(q),
    decreases s.len(),
{
    reveal(Seq::filter);
    if s.len() > 0 {
        assert(forall|k: int| 0 <= k < s.len() - 1 ==> s.drop_last()[k] == s[k]);
        lemma_filter_subsume(s.drop_last(), p, q);
        let fp = s.drop_last().filter(p);
        if p(s.last()) {
            lemma_filter_push(fp, q, s.last());
        } else {
            assert(!q(s.last()));
        }
    }
}

/// A filtered sequence is a subsequence: its elements, and its ordered
/// pairs, all come from the unfiltered sequence in order.
pub proof fn lemma_filter_pairs<A>(s: Seq<A>, pred: spec_fn(A) -> bool)
    ensures
        forall|i: int|
            0 <= i < s.filter(pred).len() ==> exists|j: int|
                0 <= j < s.len() && s[j] == #[trigger] s.filter(pred)[i],
        forall|i: int, j: int|
            0 <= i < j < s.filter(pred).len() ==> exists|k: int, l: int|
                0 <= k < l < s.len() && s[k] == #[trigger] s.filter(pred)[i] && s[l]
                    == #[trigger] s.filter(pred)[j],
    decreases s.len(),
{
    reveal(Seq::filter);
    if s.len() > 0 {
        lemma_filter_pairs(s.drop_last(), pred);
        assert(forall|k: int| 0 <= k < s.len() - 1 ==> s.drop_last()[k] == s[k]);
        let f = s.filter(pred);
        let fd = s.drop_last().filter(pred);
        if pred(s.last()) {
            assert(f == fd.push(s.last()));
            assert forall|i: int, j: int| 0 <= i < j < f.len() implies exists|k: int, l: int|
                0 <= k < l < s.len() && s[k] == #[trigger] f[i] && s[l] == #[trigger] f[j] by {
                if j < f.len() - 1 {
                    assert(f[i] == fd[i] && f[j] == fd[j]);
                    let (k, l): (int, int) = choose|k: int, l: int|
                        0 <= k < l < s.len() - 1 && s[k] == fd[i] && s[l] == fd[j];
                    assert(0 <= k < l < s.len() && s[k] == f[i] && s[l] == f[j]);
                } else {
                    assert(f[i] == fd[i]);
                    let k = choose|k: int| 0 <= k < s.len() - 1 && s[k] == fd[i];
                    assert(s[k] == f[i] && s[s.len() - 1] == f[j]);
                }
            }
        }
    }
}

/// Filtering keeps the invariant: the kept blocks are a subsequence.
pub proof fn lemma_filter_inv(s: Seq<Block>, pred: spec_fn(Block) -> bool)
    requires
        blocks_inv(s),
    ensures
        blocks_inv(s.filter(pred)),
        forall|i: int|
            0 <= i < s.filter(pred).len() ==> exists|j: int|
                0 <= j < s.len() && s[j] == #[trigger] s.filter(pred)[i],
        forall|i: int, j: int|
            0 <= i < j < s.filter(pred).len() ==> exists|k: int, l: int|
                0 <= k < l < s.len() && s[k] == #[trigger] s.filter(pred)[i] && s[l]
                    == #[trigger] s.filter(pred)[j],
    decreases s.len(),
{
    reveal(Seq::filter);
    if s.len() > 0 {
        lemma_filter_inv(s.drop_last(), pred);
        assert(forall|k: int| 0 <= k < s.len() - 1 ==> s.drop_last()[k] == s[k]);
        let f = s.filter(pred);
        let fd = s.drop_last().filter(pred);
        if pred(s.last()) {
            assert(f == fd.push(s.last()));
            assert forall|i: int, j: int| 0 <= i < j < f.len() implies exists|k: int, l: int|
                0 <= k < l < s.len() && s[k] == #[trigger] f[i] && s[l] == #[trigger] f[j] by {
                if j < f.len() - 1 {
                    assert(f[i] == fd[i] && f[j] == fd[j]);
                    let (k, l): (int, int) = choose|k: int, l: int|
                        0 <= k < l < s.len() - 1 && s[k] == fd[i] && s[l] == fd[j];
                    assert(0 <= k < l < s.len() && s[k] == f[i] && s[l] == f[j]);
                } else {
                    assert(f[i] == fd[i]);
                    let k = choose|k: int| 0 <= k < s.len() - 1 && s[k] == fd[i];
                    assert(s[k] == f[i] && s[s.len() - 1] == f[j]);
                }
            }
            assert forall|i: int, j: int| 0 <= i < j < f.len() implies (#[trigger] f[i]).to
                < (#[trigger] f[j]).from by {
                let (k, l): (int, int) = choose|k: int, l: int|
                    0 <= k < l < s.len() && s[k] == f[i] && s[l] == f[j];
                assert(s[k].to < s[l].from);
            }
        }
    }
}

/// Inserting a block that is strictly disjoint from every element keeps the
/// invariant.
pub proof fn lemma_insert_sorted_inv(s: Seq<Block>, x: Block)
    requires
        blocks_inv(s),
        x.wf(),
        forall|i: int| 0 <= i < s.len() ==> (#[trigger] s[i]).to < x.from || x.to < s[i].from,
    ensures
        blocks_inv(insert_sorted(s, x)),
    decreases s.len(),
{
    let r = insert_sorted(s, x);
    if s.len() == 0 {
    } else if s[0].from < x.from {
        assert(forall|k: int| 0 <= k < s.len() - 1 ==> s.drop_first()[k] == s[k + 1]);
        lemma_insert_sorted_inv(s.drop_first(), x);
        let rr = insert_sorted(s.drop_first(), x);
        assert(r == seq![s[0]] + rr);
        // s[0] ends before x and before every later block, so before all of rr.
        assert(s[0].to < x.from);
        lemma_insert_sorted_members(s.drop_first(), x);
        assert forall|i: int, j: int| 0 <= i < j < r.len() implies (#[trigger] r[i]).to
            < (#[trigger] r[j]).from by {
            if i > 0 {
                assert(r[i] == rr[i - 1] && r[j] == rr[j - 1]);
            } else {
                assert(r[j] == rr[j - 1]);
                if rr[j - 1] == x {
                    assert(s[0].to < x.from);
                } else {
                    let k = choose|k: int|
                        0 <= k < s.drop_first().len() && s.drop_first()[k] == rr[j - 1];
                    assert(s[0].to < s[k + 1].from);
                }
            }
        }
    } else {
        assert(r == seq![x] + s);
        assert forall|i: int, j: int| 0 <= i < j < r.len() implies (#[trigger] r[i]).to
            < (#[trigger] r[j]).from by {
            if i == 0 {
                assert(r[j] == s[j - 1]);
                assert(s[j - 1].to < x.from || x.to < s[j - 1].from);
                if s[j - 1].to < x.from {
                    assert(s[j - 1].from <= s[j - 1].to);
                    assert(s[0].from <= s[j - 1].from || j - 1 == 0);
                    if j - 1 > 0 {
                        assert(s[0].to < s[j - 1].from);
                    }
                    assert(false);
                }
            } else {
                assert(r[i] == s[i - 1] && r[j] == s[j - 1]);
            }
        }
    }
}

/// The members of `insert_sorted(s, x)` are exactly those of `s` plus `x`.
pub proof fn lemma_insert_sorted_members(s: Seq<Block>, x: Block)
    ensures
        insert_sorted(s, x).len() == s.len() + 1,
        forall|i: int|
            0 <= i < insert_sorted(s, x).len() ==> (#[trigger] insert_sorted(s, x)[i] == x
                || exists|j: int| 0 <= j < s.len() && s[j] == insert_sorted(s, x)[i]),
        insert_sorted(s, x).contains(x),
        forall|j: int|
            0 <= j < s.len() ==> insert_sorted(s, x).contains(#[trigger] s[j]),
    decreases s.len(),
{
    let r = insert_sorted(s, x);
    if s.len() == 0 {
        assert(r[0] == x);
    } else if s[0].from < x.from {
        lemma_insert_sorted_members(s.drop_first(), x);
        let rr = insert_sorted(s.drop_first(), x);
        assert(forall|k: int| 0 <= k < s.len() - 1 ==> s.drop_first()[k] == s[k + 1]);
        assert(r == seq![s[0]] + rr);
        assert forall|i: int| 0 <= i < r.len() implies (#[trigger] r[i] == x || exists|j: int|
            0 <= j < s.len() && s[j] == r[i]) by {
            if i == 0 {
                assert(s[0] == r[0]);
            } else {
                assert(r[i] == rr[i - 1]);
                if rr[i - 1] != x {
                    let j = choose|j: int|
                        0 <= j < s.drop_first().len() && s.drop_first()[j] == rr[i - 1];
                    assert(s[j + 1] == r[i]);
                }
            }
        }
        let ki = choose|ki: int| 0 <= ki < rr.len() && rr[ki] == x;
        assert(r[ki + 1] == x);
        assert forall|j: int| 0 <= j < s.len() implies r.contains(#[trigger] s[j]) by {
            if j == 0 {
                assert(r[0] == s[0]);
            } else {
                assert(rr.contains(s.drop_first()[j - 1]));
                let k = choose|k: int| 0 <= k < rr.len() && rr[k] == s[j];
                assert(r[k + 1] == s[j]);
            }
        }
    } else {
        assert(r == seq![x] + s);
        assert(r[0] == x);
        assert forall|j: int| 0 <= j < s.len() implies r.contains(#[trigger] s[j]) by {
            assert(r[j + 1] == s[j]);
        }
    }
}

/// Insertion and the merged span preserve and gain exactly the right cells.
pub proof fn lemma_insert_sorted_covers(s: Seq<Block>, x: Block, t: int)
    ensures
        set_covers(insert_sorted(s, x), t) <==> (set_covers(s, t) || x.covers(t)),
{
    let r = insert_sorted(s, x);
    lemma_insert_sorted_members(s, x);
    if set_covers(r, t) {
        let i = choose|i: int| 0 <= i < r.len() && (#[trigger] r[i]).covers(t);
        if r[i] != x {
            let j = choose|j: int| 0 <= j < s.len() && s[j] == r[i];
            assert(set_covers(s, t));
        }
    }
    if set_covers(s, t) {
        let i = choose|i: int| 0 <= i < s.len() && (#[trigger] s[i]).covers(t);
        let k = choose|k: int| 0 <= k < r.len() && r[k] == s[i];
        assert(set_covers(r, t));
    }
    if x.covers(t) {
        let k = choose|k: int| 0 <= k < r.len() && r[k] == x;
        assert(set_covers(r, t));
    }
}

/// Where exactly `insert_sorted` puts the new block: before the first
/// element whose start is not below `x.from`.
pub proof fn lemma_insert_sorted_at(s: Seq<Block>, x: Block, k: int)
    requires
        0 <= k <= s.len(),
        forall|j: int| 0 <= j < k ==> (#[trigger] s[j]).from < x.from,
        forall|j: int| k <= j < s.len() ==> x.from <= (#[trigger] s[j]).from,
    ensures
        insert_sorted(s, x) == s.take(k) + seq![x] + s.skip(k),
    decreases s.len(),
{
    if s.len() == 0 {
        assert(insert_sorted(s, x) =~= s.take(k) + seq![x] + s.skip(k));
    } else if s[0].from < x.from {
        assert(k > 0);
        assert(forall|j: int| 0 <= j < s.len() - 1 ==> s.drop_first()[j] == s[j + 1]);
        lemma_insert_sorted_at(s.drop_first(), x, k - 1);
        assert(insert_sorted(s, x) =~= s.take(k) + seq![x] + s.skip(k));
    } else {
        assert(k == 0);
        assert(insert_sorted(s, x) =~= s.take(k) + seq![x] + s.skip(k));
    }
}

/// A filter that drops exactly one position cuts that position out.
pub proof fn lemma_filter_except(s: Seq<Block>, pred: spec_fn(Block) -> bool, i: int)
    requires
        0 <= i < s.len(),
        forall|k: int| 0 <= k < s.len() && k != i ==> pred(#[trigger] s[k]),
        !pred(s[i]),
    ensures
        s.filter(pred) == s.take(i) + s.skip(i + 1),
    decreases s.len(),
{
    reveal(Seq::filter);
    if i == s.len() - 1 {
        lemma_filter_all(s.drop_last(), pred);
        assert(s.filter(pred) =~= s.take(i) + s.skip(i + 1));
    } else {
        lemma_filter_except(s.drop_last(), pred, i);
        assert(forall|k: int| 0 <= k < s.len() - 1 ==> s.drop_last()[k] == s[k]);
        assert(s.filter(pred) =~= s.take(i) + s.skip(i + 1));
    }
}

/// Adding a block already contained in the set leaves the set unchanged:
/// insertion is a no-op on covered sub-ranges.
pub proof fn lemma_contained_add_noop(s: Seq<Block>, x: Block, i: int)
    requires
        blocks_inv(s),
        x.from <= x.to,
        0 <= i < s.len(),
        s[i].spec_contains(x),
    ensures
        add_spec(s, x) == s,
{
    let m = merged_span(s, x);
    lemma_merged_span_bounds(s, x);
    // Only block i touches x.
    assert forall|k: int| 0 <= k < s.len() && k != i implies !touches(#[trigger] s[k], x) by {
        if k < i {
            assert(s[k].to < s[i].from);
        } else {
            assert(s[i].to < s[k].from);
        }
    }
    assert(touches(s[i], x));
    assert(m.from == s[i].from) by {
        assert(m.from <= s[i].from);
        if m.from != x.from {
            let k = choose|k: int|
                0 <= k < s.len() && touches(#[trigger] s[k], x) && s[k].from == m.from;
            assert(k == i);
        }
    }
    assert(m.to == s[i].to) by {
        assert(s[i].to <= m.to);
        if m.to != x.to {
            let k = choose|k: int|
                0 <= k < s.len() && touches(#[trigger] s[k], x) && s[k].to == m.to;
            assert(k == i);
        }
    }
    let pred = outside(m);
    assert forall|k: int| 0 <= k < s.len() && k != i implies pred(#[trigger] s[k]) by {
        if k < i {
            assert(s[k].to < s[i].from);
            assert(s[k].from <= s[k].to);
        } else {
            assert(s[i].to < s[k].from);
            assert(s[k].from <= s[k].to);
        }
    }
    lemma_filter_except(s, pred, i);
    let f = s.take(i) + s.skip(i + 1);
    lemma_inv_sorted(s);
    lemma_insert_sorted_at(f, m, i);
    assert(add_spec(s, x) =~= s);
}

/// Insertion preserves the invariant: the result is again a sorted set of
/// well-formed, pairwise strictly disjoint blocks (the disjointness and
/// sortedness laws for `add`).
pub proof fn lemma_add_inv(s: Seq<Block>, x: Block)
    requires
        blocks_inv(s),
        x.wf(),
    ensures
        blocks_inv(add_spec(s, x)),
{
    let m = merged_span(s, x);
    lemma_merged_span_bounds(s, x);
    assert(m.wf()) by {
        if m.to != x.to {
            let k = choose|k: int|
                0 <= k < s.len() && touches(#[trigger] s[k], x) && s[k].to == m.to;
            assert(s[k].wf());
        }
    }
    let pred = outside(m);
    let f = s.filter(pred);
    lemma_filter_inv(s, pred);
    assert forall|i: int| 0 <= i < f.len() implies (#[trigger] f[i]).to < m.from || m.to
        < f[i].from by {
        let j = choose|j: int| 0 <= j < s.len() && s[j] == f[i];
        lemma_span_contains(s, x, j);
        broadcast use vstd::seq_lib::group_filter_ensures;

        assert(pred(f[i]));
        assert(!touches(s[j], x));
    }
    lemma_insert_sorted_inv(f, m);
}

/// Union correctness: after insertion the covered time is exactly the old
/// covered time together with the time the new block covers.
pub proof fn lemma_add_covers(s: Seq<Block>, x: Block, t: int)
    requires
        blocks_inv(s),
        x.from <= x.to,
    ensures
        set_covers(add_spec(s, x), t) <==> (set_covers(s, t) || x.covers(t)),
{
    let m = merged_span(s, x);
    lemma_merged_span_bounds(s, x);
    let pred = outside(m);
    let f = s.filter(pred);
    lemma_insert_sorted_covers(f, m, t);
    lemma_filter_inv(s, pred);
    if set_covers(f, t) {
        let i = choose|i: int| 0 <= i < f.len() && (#[trigger] f[i]).covers(t);
        let j = choose|j: int| 0 <= j < s.len() && s[j] == f[i];
        assert(set_covers(s, t));
    }
    if m.covers(t) && !x.covers(t) {
        if t < x.from {
            assert(m.from != x.from);
            let k = choose|k: int|
                0 <= k < s.len() && touches(#[trigger] s[k], x) && s[k].from == m.from;
            assert(s[k].covers(t));
            assert(set_covers(s, t));
        } else {
            assert(t >= x.to);
            assert(m.to != x.to);
            let k = choose|k: int|
                0 <= k < s.len() && touches(#[trigger] s[k], x) && s[k].to == m.to;
            assert(s[k].covers(t));
            assert(set_covers(s, t));
        }
    }
    if set_covers(s, t) {
        let i = choose|i: int| 0 <= i < s.len() && (#[trigger] s[i]).covers(t);
        if pred(s[i]) {
            broadcast use vstd::seq_lib::group_filter_ensures;

            assert(f.contains(s[i]));
            let k = choose|k: int| 0 <= k < f.len() && f[k] == s[i];
            assert(set_covers(f, t));
        } else {
            assert(m.covers(t));
        }
    }
}

/// Idempotence of insertion: adding the same block twice changes nothing
/// after the first time.
pub proof fn lemma_add_idempotent(s: Seq<Block>, x: Block)
    requires
        blocks_inv(s),
        x.wf(),
    ensures
        add_spec(add_spec(s, x), x) == add_spec(s, x),
{
    let m = merged_span(s, x);
    lemma_merged_span_bounds(s, x);
    let u = add_spec(s, x);
    lemma_add_inv(s, x);
    lemma_insert_sorted_members(s.filter(outside(m)), m);
    let i = choose|i: int| 0 <= i < u.len() && u[i] == m;
    assert(u[i].spec_contains(x));
    lemma_contained_add_noop(u, x, i);
}

/// What removal of the range `x` leaves of a single block `b`: deletion if
/// `x` covers all of it, a split if `x` sits strictly inside it, a tail or
/// head truncation if one end of `x` falls inside it, otherwise `b` itself.
/// An ongoing removal range strictly inside a block splits it and the two
/// halves merge back together, so the block survives whole; an ongoing range
/// at a block's boundary collapses the block to an ongoing marker.
pub open spec fn pieces(b: Block, x: Block) -> Seq<Block> {
    if x.spec_contains(b) {
        seq![]
    } else if b.spec_strictly_contains(x) {
        if x.spec_is_ongoing() {
            seq![b]
        } else {
            seq![Block { from: b.from, to: x.from }, Block { from: x.to, to: b.to }]
        }
    } else if b.spec_contains_dt(x.from) {
        if x.spec_is_ongoing() {
            seq![Block { from: x.from, to: x.from }]
        } else {
            seq![Block { from: b.from, to: x.from }]
        }
    } else if b.spec_contains_dt(x.to) {
        seq![Block { from: x.to, to: b.to }]
    } else {
        seq![b]
    }
}

/// The result of removing the range `x` from the set: each block is replaced
/// by what the removal leaves of it, in order.
pub open spec fn remove_spec(s: Seq<Block>, x: Block) -> Seq<Block>
    decreases s.len(),
{
    if s.len() == 0 {
        seq![]
    } else {
        pieces(s[0], x) + remove_spec(s.drop_first(), x)
    }
}

/// The inputs on which removal subtracts exactly the covered time. Removal
/// loses extra time when a block starts exactly at `x.from` and outlives
/// `x.to` (the truncation collapses it to an ongoing marker), and when an
/// ongoing removal range hits a non-ongoing block's boundary.
pub open spec fn removal_exact_at(b: Block, x: Block) -> bool {
    &&& b.from == x.from ==> b.to <= x.to
    &&& x.spec_is_ongoing() ==> ((b.from == x.from || b.to == x.to) ==> b.from == b.to)
}

pub open spec fn removal_exact(s: Seq<Block>, x: Block) -> bool {
    forall|i: int| 0 <= i < s.len() ==> removal_exact_at(#[trigger] s[i], x)
}

/// Every piece of a block stays inside the block's own range, and the
/// pieces are well formed and strictly disjoint among themselves.
pub proof fn lemma_pieces_props(b: Block, x: Block)
    requires
        b.wf(),
        x.from <= x.to,
    ensures
        forall|i: int|
            0 <= i < pieces(b, x).len() ==> (#[trigger] pieces(b, x)[i]).wf() && b.from <= pieces(
                b,
                x,
            )[i].from && pieces(b, x)[i].to <= b.to,
        forall|i: int, j: int|
            0 <= i < j < pieces(b, x).len() ==> (#[trigger] pieces(b, x)[i]).to < (
            #[trigger] pieces(b, x)[j]).from,
{
}

/// Removal distributes over appending one block at the end.
pub proof fn lemma_remove_spec_push(s: Seq<Block>, x: Block, b: Block)
    ensures
        remove_spec(s.push(b), x) == remove_spec(s, x) + pieces(b, x),
    decreases s.len(),
{
    if s.len() == 0 {
        assert(s.push(b).drop_first() =~= Seq::<Block>::empty());
        assert(s.push(b)[0] == b);
        assert(remove_spec(s.push(b), x) == pieces(b, x) + remove_spec(
            Seq::<Block>::empty(),
            x,
        ));
        assert(remove_spec(s.push(b), x) =~= remove_spec(s, x) + pieces(b, x));
    } else {
        assert(s.push(b).drop_first() =~= s.drop_first().push(b));
        lemma_remove_spec_push(s.drop_first(), x, b);
        assert(remove_spec(s.push(b), x) =~= remove_spec(s, x) + pieces(b, x));
    }
}

/// Blocks that the removal range swallows whole contribute nothing, so they
/// may be dropped before looking at the rest.
pub proof fn lemma_remove_filter(s: Seq<Block>, x: Block)
    ensures
        remove_spec(s.filter(outside(x)), x) == remove_spec(s, x),
    decreases s.len(),
{
    reveal(Seq::filter);
    let pred = outside(x);
    if s.len() > 0 {
        lemma_remove_filter(s.drop_last(), x);
        assert(s.drop_last().push(s.last()) =~= s);
        lemma_remove_spec_push(s.drop_last(), x, s.last());
        if pred(s.last()) {
            lemma_remove_spec_push(s.drop_last().filter(pred), x, s.last());
        } else {
            assert(pieces(s.last(), x) =~= Seq::<Block>::empty());
            assert(remove_spec(s.drop_last(), x) + pieces(s.last(), x) =~= remove_spec(
                s.drop_last(),
                x,
            ));
        }
    }
}

/// When every block but one is left untouched, removal only rewrites that
/// one position.
pub proof fn lemma_remove_at(s: Seq<Block>, x: Block, j: int)
    requires
        0 <= j < s.len(),
        forall|k: int| 0 <= k < s.len() && k != j ==> pieces(#[trigger] s[k], x) == seq![s[k]],
    ensures
        remove_spec(s, x) == s.take(j) + pieces(s[j], x) + s.skip(j + 1),
    decreases s.len(),
{
    assert(forall|k: int| 0 <= k < s.len() - 1 ==> s.drop_first()[k] == s[k + 1]);
    if j == 0 {
        assert forall|k: int| 0 <= k < s.drop_first().len() implies pieces(
            #[trigger] s.drop_first()[k],
            x,
        ) == seq![s.drop_first()[k]] by {
            assert(s.drop_first()[k] == s[k + 1]);
        }
        lemma_remove_untouched(s.drop_first(), x);
        assert(remove_spec(s, x) =~= s.take(j) + pieces(s[j], x) + s.skip(j + 1));
    } else {
        lemma_remove_at(s.drop_first(), x, j - 1);
        assert(remove_spec(s, x) =~= s.take(j) + pieces(s[j], x) + s.skip(j + 1));
    }
}

/// When removal touches no block at all, the set is unchanged.
pub proof fn lemma_remove_untouched(s: Seq<Block>, x: Block)
    requires
        forall|k: int| 0 <= k < s.len() ==> pieces(#[trigger] s[k], x) == seq![s[k]],
    ensures
        remove_spec(s, x) == s,
    decreases s.len(),
{
    if s.len() > 0 {
        assert(forall|k: int| 0 <= k < s.len() - 1 ==> s.drop_first()[k] == s[k + 1]);
        lemma_remove_untouched(s.drop_first(), x);
        assert(remove_spec(s, x) =~= s);
    }
}

/// When removal leaves exactly one piece of every block, the result is the
/// pointwise image of the set.
pub proof fn lemma_remove_singletons(s: Seq<Block>, x: Block)
    requires
        forall|k: int| 0 <= k < s.len() ==> pieces(#[trigger] s[k], x).len() == 1,
    ensures
        remove_spec(s, x) == Seq::new(s.len(), |k: int| pieces(s[k], x)[0]),
    decreases s.len(),
{
    if s.len() > 0 {
        assert(forall|k: int| 0 <= k < s.len() - 1 ==> s.drop_first()[k] == s[k + 1]);
        lemma_remove_singletons(s.drop_first(), x);
        assert(remove_spec(s, x) =~= Seq::new(s.len(), |k: int| pieces(s[k], x)[0]));
    }
}

/// Removal preserves the invariant: the result is again a sorted set of
/// well-formed, pairwise strictly disjoint blocks (the disjointness and
/// sortedness laws for `remove`).
pub proof fn lemma_remove_inv(s: Seq<Block>, x: Block)
    requires
        blocks_inv(s),
        x.from <= x.to,
    ensures
        blocks_inv(remove_spec(s, x)),
        forall|i: int|
            0 <= i < remove_spec(s, x).len() ==> s.len() > 0 && s[0].from <= (
            #[trigger] remove_spec(s, x)[i]).from,
    decreases s.len(),
{
    if s.len() > 0 {
        assert(forall|k: int| 0 <= k < s.len() - 1 ==> s.drop_first()[k] == s[k + 1]);
        lemma_remove_inv(s.drop_first(), x);
        lemma_pieces_props(s[0], x);
        let p = pieces(s[0], x);
        let rest = remove_spec(s.drop_first(), x);
        let r = remove_spec(s, x);
        assert(r == p + rest);
        assert forall|i: int, j: int| 0 <= i < j < r.len() implies (#[trigger] r[i]).to
            < (#[trigger] r[j]).from by {
            if i < p.len() && j >= p.len() {
                assert(r[i] == p[i] && r[j] == rest[j - p.len()]);
                assert(r[i].to <= s[0].to);
                assert(s[1].from <= r[j].from);
                assert(s[0].to < s[1].from);
            } else if j < p.len() {
                assert(r[i] == p[i] && r[j] == p[j]);
            } else {
                assert(r[i] == rest[i - p.len()] && r[j] == rest[j - p.len()]);
            }
        }
        assert forall|i: int| 0 <= i < r.len() implies s[0].from <= (#[trigger] r[i]).from by {
            if i >= p.len() {
                assert(r[i] == rest[i - p.len()]);
                assert(s[1].from <= r[i].from);
                assert(s[0].to < s[1].from);
            }
        }
    }
}

/// What removal leaves of one block covers exactly the block's time outside
/// the removed range, on inputs where removal is exact.
pub proof fn lemma_pieces_covers(b: Block, x: Block, t: int)
    requires
        b.wf(),
        x.from <= x.to,
        removal_exact_at(b, x),
    ensures
        set_covers(pieces(b, x), t) <==> (b.covers(t) && !x.covers(t)),
{
    let p = pieces(b, x);
    if b.covers(t) && !x.covers(t) {
        if x.spec_contains(b) {
            assert(false);
        } else if b.spec_strictly_contains(x) {
            if x.spec_is_ongoing() {
                assert(p[0].covers(t));
            } else {
                if t < x.from {
                    assert(p[0].covers(t));
                } else {
                    assert(p[1].covers(t));
                }
            }
        } else if b.spec_contains_dt(x.from) {
            assert(p[0].covers(t));
        } else if b.spec_contains_dt(x.to) {
            assert(p[0].covers(t));
        } else {
            assert(p[0].covers(t));
        }
    }
    if set_covers(p, t) {
        let i = choose|i: int| 0 <= i < p.len() && (#[trigger] p[i]).covers(t);
        assert(b.covers(t) && !x.covers(t));
    }
}

/// Subtraction correctness: on exact inputs, the time covered after removal
/// is the time covered before, minus the time the removed range covers.
pub proof fn lemma_remove_covers(s: Seq<Block>, x: Block, t: int)
    requires
        blocks_inv(s),
        x.from <= x.to,
        removal_exact(s, x),
    ensures
        set_covers(remove_spec(s, x), t) <==> (set_covers(s, t) && !x.covers(t)),
    decreases s.len(),
{
    if s.len() == 0 {
    } else {
        assert(forall|k: int| 0 <= k < s.len() - 1 ==> s.drop_first()[k] == s[k + 1]);
        lemma_remove_covers(s.drop_first(), x, t);
        lemma_pieces_covers(s[0], x, t);
        let p = pieces(s[0], x);
        let rest = remove_spec(s.drop_first(), x);
        let r = remove_spec(s, x);
        assert(set_covers(r, t) <==> (set_covers(p, t) || set_covers(rest, t))) by {
            if set_covers(r, t) {
                let i = choose|i: int| 0 <= i < r.len() && (#[trigger] r[i]).covers(t);
                if i < p.len() {
                    assert(p[i].covers(t));
                } else {
                    assert(rest[i - p.len()].covers(t));
                }
            }
            if set_covers(p, t) {
                let i = choose|i: int| 0 <= i < p.len() && (#[trigger] p[i]).covers(t);
                assert(r[i].covers(t));
            }
            if set_covers(rest, t) {
                let i = choose|i: int| 0 <= i < rest.len() && (#[trigger] rest[i]).covers(t);
                assert(r[i + p.len()].covers(t));
            }
        }
        assert(set_covers(s, t) <==> (s[0].covers(t) || set_covers(s.drop_first(), t))) by {
            if set_covers(s, t) {
                let i = choose|i: int| 0 <= i < s.len() && (#[trigger] s[i]).covers(t);
                if i > 0 {
                    assert(s.drop_first()[i - 1].covers(t));
                }
            }
            if set_covers(s.drop_first(), t) {
                let i = choose|i: int|
                    0 <= i < s.drop_first().len() && (#[trigger] s.drop_first()[i]).covers(t);
                assert(s[i + 1].covers(t));
            }
        }
    }
}

} // verus!
