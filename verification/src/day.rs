//! One day's record: its date, its worked blocks, and an optional comment.
//!
//! The block sequence always satisfies [`crate::algebra::blocks_inv`]:
//! sorted by start and strictly disjoint. [`Day::add_block`] merges the new
//! range into the set, [`Day::remove_block`] subtracts a range, truncating
//! or splitting blocks that partly overlap it.

use vstd::prelude::*;
use vstd::pervasive::VecAdditionalExecFns;

use crate::algebra::add_spec;
use crate::algebra::outside;
use crate::algebra::blocks_inv;
use crate::algebra::lemma_adjacent_inv;
use crate::algebra::lemma_contained_add_noop;
use crate::algebra::lemma_add_inv;
use crate::algebra::lemma_filter_subsume;
use crate::algebra::lemma_filter_all;
use crate::algebra::lemma_filter_except;
use crate::algebra::lemma_filter_inv;
use crate::algebra::lemma_filter_push;
use crate::algebra::lemma_insert_sorted_at;
use crate::algebra::lemma_inv_sorted;
use crate::algebra::lemma_merged_span_bounds;
use crate::algebra::lemma_point_unique;
use crate::algebra::merged_span;
use crate::algebra::insert_sorted;
use crate::algebra::pieces;
use crate::algebra::remove_spec;
use crate::algebra::lemma_remove_at;
use crate::algebra::lemma_remove_filter;
use crate::algebra::lemma_remove_inv;
use crate::algebra::lemma_remove_singletons;
use crate::algebra::lemma_remove_untouched;
use crate::algebra::touches;
use crate::block::Block;
use crate::date::Date;
use crate::PunchError;

verus! {

/// Sum of the blocks' durations, in seconds.
pub open spec fn blocks_duration(s: Seq<Block>) -> int
    decreases s.len(),
{
    if s.len() == 0 {
        0
    } else {
        blocks_duration(s.drop_last()) + s.last().spec_duration()
    }
}

/// Disjoint blocks never add up to more than the span from the first start
/// to the last end; in particular a day's total stays under 24 hours.
pub proof fn lemma_blocks_duration_bound(s: Seq<Block>)
    requires
        blocks_inv(s),
    ensures
        0 <= blocks_duration(s),
        s.len() > 0 ==> blocks_duration(s) <= (s.last().to - s[0].from) * 60,
    decreases s.len(),
{
    if s.len() > 0 {
        assert(forall|k: int| 0 <= k < s.len() - 1 ==> s.drop_last()[k] == s[k]);
        lemma_blocks_duration_bound(s.drop_last());
        if s.len() >= 2 {
            assert(s[s.len() - 2].to < s.last().from);
        }
    }
}

/// One day's record.
///
/// At most one block of a day is expected to be ongoing at a time; that is
/// a convention of how callers open and close blocks, not something the
/// insertion or removal algorithms enforce or rely on.
#[derive(Debug)]
pub struct Day {
    pub date: Date,
    pub blocks: Vec<Block>,
    pub comment: Option<String>,
}

impl Clone for Day {
    fn clone(&self) -> (res: Day)
        ensures
            res.date == self.date,
            res.blocks@ == self.blocks@,
            res.comment is Some <==> self.comment is Some,
            self.comment is Some ==> res.comment->0@ == self.comment->0@,
    {
        let comment = match &self.comment {
            Some(c) => Some(c.clone()),
            None => None,
        };
        let blocks = self.blocks.clone();
        proof {
            assert forall|i: int| 0 <= i < self.blocks@.len() implies blocks@[i]
                == self.blocks@[i] by {
                assert(vstd::pervasive::cloned::<Block>(self.blocks@[i], blocks@[i]));
            }
            assert(blocks@ =~= self.blocks@);
        }
        Day { date: self.date, blocks, comment }
    }
}

impl Day {
    /// The day's invariant: a valid date and a block sequence that is
    /// sorted, well formed and strictly disjoint.
    pub open spec fn wf(self) -> bool {
        &&& self.date.wf()
        &&& blocks_inv(self.blocks@)
    }

    pub open spec fn spec_duration(self) -> int {
        blocks_duration(self.blocks@)
    }

    pub open spec fn spec_is_empty(self) -> bool {
        self.blocks@.len() == 0 && self.comment is None
    }

    /// A fresh, empty record for the given date.
    pub fn from_date(date: &Date) -> (r: Day)
        ensures
            r.date == *date,
            r.blocks@ == Seq::<Block>::empty(),
            r.comment is None,
            date.wf() ==> r.wf(),
    {
        Day { date: *date, blocks: Vec::new(), comment: None }
    }

    /// Total worked time of the day, in seconds.
    pub fn duration(&self) -> (d: u64)
        requires
            self.wf(),
        ensures
            d == self.spec_duration(),
            d <= 86340,
    {
        let n = self.blocks.len();
        let mut total: u64 = 0;
        let mut i: usize = 0;
        while i < n
            invariant
                self.wf(),
                n == self.blocks.len(),
                i <= n,
                total == blocks_duration(self.blocks@.take(i as int)),
                total <= 86340,
            decreases n - i,
        {
            let s = Ghost(self.blocks@);
            proof {
                assert(s@.take(i + 1).drop_last() =~= s@.take(i as int));
                assert(s@.take(i + 1).last() == s@[i as int]);
                assert forall|a: int, b: int| 0 <= a < b < i + 1 implies (#[trigger] s@.take(
                    i + 1,
                )[a]).to < (#[trigger] s@.take(i + 1)[b]).from by {
                    assert(s@.take(i + 1)[a] == s@[a] && s@.take(i + 1)[b] == s@[b]);
                }
                assert forall|a: int| 0 <= a < i + 1 implies (#[trigger] s@.take(i + 1)[a]).wf()
                    by {
                    assert(s@.take(i + 1)[a] == s@[a]);
                }
                lemma_blocks_duration_bound(s@.take(i + 1));
            }
            total = total + self.blocks[i].duration();
            i += 1;
        }
        proof {
            assert(self.blocks@.take(n as int) =~= self.blocks@);
        }
        total
    }

    pub fn add_comment(&mut self, comment: &str)
        ensures
            final(self).date == old(self).date,
            final(self).blocks@ == old(self).blocks@,
            final(self).comment is Some,
            final(self).comment->0@ == comment@,
    {
        self.comment = Some(comment.to_owned());
    }

    pub fn clear_comment(&mut self)
        ensures
            final(self).date == old(self).date,
            final(self).blocks@ == old(self).blocks@,
            final(self).comment is None,
    {
        self.comment = None;
    }

    /// The first ongoing block, if the day has one.
    pub fn find_ongoing_block(&self) -> (r: Option<&Block>)
        ensures
            match r {
                Some(b) => exists|i: int|
                    0 <= i < self.blocks@.len() && #[trigger] self.blocks@[i] == *b
                        && b.spec_is_ongoing() && (forall|k: int|
                        0 <= k < i ==> !(#[trigger] self.blocks@[k]).spec_is_ongoing()),
                None => forall|i: int|
                    0 <= i < self.blocks@.len() ==> !(
                    #[trigger] self.blocks@[i]).spec_is_ongoing(),
            },
    {
        let n = self.blocks.len();
        let mut i: usize = 0;
        while i < n
            invariant
                n == self.blocks.len(),
                i <= n,
                forall|k: int| 0 <= k < i ==> !(#[trigger] self.blocks@[k]).spec_is_ongoing(),
            decreases n - i,
        {
            if self.blocks[i].is_ongoing() {
                return Some(&self.blocks[i]);
            }
            i += 1;
        }
        None
    }

    /// A day with no blocks and no comment carries no information and is
    /// dropped from its month on cleanup.
    pub fn is_empty(&self) -> (r: bool)
        ensures
            r == self.spec_is_empty(),
    {
        self.blocks.is_empty() && self.comment.is_none()
    }

    /// Whether the block set satisfies its invariant: well-formed blocks,
    /// sorted and strictly disjoint. A day read from storage must pass this
    /// check before blocks are added or removed.
    pub fn is_normalized(&self) -> (r: bool)
        ensures
            r == blocks_inv(self.blocks@),
    {
        let n = self.blocks.len();
        let mut i: usize = 0;
        while i < n
            invariant
                n == self.blocks@.len(),
                i <= n,
                forall|k: int| 0 <= k < i ==> (#[trigger] self.blocks@[k]).wf(),
                forall|k: int|
                    0 <= k < i && k < n - 1 ==> (#[trigger] self.blocks@[k]).to
                        < self.blocks@[k + 1].from,
            decreases n - i,
        {
            let b = self.blocks[i];
            if !(b.from <= b.to && b.to < crate::block::MINUTES_PER_DAY) {
                return false;
            }
            if i + 1 < n {
                if !(b.to < self.blocks[i + 1].from) {
                    return false;
                }
            }
            i += 1;
        }
        proof {
            lemma_adjacent_inv(self.blocks@);
        }
        true
    }

    /// One stored day line as a day record.
    pub fn from_brf(line: &str) -> (r: Result<Day, PunchError>)
        ensures
            (r is Ok) <==> (crate::parse::spec_parse_day(line@) is Ok),
            (r is Ok) ==> r->Ok_0@ == crate::parse::spec_parse_day(line@)->Ok_0,
            (r is Err) ==> r->Err_0 == crate::parse::spec_parse_day(line@)->Err_0,
    {
        crate::parse::parse_day(line)
    }

    /// Merge a new block into the day's set. The new range and every block
    /// it overlaps or touches collapse into one block spanning their union;
    /// blocks disjoint from it are untouched, and a range already covered by
    /// an existing block changes nothing.
    pub fn add_block(&mut self, to_add: &Block)
        requires
            old(self).wf(),
            to_add.wf(),
        ensures
            final(self).wf(),
            final(self).date == old(self).date,
            final(self).comment == old(self).comment,
            final(self).blocks@ == add_spec(old(self).blocks@, *to_add),
    {
        let ghost s0 = self.blocks@;
        let ghost x = *to_add;
        let ghost m = merged_span(s0, x);
        proof {
            lemma_merged_span_bounds(s0, x);
            lemma_inv_sorted(s0);
        }
        // Ignore the new block when an existing block already contains it.
        match find_containing_block(&self.blocks, to_add) {
            Some(j) => {
                proof {
                    lemma_contained_add_noop(s0, x, j as int);
                }
                return ;
            },
            None => {},
        }
        let mut block = Block { from: to_add.from, to: to_add.to };
        // Left-neighbour merge: a block whose end falls inside the new range
        // and which starts no later donates its start.
        match find_end_within(&self.blocks, to_add) {
            Some(j) => {
                proof {
                    lemma_left_witness(s0, x, j as int);
                }
                let bj = self.blocks[j];
                if bj.from <= block.from {
                    block.from = bj.from;
                }
            },
            None => {
                proof {
                    if m.from != x.from {
                        let kk = choose|kk: int|
                            0 <= kk < s0.len() && touches(#[trigger] s0[kk], x) && s0[kk].from
                                == m.from;
                        if s0[kk].to > x.to {
                            assert(s0[kk].spec_contains(x));
                        }
                        assert(x.spec_contains_dt(s0[kk].to));
                    }
                }
            },
        }
        proof {
            assert(block.from == m.from && block.to == x.to);
        }
        let ghost x1 = block;
        retain_not_contained(&mut self.blocks, block);
        let ghost s1 = self.blocks@;
        proof {
            broadcast use vstd::seq_lib::group_filter_ensures;

            lemma_filter_inv(s0, outside(x1));
        }
        // Right-neighbour merge: a block whose start falls inside the
        // (possibly extended) range and which ends later donates its end.
        match find_start_within(&self.blocks, &block) {
            Some(j) => {
                let bj = self.blocks[j];
                proof {
                    let l = choose|l: int| 0 <= l < s0.len() && s0[l] == s1[j as int];
                    assert(outside(x1)(s1[j as int]));
                    assert(s1[j as int].to > x.to);
                    assert(touches(s0[l], x));
                    assert(m.to != x.to);
                    let kk = choose|kk: int|
                        0 <= kk < s0.len() && touches(#[trigger] s0[kk], x) && s0[kk].to == m.to;
                    assert(s0[kk].spec_contains_dt(x.to));
                    assert(s0[l].spec_contains_dt(x.to));
                    lemma_point_unique(s0, kk, l, x.to);
                }
                if bj.to >= block.to {
                    block.to = bj.to;
                }
            },
            None => {
                proof {
                    if m.to != x.to {
                        let kk = choose|kk: int|
                            0 <= kk < s0.len() && touches(#[trigger] s0[kk], x) && s0[kk].to
                                == m.to;
                        assert(outside(x1)(s0[kk]));
                        assert(s1.contains(s0[kk]));
                        let jj = choose|jj: int| 0 <= jj < s1.len() && s1[jj] == s0[kk];
                        assert(x1.spec_contains_dt(s1[jj].from));
                        assert(false);
                    }
                }
            },
        }
        proof {
            assert(block == m);
        }
        retain_not_contained(&mut self.blocks, block);
        let ghost s2 = self.blocks@;
        proof {
            assert forall|i: int|
                0 <= i < s0.len() && outside(m)(#[trigger] s0[i]) implies outside(x1)(
                s0[i],
            ) by {
                if x1.spec_contains(s0[i]) {
                    assert(m.spec_contains(s0[i]));
                }
            }
            lemma_filter_subsume(s0, outside(x1), outside(m));
            assert(s2 == s0.filter(outside(m)));
            lemma_filter_inv(s0, outside(m));
            lemma_inv_sorted(s2);
        }
        // Insert the merged block at its place in start order.
        let len = self.blocks.len();
        let mut k: usize = 0;
        while k < len && self.blocks[k].from < block.from
            invariant
                len == self.blocks@.len(),
                k <= len,
                forall|j: int| 0 <= j < k ==> (#[trigger] self.blocks@[j]).from < block.from,
            decreases len - k,
        {
            k += 1;
        }
        proof {
            assert forall|j: int| k <= j < s2.len() implies m.from <= (#[trigger] s2[j]).from by {
                if j > k {
                    assert(s2[k as int].from < s2[j].from);
                }
            }
            lemma_insert_sorted_at(s2, m, k as int);
        }
        self.blocks.insert(k, block);
        proof {
            assert(self.blocks@ =~= s2.take(k as int) + seq![m] + s2.skip(k as int));
            lemma_add_inv(s0, x);
        }
    }

    /// Subtract a range from the day's set. Blocks the range covers whole
    /// disappear; a block it sits strictly inside is split around it; a
    /// block it cuts into from one side is truncated at the cut.
    pub fn remove_block(&mut self, to_remove: &Block)
        requires
            old(self).wf(),
            to_remove.wf(),
        ensures
            final(self).wf(),
            final(self).date == old(self).date,
            final(self).comment == old(self).comment,
            final(self).blocks@ == remove_spec(old(self).blocks@, *to_remove),
    {
        let ghost s0 = self.blocks@;
        let ghost x = *to_remove;
        proof {
            lemma_inv_sorted(s0);
        }
        // Delete every block the removal range contains whole.
        retain_not_contained(&mut self.blocks, *to_remove);
        let ghost s1 = self.blocks@;
        proof {
            broadcast use vstd::seq_lib::group_filter_ensures;

            lemma_remove_filter(s0, x);
            lemma_filter_inv(s0, outside(x));
            lemma_inv_sorted(s1);
            lemma_remove_inv(s0, x);
            assert forall|k: int| 0 <= k < s1.len() implies !x.spec_contains(
                #[trigger] s1[k],
            ) by {
                assert(outside(x)(s1[k]));
            }
        }
        // Split: a block strictly containing the range gives up its middle,
        // and the right half is merged back in through the insertion path.
        match find_strictly_containing(&self.blocks, to_remove) {
            Some(j) => {
                let orig = self.blocks[j];
                let left = Block { from: orig.from, to: to_remove.from };
                self.blocks.set(j, left);
                let new_block = Block { from: to_remove.to, to: orig.to };
                let ghost s1m = self.blocks@;
                proof {
                    lemma_split_case(s1, x, j as int);
                    assert(s1m =~= s1.update(j as int, left));
                }
                self.add_block(&new_block);
                proof {
                    assert(self.blocks@ == add_spec(s1m, new_block));
                }
                return ;
            },
            None => {},
        }
        // Tail truncation: the block holding the range's start is cut there.
        let mut j3: Ghost<Option<int>> = Ghost(None);
        match find_instant(&self.blocks, to_remove.from) {
            Some(j) => {
                let bj = self.blocks[j];
                self.blocks.set(j, Block { from: bj.from, to: to_remove.from });
                j3 = Ghost(Some(j as int));
            },
            None => {},
        }
        let ghost s2 = self.blocks@;
        // Head truncation: the block holding the range's end starts there.
        let mut j4: Ghost<Option<int>> = Ghost(None);
        match find_instant(&self.blocks, to_remove.to) {
            Some(j) => {
                let bj = self.blocks[j];
                self.blocks.set(j, Block { from: to_remove.to, to: bj.to });
                j4 = Ghost(Some(j as int));
            },
            None => {},
        }
        proof {
            lemma_truncation_result(s1, x, j3@, j4@, s2, self.blocks@);
        }
    }
}

/// The first index whose block contains the instant `t`, if any.
fn find_instant(blocks: &Vec<Block>, t: u32) -> (r: Option<usize>)
    ensures
        match r {
            Some(j) => 0 <= j < blocks@.len() && blocks@[j as int].spec_contains_dt(t) && (
            forall|k: int| 0 <= k < j ==> !(#[trigger] blocks@[k]).spec_contains_dt(t)),
            None => forall|k: int|
                0 <= k < blocks@.len() ==> !(#[trigger] blocks@[k]).spec_contains_dt(t),
        },
{
    let n = blocks.len();
    let mut i: usize = 0;
    while i < n
        invariant
            n == blocks@.len(),
            i <= n,
            forall|k: int| 0 <= k < i ==> !(#[trigger] blocks@[k]).spec_contains_dt(t),
        decreases n - i,
    {
        if blocks[i].contains_dt(t) {
            return Some(i);
        }
        i += 1;
    }
    None
}

/// An index whose block strictly contains `x`, if any exists.
fn find_strictly_containing(blocks: &Vec<Block>, x: &Block) -> (r: Option<usize>)
    ensures
        match r {
            Some(j) => 0 <= j < blocks@.len() && blocks@[j as int].spec_strictly_contains(*x),
            None => forall|k: int|
                0 <= k < blocks@.len() ==> !(#[trigger] blocks@[k]).spec_strictly_contains(*x),
        },
{
    let n = blocks.len();
    let mut i: usize = 0;
    while i < n
        invariant
            n == blocks@.len(),
            i <= n,
            forall|k: int| 0 <= k < i ==> !(#[trigger] blocks@[k]).spec_strictly_contains(*x),
        decreases n - i,
    {
        if blocks[i].strictly_contains(x) {
            return Some(i);
        }
        i += 1;
    }
    None
}

/// An index whose block contains the whole of `x`, if any exists.
fn find_containing_block(blocks: &Vec<Block>, x: &Block) -> (r: Option<usize>)
    ensures
        match r {
            Some(j) => 0 <= j < blocks@.len() && blocks@[j as int].spec_contains(*x),
            None => forall|k: int|
                0 <= k < blocks@.len() ==> !(#[trigger] blocks@[k]).spec_contains(*x),
        },
{
    let n = blocks.len();
    let mut i: usize = 0;
    while i < n
        invariant
            n == blocks@.len(),
            i <= n,
            forall|k: int| 0 <= k < i ==> !(#[trigger] blocks@[k]).spec_contains(*x),
        decreases n - i,
    {
        if blocks[i].contains(x) {
            return Some(i);
        }
        i += 1;
    }
    None
}

/// The first index whose block's end falls inside `x`, if any.
fn find_end_within(blocks: &Vec<Block>, x: &Block) -> (r: Option<usize>)
    ensures
        match r {
            Some(j) => 0 <= j < blocks@.len() && x.spec_contains_dt(blocks@[j as int].to) && (
            forall|k: int| 0 <= k < j ==> !x.spec_contains_dt((#[trigger] blocks@[k]).to)),
            None => forall|k: int|
                0 <= k < blocks@.len() ==> !x.spec_contains_dt((#[trigger] blocks@[k]).to),
        },
{
    let n = blocks.len();
    let mut i: usize = 0;
    while i < n
        invariant
            n == blocks@.len(),
            i <= n,
            forall|k: int| 0 <= k < i ==> !x.spec_contains_dt((#[trigger] blocks@[k]).to),
        decreases n - i,
    {
        if x.contains_dt(blocks[i].to) {
            return Some(i);
        }
        i += 1;
    }
    None
}

/// The first index whose block's start falls inside `x`, if any.
fn find_start_within(blocks: &Vec<Block>, x: &Block) -> (r: Option<usize>)
    ensures
        match r {
            Some(j) => 0 <= j < blocks@.len() && x.spec_contains_dt(blocks@[j as int].from) && (
            forall|k: int| 0 <= k < j ==> !x.spec_contains_dt((#[trigger] blocks@[k]).from)),
            None => forall|k: int|
                0 <= k < blocks@.len() ==> !x.spec_contains_dt((#[trigger] blocks@[k]).from),
        },
{
    let n = blocks.len();
    let mut i: usize = 0;
    while i < n
        invariant
            n == blocks@.len(),
            i <= n,
            forall|k: int| 0 <= k < i ==> !x.spec_contains_dt((#[trigger] blocks@[k]).from),
        decreases n - i,
    {
        if x.contains_dt(blocks[i].from) {
            return Some(i);
        }
        i += 1;
    }
    None
}

/// Drop every block that `x` contains whole, keeping the rest in order.
fn retain_not_contained(blocks: &mut Vec<Block>, x: Block)
    ensures
        final(blocks)@ == old(blocks)@.filter(outside(x)),
{
    let n = blocks.len();
    let mut kept: Vec<Block> = Vec::new();
    let mut i: usize = 0;
    while i < n
        invariant
            *blocks == *old(blocks),
            n == blocks@.len(),
            i <= n,
            kept@ == blocks@.take(i as int).filter(outside(x)),
        decreases n - i,
    {
        proof {
            assert(blocks@.take(i + 1) =~= blocks@.take(i as int).push(blocks@[i as int]));
            lemma_filter_push(blocks@.take(i as int), outside(x), blocks@[i as int]);
        }
        if !x.contains(&blocks[i]) {
            kept.push(blocks[i]);
        }
        i += 1;
    }
    proof {
        assert(blocks@.take(n as int) =~= blocks@);
    }
    *blocks = kept;
}

/// The split case: cutting a strictly containing block in two and merging
/// the right half back in rewrites exactly that block, and nothing else.
proof fn lemma_split_case(s1: Seq<Block>, x: Block, j: int)
    requires
        blocks_inv(s1),
        x.wf(),
        forall|k: int| 0 <= k < s1.len() ==> !x.spec_contains(#[trigger] s1[k]),
        0 <= j < s1.len(),
        s1[j].spec_strictly_contains(x),
    ensures
        blocks_inv(s1.update(j, Block { from: s1[j].from, to: x.from })),
        (Block { from: x.to, to: s1[j].to }).wf(),
        add_spec(
            s1.update(j, Block { from: s1[j].from, to: x.from }),
            Block { from: x.to, to: s1[j].to },
        ) == remove_spec(s1, x),
{
    let orig = s1[j];
    let left = Block { from: orig.from, to: x.from };
    let nb = Block { from: x.to, to: orig.to };
    let s1m = s1.update(j, left);
    lemma_inv_sorted(s1);
    assert forall|a: int, b: int| 0 <= a < b < s1m.len() implies (#[trigger] s1m[a]).to < (
    #[trigger] s1m[b]).from by {
        assert(s1m[a].to <= s1[a].to && s1m[b].from == s1[b].from);
    }
    assert(blocks_inv(s1m));
    let m = merged_span(s1m, nb);
    lemma_merged_span_bounds(s1m, nb);
    // Every other block is left alone by the removal.
    assert forall|k: int| 0 <= k < s1.len() && k != j implies pieces(#[trigger] s1[k], x)
        == seq![s1[k]] by {
        if s1[k].spec_contains_dt(x.from) {
            lemma_point_unique(s1, k, j, x.from);
        }
        if s1[k].spec_contains_dt(x.to) {
            lemma_point_unique(s1, k, j, x.to);
        }
    }
    if x.from == x.to {
        // An ongoing removal range: the two halves touch and merge back.
        assert(touches(left, nb));
        assert forall|k: int| 0 <= k < s1m.len() && k != j implies !touches(
            #[trigger] s1m[k],
            nb,
        ) by {
            if k < j {
                assert(s1m[k].to < s1m[j].from);
            } else {
                assert(s1m[j].to < s1m[k].from);
                assert(s1[k].from > orig.to) by {
                    assert(s1[j].to < s1[k].from);
                }
            }
        }
        assert(m.from == orig.from) by {
            assert(m.from <= left.from);
            if m.from != nb.from {
                let k = choose|k: int|
                    0 <= k < s1m.len() && touches(#[trigger] s1m[k], nb) && s1m[k].from == m.from;
                assert(k == j);
            } else {
                assert(m.from == x.to && m.from <= orig.from && orig.from < x.from);
                assert(false);
            }
        }
        assert(m.to == orig.to) by {
            assert(nb.to <= m.to);
            if m.to != nb.to {
                let k = choose|k: int|
                    0 <= k < s1m.len() && touches(#[trigger] s1m[k], nb) && s1m[k].to == m.to;
                assert(k == j);
                assert(m.to == left.to && left.to < orig.to && orig.to == nb.to <= m.to);
                assert(false);
            }
        }
        assert(m == orig);
        assert forall|k: int| 0 <= k < s1m.len() && k != j implies outside(m)(
            #[trigger] s1m[k],
        ) by {
            if k < j {
                assert(s1m[k].to < orig.from);
            } else {
                assert(s1[j].to < s1[k].from);
            }
        }
        assert(!outside(m)(s1m[j]));
        lemma_filter_except(s1m, outside(m), j);
        let f = s1m.take(j) + s1m.skip(j + 1);
        assert forall|l: int| 0 <= l < j implies (#[trigger] f[l]).from < orig.from by {
            assert(f[l] == s1[l]);
        }
        assert forall|l: int| j <= l < f.len() implies orig.from <= (#[trigger] f[l]).from by {
            assert(f[l] == s1[l + 1]);
            assert(s1[j].to < s1[l + 1].from);
        }
        lemma_insert_sorted_at(f, m, j);
        assert(insert_sorted(f, m) =~= s1);
        assert(pieces(orig, x) == seq![orig]);
        lemma_remove_untouched(s1, x);
    } else {
        // A proper split: the right half touches nothing and slots in just
        // after the left half.
        assert forall|k: int| 0 <= k < s1m.len() implies !touches(#[trigger] s1m[k], nb) by {
            if k < j {
                assert(s1m[k].to < s1m[j].from);
            } else if k == j {
                assert(left.to < nb.from);
            } else {
                assert(s1[j].to < s1[k].from);
            }
        }
        assert(m == nb) by {
            if m.from != nb.from {
                let k = choose|k: int|
                    0 <= k < s1m.len() && touches(#[trigger] s1m[k], nb) && s1m[k].from == m.from;
                assert(false);
            }
            if m.to != nb.to {
                let k = choose|k: int|
                    0 <= k < s1m.len() && touches(#[trigger] s1m[k], nb) && s1m[k].to == m.to;
                assert(false);
            }
        }
        assert forall|k: int| 0 <= k < s1m.len() implies outside(m)(#[trigger] s1m[k]) by {
            if k < j {
                assert(s1m[k].to < s1m[j].from);
            } else if k == j {
                assert(left.from < nb.from);
            } else {
                assert(s1[j].to < s1[k].from);
            }
        }
        lemma_filter_all(s1m, outside(m));
        assert forall|l: int| 0 <= l < j + 1 implies (#[trigger] s1m[l]).from < nb.from by {
            if l < j {
                assert(s1m[l].to < s1m[j].from);
            }
        }
        assert forall|l: int| j + 1 <= l < s1m.len() implies nb.from <= (#[trigger] s1m[l]).from
            by {
            assert(s1[j].to < s1[l].from);
        }
        lemma_insert_sorted_at(s1m, m, j + 1);
        lemma_remove_at(s1, x, j);
        assert(pieces(orig, x) == seq![left, nb]);
        assert(insert_sorted(s1m, nb) =~= s1.take(j) + pieces(orig, x) + s1.skip(j + 1));
    }
}

/// After deletion ruled out containment and the split case did not fire,
/// the two independent truncations produce exactly the removal's result.
proof fn lemma_truncation_result(
    s1: Seq<Block>,
    x: Block,
    j3: Option<int>,
    j4: Option<int>,
    s2: Seq<Block>,
    s3: Seq<Block>,
)
    requires
        blocks_inv(s1),
        x.wf(),
        forall|k: int| 0 <= k < s1.len() ==> !x.spec_contains(#[trigger] s1[k]),
        forall|k: int| 0 <= k < s1.len() ==> !(#[trigger] s1[k]).spec_strictly_contains(x),
        match j3 {
            Some(j) => 0 <= j < s1.len() && s1[j].spec_contains_dt(x.from) && (forall|k: int|
                0 <= k < j ==> !(#[trigger] s1[k]).spec_contains_dt(x.from)) && s2 == s1.update(
                j,
                Block { from: s1[j].from, to: x.from },
            ),
            None => s2 == s1 && (forall|k: int|
                0 <= k < s1.len() ==> !(#[trigger] s1[k]).spec_contains_dt(x.from)),
        },
        match j4 {
            Some(j) => 0 <= j < s2.len() && s2[j].spec_contains_dt(x.to) && (forall|k: int|
                0 <= k < j ==> !(#[trigger] s2[k]).spec_contains_dt(x.to)) && s3 == s2.update(
                j,
                Block { from: x.to, to: s2[j].to },
            ),
            None => s3 == s2 && (forall|k: int|
                0 <= k < s2.len() ==> !(#[trigger] s2[k]).spec_contains_dt(x.to)),
        },
    ensures
        s3 == remove_spec(s1, x),
{
    lemma_inv_sorted(s1);
    // The first truncation only shrinks ends, so the invariant carries over.
    assert forall|a: int| 0 <= a < s2.len() implies (#[trigger] s2[a]).wf() by {
        assert(s2[a].from == s1[a].from && s1[a].wf());
    }
    assert forall|a: int, b: int| 0 <= a < b < s2.len() implies (#[trigger] s2[a]).to < (
    #[trigger] s2[b]).from by {
        assert(s2[a].to <= s1[a].to && s2[b].from == s1[b].from);
        assert(s1[a].to < s1[b].from);
    }
    assert(blocks_inv(s2));
    assert forall|k: int| 0 <= k < s1.len() implies pieces(#[trigger] s1[k], x).len() == 1 by {}
    lemma_remove_singletons(s1, x);
    assert forall|k: int| 0 <= k < s1.len() implies s3[k] == pieces(#[trigger] s1[k], x)[0] by {
        if j3 == Some(k) {
            let p = Block { from: s1[k].from, to: x.from };
            assert(s2[k] == p);
            assert(pieces(s1[k], x) == (if x.from == x.to {
                seq![Block { from: x.from, to: x.from }]
            } else {
                seq![p]
            }));
            if x.from == x.to {
                // The head pass hits the freshly truncated block again and
                // collapses it to an ongoing marker.
                assert(s2[k].spec_contains_dt(x.to));
                match j4 {
                    Some(j) => {
                        if j < k {
                            assert(s2[j] == s1[j]);
                            assert(false);
                        } else if k < j {
                            assert(false);
                        }
                        assert(s3[k] == Block { from: x.to, to: x.from });
                    },
                    None => {
                        assert(false);
                    },
                }
            } else {
                // The truncated block cannot also hold the range's end.
                match j4 {
                    Some(j) => {
                        if j == k {
                            assert(s2[j].to == x.from && x.from < x.to);
                            assert(false);
                        }
                        assert(s3[k] == s2[k]);
                    },
                    None => {},
                }
            }
        } else {
            assert(s2[k] == s1[k]);
            assert(!s1[k].spec_contains_dt(x.from)) by {
                if s1[k].spec_contains_dt(x.from) {
                    match j3 {
                        Some(j) => {
                            lemma_point_unique(s1, j, k, x.from);
                            assert(false);
                        },
                        None => {
                            assert(false);
                        },
                    }
                }
            }
            if j4 == Some(k) {
                assert(pieces(s1[k], x) == seq![Block { from: x.to, to: s1[k].to }]);
                assert(s3[k] == Block { from: x.to, to: s2[k].to });
            } else {
                assert(!s2[k].spec_contains_dt(x.to)) by {
                    if s2[k].spec_contains_dt(x.to) {
                        match j4 {
                            Some(j) => {
                                lemma_point_unique(s2, j, k, x.to);
                                assert(false);
                            },
                            None => {
                                assert(false);
                            },
                        }
                    }
                }
                assert(!s1[k].spec_contains_dt(x.to));
                assert(pieces(s1[k], x) == seq![s1[k]]);
                assert(s3[k] == s1[k]);
            }
        }
    }
    assert(s3 =~= Seq::new(s1.len(), |k: int| pieces(s1[k], x)[0]));
}

/// In the left-neighbour search, the block that could donate its start is
/// always the first block whose end falls inside the new range.
proof fn lemma_left_witness(s: Seq<Block>, x: Block, j: int)
    requires
        blocks_inv(s),
        x.from <= x.to,
        0 <= j < s.len(),
        x.spec_contains_dt(s[j].to),
        forall|k: int| 0 <= k < j ==> !x.spec_contains_dt((#[trigger] s[k]).to),
        forall|k: int| 0 <= k < s.len() ==> !(#[trigger] s[k]).spec_contains(x),
    ensures
        merged_span(s, x).from == (if s[j].from <= x.from {
            s[j].from
        } else {
            x.from
        }),
{
    let m = merged_span(s, x);
    lemma_merged_span_bounds(s, x);
    lemma_inv_sorted(s);
    assert(touches(s[j], x));
    if s[j].from <= x.from {
        // The span starts at this block's start.
        if m.from < s[j].from {
            assert(m.from != x.from);
            let kk = choose|kk: int|
                0 <= kk < s.len() && touches(#[trigger] s[kk], x) && s[kk].from == m.from;
            assert(s[kk].to >= x.from);
            assert(s[kk].to <= x.to) by {
                if s[kk].to > x.to {
                    assert(s[kk].spec_contains(x));
                }
            }
            assert(x.spec_contains_dt(s[kk].to));
            assert(kk < j);
        }
    } else {
        // The first matching block starts after x; no block can lower the
        // span's start.
        if m.from != x.from {
            let kk = choose|kk: int|
                0 <= kk < s.len() && touches(#[trigger] s[kk], x) && s[kk].from == m.from;
            assert(s[kk].to <= x.to) by {
                if s[kk].to > x.to {
                    assert(s[kk].spec_contains(x));
                }
            }
            assert(x.spec_contains_dt(s[kk].to));
            assert(s[kk].from < x.from);
            assert(s[kk].from < s[j].from);
            assert(kk < j);
        }
    }
}

} // verus!
