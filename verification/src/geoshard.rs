//! Shards, the partitioner, the builder, and the searcher.
//!
//! A shard owns a contiguous range of cells in identifier order.  The
//! partitioner scans the scored cells once per candidate shard count,
//! closing a shard when its load would reach or exceed the candidate
//! capacity (total load divided by the count), while guaranteeing the
//! exact count by never splitting the last shard and force-closing when
//! the remaining cells are only enough to give each remaining shard one
//! cell.  Among the candidate counts between the configured bounds, the
//! partition whose per-shard loads have the smallest population
//! standard deviation wins; variances are compared exactly, as integer
//! fractions.

use vstd::prelude::*;
use vstd::string::StringExecFns;

use crate::GeoshardError;
use crate::cell_list::{
    cell_ids, enumeration_of, nonneg_scores, strictly_increasing, total_load, CellList, CellScorer,
    ScoredCell,
};
use crate::spatial::is_cell_at_level;
use crate::users::{Location, User};
use crate::wide::{add_wide, le_wide, mul_wide, wide_val};

verus! {

/// The mathematical content of one shard.
pub struct ShardView {
    /// The shard's name.
    pub name: Seq<char>,
    /// The level of the cells the shard owns.
    pub storage_level: u64,
    /// The first cell of the shard's range.
    pub start: u64,
    /// The last cell of the shard's range.
    pub end: u64,
    /// The shard's aggregate load.
    pub load: int,
    /// How many enumerated cells the range holds.
    pub count: int,
}

/// The decimal digits of `n`, most significant first.
pub open spec fn dec_digits(n: nat) -> Seq<char>
    decreases n,
{
    if n < 10 {
        seq![digit_char(n)]
    } else {
        dec_digits(n / 10).push(digit_char(n % 10))
    }
}

/// The character for one decimal digit.
pub open spec fn digit_char(d: nat) -> char {
    if d == 0 {
        '0'
    } else if d == 1 {
        '1'
    } else if d == 2 {
        '2'
    } else if d == 3 {
        '3'
    } else if d == 4 {
        '4'
    } else if d == 5 {
        '5'
    } else if d == 6 {
        '6'
    } else if d == 7 {
        '7'
    } else if d == 8 {
        '8'
    } else {
        '9'
    }
}

/// The name given to shard number `i` (numbered from one).
pub open spec fn shard_name_spec(i: nat) -> Seq<char> {
    "geoshard_user_index_"@ + dec_digits(i)
}

/// Appends the decimal rendering of `n` to `s`.
fn push_decimal(s: &mut String, n: u64)
    ensures
        final(s)@ == old(s)@ + dec_digits(n as nat),
    decreases n,
{
    if n >= 10 {
        push_decimal(s, n / 10);
    }
    let d = n % 10;
    let digit = if d == 0 {
        "0"
    } else if d == 1 {
        "1"
    } else if d == 2 {
        "2"
    } else if d == 3 {
        "3"
    } else if d == 4 {
        "4"
    } else if d == 5 {
        "5"
    } else if d == 6 {
        "6"
    } else if d == 7 {
        "7"
    } else if d == 8 {
        "8"
    } else {
        "9"
    };
    proof {
        reveal_strlit("0");
        reveal_strlit("1");
        reveal_strlit("2");
        reveal_strlit("3");
        reveal_strlit("4");
        reveal_strlit("5");
        reveal_strlit("6");
        reveal_strlit("7");
        reveal_strlit("8");
        reveal_strlit("9");
        assert(digit@ =~= seq![digit_char((n % 10) as nat)]);
    }
    s.append(digit);
    proof {
        assert(s@ =~= old(s)@ + dec_digits(n as nat));
    }
}

/// Builds the name of shard number `i`.
fn shard_name(i: u64) -> (s: String)
    ensures
        s@ == shard_name_spec(i as nat),
{
    let mut s = String::from_str("geoshard_user_index_");
    push_decimal(&mut s, i);
    proof {
        assert(s@ =~= shard_name_spec(i as nat));
    }
    s
}

/// One shard: a contiguous, aggregate-scored range of cells.
#[derive(Debug)]
pub struct Geoshard {
    name: String,
    storage_level: u64,
    start: u64,
    end: u64,
    cell_score: i64,
    size: usize,
}

impl View for Geoshard {
    type V = ShardView;

    closed spec fn view(&self) -> ShardView {
        ShardView {
            name: self.name@,
            storage_level: self.storage_level,
            start: self.start,
            end: self.end,
            load: self.cell_score as int,
            count: self.size as int,
        }
    }
}

impl Geoshard {
    /// Assembles a shard from its parts.
    pub fn new(
        name: String,
        start: u64,
        end: u64,
        cell_score: i64,
        storage_level: u64,
        size: usize,
    ) -> (r: Geoshard)
        ensures
            r@ == (ShardView {
                name: name@,
                storage_level,
                start,
                end,
                load: cell_score as int,
                count: size as int,
            }),
    {
        Geoshard { name, storage_level, start, end, cell_score, size }
    }

    /// The shard's name.
    pub fn name(&self) -> (r: &str)
        ensures
            r@ == self@.name,
    {
        self.name.as_str()
    }

    /// How many cells the shard owns.
    pub fn cell_count(&self) -> (r: usize)
        ensures
            r == self@.count,
    {
        self.size
    }

    /// The first cell of the shard's range.
    pub fn start(&self) -> (r: u64)
        ensures
            r == self@.start,
    {
        self.start
    }

    /// The last cell of the shard's range.
    pub fn end(&self) -> (r: u64)
        ensures
            r == self@.end,
    {
        self.end
    }

    /// The shard's aggregate load.
    pub fn cell_score(&self) -> (r: i64)
        ensures
            r == self@.load,
    {
        self.cell_score
    }

    /// The level of the cells in this shard.
    pub fn storage_level(&self) -> (r: u64)
        ensures
            r == self@.storage_level,
    {
        self.storage_level
    }

    /// The shard's range as an S2 cell union, for callers that want to
    /// test containment with S2's own primitives.
    pub fn cell_union(&self) -> s2::cellunion::CellUnion
        requires
            is_cell_at_level(self@.start, self@.storage_level),
            is_cell_at_level(self@.end, self@.storage_level),
            self@.start <= self@.end,
    {
        let after_end = crate::spatial::cell_after(self.end, self.storage_level);
        cell_union_of_range(self.start, after_end, self.storage_level)
    }
}

/// Relies on s2's `CellUnion::from_range`, which walks maximal tiles
/// from `begin` up to, and excluding, `end_exclusive`.  Both endpoints
/// must come from valid cells of one level — on malformed identifiers
/// the tile arithmetic is undefined — and the walk stops exactly at
/// `end_exclusive`, the successor of the last cell meant to be covered.
#[verifier::external_body]
fn cell_union_of_range(begin: u64, end_exclusive: u64, level: u64) -> s2::cellunion::CellUnion
    requires
        begin < end_exclusive,
        is_cell_at_level(begin, level),
        exists|e: u64|
            is_cell_at_level(e, level) && begin <= e && end_exclusive == crate::spatial::next_cell(
                e,
                level,
            ),
{
    s2::cellunion::CellUnion::from_range(
        s2::cellid::CellID(begin),
        s2::cellid::CellID(end_exclusive),
    )
}

/// The external S2 cell-union type, opaque to the contracts here.
#[verifier::external_type_specification]
#[verifier::external_body]
pub struct ExCellUnion(s2::cellunion::CellUnion);

/// The load carried by `cells[a..b]` (`b` exclusive).
pub open spec fn range_load(cells: Seq<ScoredCell>, a: int, b: int) -> int
    recommends
        0 <= a <= b <= cells.len(),
{
    total_load(cells.subrange(a, b))
}

/// Loads add up over adjacent ranges.
proof fn lemma_range_load_split(cells: Seq<ScoredCell>, a: int, b: int, c: int)
    requires
        0 <= a <= b <= c <= cells.len(),
    ensures
        range_load(cells, a, c) == range_load(cells, a, b) + range_load(cells, b, c),
    decreases c - b,
{
    if b == c {
        assert(cells.subrange(b, c) =~= Seq::<ScoredCell>::empty());
    } else {
        lemma_range_load_split(cells, a, b, c - 1);
        assert(cells.subrange(a, c).drop_last() =~= cells.subrange(a, c - 1));
        assert(cells.subrange(b, c).drop_last() =~= cells.subrange(b, c - 1));
        assert(cells.subrange(a, c).last() == cells[c - 1]);
        assert(cells.subrange(b, c).last() == cells[c - 1]);
    }
}

/// A one-cell range carries that cell's score.
proof fn lemma_range_load_one(cells: Seq<ScoredCell>, k: int)
    requires
        0 <= k < cells.len(),
    ensures
        range_load(cells, k, k + 1) == cells[k].score,
{
    let s = cells.subrange(k, k + 1);
    assert(s.len() == 1);
    assert(s.drop_last() =~= Seq::<ScoredCell>::empty());
    assert(total_load(s.drop_last()) == 0);
    assert(s.last() == cells[k]);
    assert(total_load(s) == total_load(s.drop_last()) + s.last().score);
}

/// With non-negative scores, every range load is non-negative.
proof fn lemma_range_load_nonneg(cells: Seq<ScoredCell>, a: int, b: int)
    requires
        nonneg_scores(cells),
        0 <= a <= b <= cells.len(),
    ensures
        range_load(cells, a, b) >= 0,
    decreases b - a,
{
    if a < b {
        lemma_range_load_nonneg(cells, a, b - 1);
        assert(cells.subrange(a, b).drop_last() =~= cells.subrange(a, b - 1));
        assert(cells.subrange(a, b).last() == cells[b - 1]);
    } else {
        assert(cells.subrange(a, b) =~= Seq::<ScoredCell>::empty());
    }
}

/// With non-negative scores, no range outweighs the whole.
proof fn lemma_range_load_le_total(cells: Seq<ScoredCell>, a: int, b: int)
    requires
        nonneg_scores(cells),
        0 <= a <= b <= cells.len(),
    ensures
        range_load(cells, a, b) <= total_load(cells),
{
    assert(cells.subrange(0, cells.len() as int) =~= cells);
    lemma_range_load_split(cells, 0, a, b);
    lemma_range_load_split(cells, 0, b, cells.len() as int);
    lemma_range_load_nonneg(cells, 0, a);
    lemma_range_load_nonneg(cells, b, cells.len() as int);
}

/// Whether the greedy scan closes the shard begun at `start` before
/// taking cell `k`: the shard must not be empty, it must not be the
/// last shard, and either the load would reach or exceed the capacity
/// or the cells left are only enough to give each remaining shard one.
pub open spec fn close_here(
    cells: Seq<ScoredCell>,
    n: int,
    cap: int,
    k: int,
    start: int,
    load: int,
    done: int,
) -> bool {
    &&& start < k
    &&& done < n - 1
    &&& (load + cells[k].score >= cap || cells.len() - k == n - 1 - done)
}

/// The shards still to be produced by the greedy scan from the state
/// where cell `k` is next, the current shard spans `cells[start..k]`
/// with accumulated `load`, and `done` shards are already closed.  Each
/// shard is the inclusive index range of the cells it owns.
pub open spec fn greedy_rest(
    cells: Seq<ScoredCell>,
    n: int,
    cap: int,
    k: int,
    start: int,
    load: int,
    done: int,
) -> Seq<(int, int)>
    decreases cells.len() - k,
    when 0 <= k <= cells.len()
{
    if k >= cells.len() {
        seq![(start, cells.len() - 1)]
    } else if close_here(cells, n, cap, k, start, load, done) {
        seq![(start, k - 1)] + greedy_rest(cells, n, cap, k + 1, k, cells[k].score as int, done + 1)
    } else {
        greedy_rest(cells, n, cap, k + 1, start, load + cells[k].score, done)
    }
}

/// The capacity tried for a partition into `n` shards.
pub open spec fn cap_for(cells: Seq<ScoredCell>, n: int) -> int
    recommends
        n >= 1,
{
    total_load(cells) / n
}

/// The index ranges of the greedy partition of `cells` into `n` shards.
pub open spec fn greedy_cuts(cells: Seq<ScoredCell>, n: int) -> Seq<(int, int)> {
    greedy_rest(cells, n, cap_for(cells, n), 0, 0, 0, 0)
}

/// The states the greedy scan can be in.
pub open spec fn greedy_state_ok(
    cells: Seq<ScoredCell>,
    n: int,
    k: int,
    start: int,
    load: int,
    done: int,
) -> bool {
    &&& 1 <= n <= cells.len()
    &&& 0 <= done <= n - 1
    &&& if k == 0 {
        start == 0 && done == 0
    } else {
        0 <= start < k <= cells.len() && cells.len() - k >= n - 1 - done
    }
    &&& load == range_load(cells, start, k)
}

/// From any valid state the greedy scan yields exactly the missing
/// shards, tiling the remaining cells contiguously.
proof fn lemma_greedy_rest_props(
    cells: Seq<ScoredCell>,
    n: int,
    cap: int,
    k: int,
    start: int,
    load: int,
    done: int,
)
    requires
        greedy_state_ok(cells, n, k, start, load, done),
    ensures
        ({
            let r = greedy_rest(cells, n, cap, k, start, load, done);
            &&& r.len() == n - done
            &&& r[0].0 == start
            &&& r[r.len() - 1].1 == cells.len() - 1
            &&& forall|i: int| 0 <= i < r.len() ==> 0 <= (#[trigger] r[i]).0 <= r[i].1 < cells.len()
            &&& forall|i: int| 0 <= i < r.len() - 1 ==> (#[trigger] r[i + 1]).0 == r[i].1 + 1
        }),
    decreases cells.len() - k,
{
    let r = greedy_rest(cells, n, cap, k, start, load, done);
    if k >= cells.len() {
        assert(k == cells.len());
        assert(done == n - 1);
    } else if close_here(cells, n, cap, k, start, load, done) {
        lemma_range_load_one(cells, k);
        lemma_greedy_rest_props(cells, n, cap, k + 1, k, cells[k].score as int, done + 1);
        let rest = greedy_rest(cells, n, cap, k + 1, k, cells[k].score as int, done + 1);
        assert(r == seq![(start, k - 1)] + rest);
        assert(r[0] == (start, k - 1));
        assert(forall|i: int| 0 <= i < rest.len() ==> r[i + 1] == rest[i]);
        assert(r[r.len() - 1].1 == cells.len() - 1);
        assert forall|i: int| 0 <= i < r.len() - 1 implies r[i + 1].0 == r[i].1 + 1 by {
            if i == 0 {
                assert(r[1] == rest[0]);
            } else {
                assert(r[i] == rest[i - 1] && r[i + 1] == rest[i]);
            }
        }
    } else {
        lemma_range_load_split(cells, start, k, k + 1);
        lemma_range_load_one(cells, k);
        lemma_greedy_rest_props(cells, n, cap, k + 1, start, load + cells[k].score, done);
    }
}

/// What the partitioner builds for cells `cells` at `level`, shard
/// number `i` owning the inclusive index range `cut`.
pub open spec fn shard_view_at(
    cells: Seq<ScoredCell>,
    level: u64,
    cut: (int, int),
    i: int,
) -> ShardView {
    ShardView {
        name: shard_name_spec((i + 1) as nat),
        storage_level: level,
        start: cells[cut.0].cell_id,
        end: cells[cut.1].cell_id,
        load: range_load(cells, cut.0, cut.1 + 1),
        count: cut.1 - cut.0 + 1,
    }
}

/// The partition of `cells` into exactly `n` shards at `level`.
pub open spec fn collection_spec(cells: Seq<ScoredCell>, n: int, level: u64) -> Seq<ShardView> {
    greedy_cuts(cells, n).map(|i: int, cut: (int, int)| shard_view_at(cells, level, cut, i))
}

/// What the partitioner asks of a scored set: at least one cell, no
/// negative score, and a total load its counter can hold.
pub open spec fn scored_ok(cells: Seq<ScoredCell>) -> bool {
    &&& cells.len() >= 1
    &&& nonneg_scores(cells)
    &&& total_load(cells) <= i64::MAX
}

/// The views of a shard vector.
pub open spec fn shard_views(s: Seq<Geoshard>) -> Seq<ShardView> {
    s.map_values(|g: Geoshard| g@)
}

/// An ordered collection of shards covering the cell space of one
/// storage level.
#[derive(Debug)]
pub struct GeoshardCollection {
    storage_level: u64,
    shards: Vec<Geoshard>,
}

impl View for GeoshardCollection {
    type V = Seq<ShardView>;

    closed spec fn view(&self) -> Seq<ShardView> {
        shard_views(self.shards@)
    }
}

impl GeoshardCollection {
    /// The storage level the collection was partitioned at.
    pub closed spec fn spec_level(&self) -> u64 {
        self.storage_level
    }

    /// The level the collection's cells live at.
    pub fn storage_level(&self) -> (r: u64)
        ensures
            r == self.spec_level(),
    {
        self.storage_level
    }

    /// The shards, ordered by their starting cell.
    pub fn shards(&self) -> (r: &Vec<Geoshard>)
        ensures
            shard_views(r@) == self@,
    {
        &self.shards
    }

    /// Wraps an explicit shard vector, for callers assembling a
    /// collection from parts they have checked themselves.
    pub fn from_shards(shards: Vec<Geoshard>, storage_level: u64) -> (r: GeoshardCollection)
        ensures
            r@ == shard_views(shards@),
            r.spec_level() == storage_level,
    {
        GeoshardCollection { storage_level, shards }
    }

    /// Partitions the scored cells into exactly `shard_count` contiguous
    /// shards by the greedy capacity scan.  The scan closes a shard when
    /// taking the next cell would lift its load to the capacity — the
    /// total load divided by `shard_count` — or when the cells left are
    /// only enough to give each remaining shard one; the last shard
    /// takes whatever remains.
    pub fn new(shard_count: i32, scored_cells: &CellList) -> (r: Result<
        GeoshardCollection,
        GeoshardError,
    >)
        ensures
            r is Ok <==> (scored_cells@.len() >= 1 && 1 <= shard_count
                && shard_count <= scored_cells@.len() && nonneg_scores(scored_cells@)
                && total_load(scored_cells@) <= i64::MAX),
            match r {
                Ok(c) => {
                    &&& c@ == collection_spec(
                        scored_cells@,
                        shard_count as int,
                        scored_cells.spec_level(),
                    )
                    &&& c.spec_level() == scored_cells.spec_level()
                    &&& c@.len() == shard_count
                },
                Err(e) => {
                    &&& (e == GeoshardError::EmptyScoredSet <==> scored_cells@.len() == 0)
                    &&& (e == GeoshardError::InvalidShardBounds ==> shard_count < 1)
                    &&& (e == GeoshardError::TooFewCells ==> shard_count
                        > scored_cells@.len())
                    &&& (e == GeoshardError::ScoredSetInvalid ==> !(nonneg_scores(scored_cells@)
                        && total_load(scored_cells@) <= i64::MAX))
                    &&& (e == GeoshardError::EmptyScoredSet || e == GeoshardError::InvalidShardBounds
                        || e == GeoshardError::TooFewCells || e == GeoshardError::ScoredSetInvalid)
                },
            },
    {
        let cells = scored_cells.cell_list();
        let ghost cseq = cells@;
        let level_val = scored_cells.storage_level();
        let len = cells.len();
        if len == 0 {
            return Err(GeoshardError::EmptyScoredSet);
        }
        if shard_count < 1 {
            return Err(GeoshardError::InvalidShardBounds);
        }
        let n = shard_count as usize;
        if n > len {
            return Err(GeoshardError::TooFewCells);
        }

        // one pass to reject negative scores and overflowing totals
        let mut total: i64 = 0;
        let mut i: usize = 0;
        while i < len
            invariant
                i <= len,
                len == cseq.len(),
                cells@ == cseq,
                cseq == scored_cells@,
                total == range_load(cseq, 0, i as int),
                total >= 0,
                forall|j: int| 0 <= j < i ==> cseq[j].score >= 0,
            decreases len - i,
        {
            let sc = cells[i].score;
            proof {
                lemma_range_load_split(cseq, 0, i as int, i + 1);
                lemma_range_load_one(cseq, i as int);
            }
            if sc < 0 {
                proof {
                    assert(!nonneg_scores(cseq)) by {
                        assert(cseq[i as int].score < 0);
                    }
                }
                return Err(GeoshardError::ScoredSetInvalid);
            }
            if total > i64::MAX - sc {
                proof {
                    if nonneg_scores(cseq) {
                        assert(range_load(cseq, 0, i + 1) == total + sc);
                        lemma_range_load_split(cseq, 0, i + 1, cseq.len() as int);
                        lemma_range_load_nonneg(cseq, i + 1, cseq.len() as int);
                        assert(cseq.subrange(0, cseq.len() as int) =~= cseq);
                        assert(total_load(cseq) >= range_load(cseq, 0, i + 1));
                        assert(total_load(cseq) > i64::MAX);
                    }
                }
                return Err(GeoshardError::ScoredSetInvalid);
            }
            total = total + sc;
            i = i + 1;
        }
        proof {
            assert(cseq.subrange(0, cseq.len() as int) =~= cseq);
            assert(total == total_load(cseq));
            assert(nonneg_scores(cseq));
        }

        let cap: i64 = total / (shard_count as i64);
        proof {
            assert(cap == cap_for(cseq, n as int));
        }

        let ghost full = greedy_rest(cseq, n as int, cap as int, 0, 0, 0, 0);
        let mut shards: Vec<Geoshard> = Vec::new();
        let ghost mut done_cuts: Seq<(int, int)> = Seq::empty();
        let mut start: usize = 0;
        let mut load: i64 = 0;
        let mut k: usize = 0;
        while k < len
            invariant
                len == cseq.len(),
                cells@ == cseq,
                nonneg_scores(cseq),
                total == total_load(cseq),
                total >= 0,
                cap == total_load(cseq) / (n as int),
                1 <= n <= len,
                n <= i32::MAX,
                k <= len,
                greedy_state_ok(cseq, n as int, k as int, start as int, load as int, shards@.len() as int),
                load >= 0,
                full == done_cuts + greedy_rest(
                    cseq,
                    n as int,
                    cap as int,
                    k as int,
                    start as int,
                    load as int,
                    shards@.len() as int,
                ),
                shards@.len() == done_cuts.len(),
                forall|i: int|
                    0 <= i < done_cuts.len() ==> shard_views(shards@)[i] == shard_view_at(
                        cseq,
                        level_val,
                        done_cuts[i],
                        i,
                    ),
            decreases len - k,
        {
            let sc = cells[k].score;
            proof {
                lemma_range_load_split(cseq, start as int, k as int, k + 1);
                lemma_range_load_one(cseq, k as int);
                lemma_range_load_le_total(cseq, start as int, k + 1);
                lemma_range_load_nonneg(cseq, start as int, k + 1);
            }
            let close = start < k && shards.len() < n - 1 && (sc >= cap - load || len - k == n - 1
                - shards.len());
            proof {
                assert(close == close_here(
                    cseq,
                    n as int,
                    cap as int,
                    k as int,
                    start as int,
                    load as int,
                    shards@.len() as int,
                ));
            }
            if close {
                let ghost prev_shards = shards@;
                let ghost prev_done = shards@.len() as int;
                let name = shard_name((shards.len() + 1) as u64);
                let gs = Geoshard::new(
                    name,
                    cells[start].cell_id,
                    cells[k - 1].cell_id,
                    load,
                    level_val,
                    k - start,
                );
                shards.push(gs);
                proof {
                    done_cuts = done_cuts.push(((start as int), (k - 1) as int));
                    assert(gs@ == shard_view_at(
                        cseq,
                        level_val,
                        ((start as int), (k - 1) as int),
                        prev_done,
                    ));
                    assert forall|i: int|
                        0 <= i < done_cuts.len() implies shard_views(shards@)[i] == shard_view_at(
                        cseq,
                        level_val,
                        done_cuts[i],
                        i,
                    ) by {
                        if i < prev_done {
                            assert(shard_views(shards@)[i] == shard_views(prev_shards)[i]);
                        }
                    }
                    assert(full == done_cuts + greedy_rest(
                        cseq,
                        n as int,
                        cap as int,
                        k + 1,
                        k as int,
                        sc as int,
                        prev_done + 1,
                    )) by {
                        assert(greedy_rest(
                            cseq,
                            n as int,
                            cap as int,
                            k as int,
                            start as int,
                            load as int,
                            prev_done,
                        ) == seq![((start as int), (k - 1) as int)] + greedy_rest(
                            cseq,
                            n as int,
                            cap as int,
                            k + 1,
                            k as int,
                            sc as int,
                            prev_done + 1,
                        ));
                        assert(done_cuts + greedy_rest(
                            cseq,
                            n as int,
                            cap as int,
                            k + 1,
                            k as int,
                            sc as int,
                            prev_done + 1,
                        ) =~= (done_cuts.drop_last() + (seq![((start as int), (k - 1) as int)]
                            + greedy_rest(
                            cseq,
                            n as int,
                            cap as int,
                            k + 1,
                            k as int,
                            sc as int,
                            prev_done + 1,
                        ))));
                    }
                    lemma_range_load_one(cseq, k as int);
                }
                start = k;
                load = sc;
            } else {
                load = load + sc;
            }
            k = k + 1;
        }

        // the trailing shard takes everything since the last close
        let name = shard_name((shards.len() + 1) as u64);
        let ghost prev_shards = shards@;
        let ghost prev_done = shards@.len() as int;
        let gs = Geoshard::new(
            name,
            cells[start].cell_id,
            cells[len - 1].cell_id,
            load,
            level_val,
            len - start,
        );
        shards.push(gs);
        proof {
            done_cuts = done_cuts.push(((start as int), (len - 1) as int));
            assert(greedy_rest(
                cseq,
                n as int,
                cap as int,
                len as int,
                start as int,
                load as int,
                prev_done,
            ) == seq![((start as int), (len - 1) as int)]);
            assert(full =~= done_cuts);
            assert(gs@ == shard_view_at(
                cseq,
                level_val,
                ((start as int), (len - 1) as int),
                prev_done,
            ));
            assert forall|i: int|
                0 <= i < done_cuts.len() implies shard_views(shards@)[i] == shard_view_at(
                cseq,
                level_val,
                done_cuts[i],
                i,
            ) by {
                if i < prev_done {
                    assert(shard_views(shards@)[i] == shard_views(prev_shards)[i]);
                }
            }
            lemma_greedy_rest_props(cseq, n as int, cap as int, 0, 0, 0, 0);
            assert(full.len() == n);
            assert(shard_views(shards@) =~= collection_spec(cseq, n as int, level_val)) by {
                assert(cap as int == cap_for(cseq, n as int));
                assert(greedy_cuts(cseq, n as int) == full);
                assert(collection_spec(cseq, n as int, level_val).len() == full.len());
                assert(forall|i: int|
                    0 <= i < full.len() ==> collection_spec(cseq, n as int, level_val)[i]
                        == shard_view_at(cseq, level_val, full[i], i));
            }
        }
        Ok(GeoshardCollection { storage_level: level_val, shards })
    }
}

/// The loads of a shard sequence.
pub open spec fn loads_of(s: Seq<ShardView>) -> Seq<int> {
    s.map_values(|v: ShardView| v.load)
}

/// The sum of a sequence of integers.
pub open spec fn sum_int(s: Seq<int>) -> int
    decreases s.len(),
{
    if s.len() == 0 {
        0
    } else {
        sum_int(s.drop_last()) + s.last()
    }
}

/// The sum of the squares of a sequence of integers.
pub open spec fn sum_sq(s: Seq<int>) -> int
    decreases s.len(),
{
    if s.len() == 0 {
        0
    } else {
        sum_sq(s.drop_last()) + s.last() * s.last()
    }
}

/// The numerator of the population variance of `s` over the common
/// denominator `len * len`: `len * sum of squares - square of the sum`.
pub open spec fn var_num(s: Seq<int>) -> int {
    s.len() * sum_sq(s) - sum_int(s) * sum_int(s)
}

/// The population variance of `a` is at most that of `b`: the two
/// fractions `var_num / len^2` compared by cross-multiplication.  Since
/// the standard deviation is the square root of the variance, this also
/// orders the standard deviations.
pub open spec fn var_le(a: Seq<int>, b: Seq<int>) -> bool
    recommends
        a.len() >= 1,
        b.len() >= 1,
{
    var_num(a) * (b.len() * b.len()) <= var_num(b) * (a.len() * a.len())
}

/// The population variance of `a` is strictly below that of `b`.
pub open spec fn var_lt(a: Seq<int>, b: Seq<int>) -> bool
    recommends
        a.len() >= 1,
        b.len() >= 1,
{
    var_num(a) * (b.len() * b.len()) < var_num(b) * (a.len() * a.len())
}

/// A prefix of a non-negative sequence sums to no more than the whole.
proof fn lemma_sum_take_le(s: Seq<int>, j: int)
    requires
        forall|i: int| 0 <= i < s.len() ==> s[i] >= 0,
        0 <= j <= s.len(),
    ensures
        sum_int(s.take(j)) <= sum_int(s),
        sum_sq(s.take(j)) <= sum_sq(s),
    decreases s.len() - j,
{
    if j == s.len() {
        assert(s.take(j) =~= s);
    } else {
        lemma_sum_take_le(s, j + 1);
        assert(s.take(j + 1).drop_last() =~= s.take(j));
        assert(s.take(j + 1).last() == s[j]);
        assert(s[j] * s[j] >= 0) by (nonlinear_arith)
            requires
                s[j] >= 0,
        ;
    }
}

/// Sums of non-negative sequences are non-negative.
proof fn lemma_sum_nonneg(s: Seq<int>)
    requires
        forall|i: int| 0 <= i < s.len() ==> s[i] >= 0,
    ensures
        sum_int(s) >= 0,
        sum_sq(s) >= 0,
    decreases s.len(),
{
    if s.len() > 0 {
        assert(forall|i: int| 0 <= i < s.drop_last().len() ==> s.drop_last()[i] >= 0);
        lemma_sum_nonneg(s.drop_last());
        assert(s.last() * s.last() >= 0) by (nonlinear_arith)
            requires
                s.last() >= 0,
        ;
    }
}

/// For non-negative values, the sum of squares is at most the square
/// of the sum.
proof fn lemma_sum_sq_le_sq_sum(s: Seq<int>)
    requires
        forall|i: int| 0 <= i < s.len() ==> s[i] >= 0,
    ensures
        sum_sq(s) <= sum_int(s) * sum_int(s),
    decreases s.len(),
{
    if s.len() > 0 {
        let d = s.drop_last();
        assert(forall|i: int| 0 <= i < d.len() ==> d[i] >= 0);
        lemma_sum_sq_le_sq_sum(d);
        lemma_sum_nonneg(d);
        assert(sum_int(d) * sum_int(d) + s.last() * s.last() <= (sum_int(d) + s.last()) * (sum_int(
            d,
        ) + s.last())) by (nonlinear_arith)
            requires
                sum_int(d) >= 0,
                s.last() >= 0,
        ;
    }
}

/// Computes the total load and the sum of squared loads of a shard
/// vector.
fn load_stats(shards: &Vec<Geoshard>) -> (r: (i64, u128))
    requires
        shards@.len() >= 1,
        forall|i: int| 0 <= i < shards@.len() ==> (#[trigger] shards@[i])@.load >= 0,
        sum_int(loads_of(shard_views(shards@))) <= i64::MAX,
    ensures
        r.0 == sum_int(loads_of(shard_views(shards@))),
        r.1 == sum_sq(loads_of(shard_views(shards@))),
        r.0 >= 0,
{
    let ghost ld = loads_of(shard_views(shards@));
    proof {
        assert(forall|i: int| 0 <= i < ld.len() ==> ld[i] >= 0);
    }
    let mut total: i64 = 0;
    let mut ssq: u128 = 0;
    let mut i: usize = 0;
    while i < shards.len()
        invariant
            i <= shards@.len(),
            ld == loads_of(shard_views(shards@)),
            ld.len() == shards@.len(),
            forall|i: int| 0 <= i < ld.len() ==> ld[i] >= 0,
            forall|i: int| 0 <= i < shards@.len() ==> (#[trigger] shards@[i])@.load == ld[i],
            sum_int(ld) <= i64::MAX,
            total == sum_int(ld.take(i as int)),
            ssq == sum_sq(ld.take(i as int)),
        decreases shards@.len() - i,
    {
        let l = shards[i].cell_score();
        proof {
            assert(ld.take(i + 1).drop_last() =~= ld.take(i as int));
            assert(ld.take(i + 1).last() == ld[i as int]);
            assert(forall|j: int| 0 <= j < ld.take(i + 1).len() ==> (#[trigger] ld.take(i + 1)[j]) >= 0);
            lemma_sum_take_le(ld, i + 1);
            lemma_sum_nonneg(ld.take(i as int));
            assert(sum_int(ld.take(i + 1)) == total + l);
            lemma_sum_sq_le_sq_sum(ld.take(i + 1));
            assert(sum_int(ld.take(i + 1)) <= i64::MAX);
            assert(l <= i64::MAX);
            assert((l as int) * (l as int) <= (i64::MAX as int) * (i64::MAX as int))
                by (nonlinear_arith)
                requires
                    0 <= l <= i64::MAX,
            ;
            assert(sum_sq(ld.take(i + 1)) <= (i64::MAX as int) * (i64::MAX as int))
                by (nonlinear_arith)
                requires
                    sum_sq(ld.take(i + 1)) <= sum_int(ld.take(i + 1)) * sum_int(ld.take(i + 1)),
                    0 <= sum_int(ld.take(i + 1)) <= i64::MAX,
            ;
        }
        total = total + l;
        let lw = l as u128;
        ssq = ssq + lw * lw;
        i = i + 1;
    }
    proof {
        assert(ld.take(ld.len() as int) =~= ld);
        lemma_sum_nonneg(ld);
    }
    (total, ssq)
}

/// What the balance comparison asks of a collection: at least one
/// shard, a shard count a candidate bound can express, loads
/// non-negative and summing within the load counter.
pub open spec fn comparable(s: Seq<ShardView>) -> bool {
    &&& 1 <= s.len() <= 0x7fff_ffff
    &&& forall|i: int| 0 <= i < s.len() ==> (#[trigger] s[i]).load >= 0
    &&& sum_int(loads_of(s)) <= i64::MAX
}

/// Compares the population variances of two shard vectors' loads,
/// exactly.
#[verifier::rlimit(60)]
fn balance_leq(a: &Vec<Geoshard>, b: &Vec<Geoshard>) -> (r: bool)
    requires
        comparable(shard_views(a@)),
        comparable(shard_views(b@)),
    ensures
        r == var_le(loads_of(shard_views(a@)), loads_of(shard_views(b@))),
{
    let ghost la = loads_of(shard_views(a@));
    let ghost lb = loads_of(shard_views(b@));
    proof {
        assert forall|i: int| 0 <= i < a@.len() implies (#[trigger] a@[i])@.load >= 0 by {
            assert(shard_views(a@)[i] == a@[i]@);
        }
        assert forall|i: int| 0 <= i < b@.len() implies (#[trigger] b@[i])@.load >= 0 by {
            assert(shard_views(b@)[i] == b@[i]@);
        }
        assert(forall|i: int| 0 <= i < la.len() ==> la[i] >= 0);
        assert(forall|i: int| 0 <= i < lb.len() ==> lb[i] >= 0);
    }
    let (ta, sa) = load_stats(a);
    let (tb, sb) = load_stats(b);
    let na = a.len() as u128;
    let nb = b.len() as u128;
    proof {
        lemma_sum_sq_le_sq_sum(la);
        lemma_sum_sq_le_sq_sum(lb);
        assert(nb * nb <= 0x3fffffff00000001u128 && na * na <= 0x3fffffff00000001u128)
            by (nonlinear_arith)
            requires
                1 <= na <= 0x7fff_ffffu128,
                1 <= nb <= 0x7fff_ffffu128,
        ;
    }
    let nb2 = nb * nb;
    let na2 = na * na;
    proof {
        assert(na * nb2 <= u128::MAX && nb * na2 <= u128::MAX) by (nonlinear_arith)
            requires
                1 <= na <= 0x7fff_ffffu128,
                1 <= nb <= 0x7fff_ffffu128,
                nb2 == nb * nb,
                na2 == na * na,
        ;
        assert((ta as u128) * (ta as u128) <= u128::MAX && (tb as u128) * (tb as u128)
            <= u128::MAX) by (nonlinear_arith)
            requires
                0 <= ta as u128 <= i64::MAX as u128,
                0 <= tb as u128 <= i64::MAX as u128,
        ;
    }
    let nanb2 = na * nb2;
    let nbna2 = nb * na2;
    let ta2 = (ta as u128) * (ta as u128);
    let tb2 = (tb as u128) * (tb as u128);
    let l1 = mul_wide(nanb2, sa);
    let l2 = mul_wide(tb2, na2);
    let r1 = mul_wide(nbna2, sb);
    let r2 = mul_wide(ta2, nb2);
    proof {
        let big = 0x1_0000_0000_0000_0000_0000_0000_0000_0000int
            * 0x1_0000_0000_0000_0000_0000_0000_0000_0000int;
        let sq_cap = 0x4000_0000_0000_0000_0000_0000_0000_0000int;
        assert(sa <= sq_cap && sb <= sq_cap && ta2 <= sq_cap && tb2 <= sq_cap)
            by (nonlinear_arith)
            requires
                sa == sum_sq(la),
                sb == sum_sq(lb),
                sum_sq(la) <= sum_int(la) * sum_int(la),
                sum_sq(lb) <= sum_int(lb) * sum_int(lb),
                0 <= sum_int(la) <= 0x7fff_ffff_ffff_ffffint,
                0 <= sum_int(lb) <= 0x7fff_ffff_ffff_ffffint,
                ta2 == sum_int(la) * sum_int(la),
                tb2 == sum_int(lb) * sum_int(lb),
                sq_cap == 0x4000_0000_0000_0000_0000_0000_0000_0000int,
        ;
        assert(wide_val(l1) + wide_val(l2) < big && wide_val(r1) + wide_val(r2) < big)
            by (nonlinear_arith)
            requires
                wide_val(l1) == nanb2 * sa,
                wide_val(l2) == tb2 * na2,
                wide_val(r1) == nbna2 * sb,
                wide_val(r2) == ta2 * nb2,
                nanb2 == na * (nb * nb),
                nbna2 == nb * (na * na),
                na2 == na * na,
                nb2 == nb * nb,
                1 <= na <= 0x8000_0000u128,
                1 <= nb <= 0x8000_0000u128,
                0 <= sa <= 0x4000_0000_0000_0000_0000_0000_0000_0000int,
                0 <= sb <= 0x4000_0000_0000_0000_0000_0000_0000_0000int,
                0 <= ta2 <= 0x4000_0000_0000_0000_0000_0000_0000_0000int,
                0 <= tb2 <= 0x4000_0000_0000_0000_0000_0000_0000_0000int,
                big == 0x1_0000_0000_0000_0000_0000_0000_0000_0000int
                    * 0x1_0000_0000_0000_0000_0000_0000_0000_0000int,
        ;
    }
    let lhs = add_wide(l1, l2);
    let rhs = add_wide(r1, r2);
    let le = le_wide(lhs, rhs);
    proof {
        let na_i = la.len() as int;
        let nb_i = lb.len() as int;
        let sa_i = sum_sq(la);
        let ta_i = sum_int(la);
        let sb_i = sum_sq(lb);
        let tb_i = sum_int(lb);
        assert(((na_i * sa_i - ta_i * ta_i) * (nb_i * nb_i) <= (nb_i * sb_i - tb_i * tb_i) * (na_i
            * na_i)) <==> ((na_i * (nb_i * nb_i)) * sa_i + (tb_i * tb_i) * (na_i * na_i) <= (nb_i
            * (na_i * na_i)) * sb_i + (ta_i * ta_i) * (nb_i * nb_i))) by (nonlinear_arith);
        assert(wide_val(lhs) == (na_i * (nb_i * nb_i)) * sa_i + (tb_i * tb_i) * (na_i * na_i));
        assert(wide_val(rhs) == (nb_i * (na_i * na_i)) * sb_i + (ta_i * ta_i) * (nb_i * nb_i));
        assert(var_le(la, lb) == ((na_i * sa_i - ta_i * ta_i) * (nb_i * nb_i) <= (nb_i * sb_i
            - tb_i * tb_i) * (na_i * na_i)));
    }
    le
}

impl GeoshardCollection {
    /// Whether this collection's shard loads are at least as balanced
    /// as the other's: its population standard deviation is no larger.
    pub fn balance_no_worse_than(&self, other: &GeoshardCollection) -> (r: bool)
        requires
            comparable(self@),
            comparable(other@),
        ensures
            r == var_le(loads_of(self@), loads_of(other@)),
    {
        balance_leq(&self.shards, &other.shards)
    }
}

/// The loads of a cut sequence.
pub open spec fn cut_loads(cells: Seq<ScoredCell>, cuts: Seq<(int, int)>) -> Seq<int> {
    cuts.map_values(|cut: (int, int)| range_load(cells, cut.0, cut.1 + 1))
}

/// Prepending an element shifts a sum by that element.
proof fn lemma_sum_int_cons(x: int, s: Seq<int>)
    ensures
        sum_int(seq![x] + s) == x + sum_int(s),
    decreases s.len(),
{
    if s.len() == 0 {
        assert(seq![x] + s =~= seq![x]);
        assert(sum_int(seq![x]) == sum_int(seq![x].drop_last()) + x);
        assert(seq![x].drop_last() =~= Seq::<int>::empty());
    } else {
        lemma_sum_int_cons(x, s.drop_last());
        assert((seq![x] + s).drop_last() =~= seq![x] + s.drop_last());
        assert((seq![x] + s).last() == s.last());
    }
}

/// The remaining shards' loads sum to the load of the remaining cells.
proof fn lemma_greedy_rest_load_sum(
    cells: Seq<ScoredCell>,
    n: int,
    cap: int,
    k: int,
    start: int,
    load: int,
    done: int,
)
    requires
        greedy_state_ok(cells, n, k, start, load, done),
    ensures
        sum_int(cut_loads(cells, greedy_rest(cells, n, cap, k, start, load, done))) == range_load(
            cells,
            start,
            cells.len() as int,
        ),
    decreases cells.len() - k,
{
    let r = greedy_rest(cells, n, cap, k, start, load, done);
    if k >= cells.len() {
        let cl = cut_loads(cells, r);
        assert(cl =~= seq![range_load(cells, start, cells.len() as int)]);
        assert(cl.drop_last() =~= Seq::<int>::empty());
        assert(sum_int(cl.drop_last()) == 0);
        assert(sum_int(cl) == sum_int(cl.drop_last()) + cl.last());
    } else if close_here(cells, n, cap, k, start, load, done) {
        lemma_range_load_one(cells, k);
        let rest = greedy_rest(cells, n, cap, k + 1, k, cells[k].score as int, done + 1);
        lemma_greedy_rest_load_sum(cells, n, cap, k + 1, k, cells[k].score as int, done + 1);
        assert(cut_loads(cells, r) =~= seq![range_load(cells, start, k)] + cut_loads(cells, rest));
        lemma_sum_int_cons(range_load(cells, start, k), cut_loads(cells, rest));
        lemma_range_load_split(cells, start, k, cells.len() as int);
    } else {
        lemma_range_load_split(cells, start, k, k + 1);
        lemma_range_load_one(cells, k);
        lemma_greedy_rest_load_sum(cells, n, cap, k + 1, start, load + cells[k].score, done);
    }
}

/// The shape of a partition into `n` shards: `n` shards at the right
/// level, loads non-negative and summing to the total, counts positive.
pub proof fn lemma_collection_spec_basic(cells: Seq<ScoredCell>, n: int, level: u64)
    requires
        scored_ok(cells),
        1 <= n <= cells.len(),
    ensures
        ({
            let s = collection_spec(cells, n, level);
            &&& s.len() == n
            &&& forall|i: int| 0 <= i < s.len() ==> (#[trigger] s[i]).load >= 0
            &&& forall|i: int| 0 <= i < s.len() ==> (#[trigger] s[i]).storage_level == level
            &&& forall|i: int| 0 <= i < s.len() ==> (#[trigger] s[i]).count >= 1
            &&& sum_int(loads_of(s)) == total_load(cells)
        }),
{
    let cap = cap_for(cells, n);
    let cuts = greedy_cuts(cells, n);
    let s = collection_spec(cells, n, level);
    lemma_greedy_rest_props(cells, n, cap, 0, 0, 0, 0);
    lemma_greedy_rest_load_sum(cells, n, cap, 0, 0, 0, 0);
    assert(s.len() == cuts.len());
    assert forall|i: int| 0 <= i < s.len() implies (#[trigger] s[i]).load >= 0 by {
        assert(s[i] == shard_view_at(cells, level, cuts[i], i));
        lemma_range_load_nonneg(cells, cuts[i].0, cuts[i].1 + 1);
    }
    assert(loads_of(s) =~= cut_loads(cells, cuts));
    assert(range_load(cells, 0, cells.len() as int) == total_load(cells)) by {
        assert(cells.subrange(0, cells.len() as int) =~= cells);
    }
}

/// Being no less balanced carries over along a chain.
proof fn lemma_var_le_trans(a: Seq<int>, b: Seq<int>, c: Seq<int>)
    requires
        a.len() >= 1,
        b.len() >= 1,
        c.len() >= 1,
        var_le(a, b),
        var_le(b, c),
    ensures
        var_le(a, c),
{
    let va = var_num(a);
    let vb = var_num(b);
    let vc = var_num(c);
    let na2 = a.len() * a.len();
    let nb2 = b.len() * b.len();
    let nc2 = c.len() * c.len();
    assert(na2 >= 1 && nb2 >= 1 && nc2 >= 1) by (nonlinear_arith)
        requires
            a.len() >= 1,
            b.len() >= 1,
            c.len() >= 1,
            na2 == a.len() * a.len(),
            nb2 == b.len() * b.len(),
            nc2 == c.len() * c.len(),
    ;
    assert(va * nb2 * nc2 <= vb * na2 * nc2) by (nonlinear_arith)
        requires
            va * nb2 <= vb * na2,
            nc2 >= 0,
    ;
    assert(vb * nc2 * na2 <= vc * nb2 * na2) by (nonlinear_arith)
        requires
            vb * nc2 <= vc * nb2,
            na2 >= 0,
    ;
    assert(va * nc2 * nb2 <= vc * na2 * nb2) by (nonlinear_arith)
        requires
            va * nb2 * nc2 <= vb * na2 * nc2,
            vb * nc2 * na2 <= vc * nb2 * na2,
    ;
    assert(va * nc2 <= vc * na2) by (nonlinear_arith)
        requires
            va * nc2 * nb2 <= vc * na2 * nb2,
            nb2 >= 1,
    ;
}

/// The best-balanced partition among the candidate shard counts from
/// `lo` to `hi`, the larger counts tried first and earlier candidates
/// winning ties.
pub open spec fn best_down(cells: Seq<ScoredCell>, level: u64, hi: int, lo: int) -> Seq<ShardView>
    decreases hi - lo,
    when lo <= hi
{
    if lo >= hi {
        collection_spec(cells, hi, level)
    } else {
        let prev = best_down(cells, level, hi, lo + 1);
        let cand = collection_spec(cells, lo, level);
        if var_lt(loads_of(cand), loads_of(prev)) {
            cand
        } else {
            prev
        }
    }
}

/// What the partition search returns: the best-balanced candidate over
/// the shard counts from `lo` to `hi`.
pub open spec fn select_spec(cells: Seq<ScoredCell>, level: u64, lo: int, hi: int) -> Seq<
    ShardView,
> {
    best_down(cells, level, hi, lo)
}

/// The search's result is one of the candidates, and no candidate in
/// the range is more balanced than it.
pub proof fn lemma_best_down_props(cells: Seq<ScoredCell>, level: u64, hi: int, lo: int)
    requires
        scored_ok(cells),
        1 <= lo <= hi <= cells.len(),
    ensures
        ({
            let b = best_down(cells, level, hi, lo);
            &&& exists|m: int| lo <= m <= hi && b == collection_spec(cells, m, level)
            &&& forall|m: int|
                lo <= m <= hi ==> var_le(
                    loads_of(b),
                    loads_of(#[trigger] collection_spec(cells, m, level)),
                )
        }),
    decreases hi - lo,
{
    let b = best_down(cells, level, hi, lo);
    if lo >= hi {
        assert(lo <= hi <= hi && b == collection_spec(cells, hi, level));
    } else {
        lemma_best_down_props(cells, level, hi, lo + 1);
        let prev = best_down(cells, level, hi, lo + 1);
        let cand = collection_spec(cells, lo, level);
        lemma_collection_spec_basic(cells, lo, level);
        let pm = choose|m: int| lo + 1 <= m <= hi && prev == collection_spec(cells, m, level);
        lemma_collection_spec_basic(cells, pm, level);
        assert(loads_of(prev).len() == pm);
        assert(loads_of(cand).len() == lo);
        if var_lt(loads_of(cand), loads_of(prev)) {
            assert forall|m: int| lo <= m <= hi implies var_le(
                loads_of(b),
                loads_of(#[trigger] collection_spec(cells, m, level)),
            ) by {
                if m > lo {
                    lemma_collection_spec_basic(cells, m, level);
                    lemma_var_le_trans(
                        loads_of(cand),
                        loads_of(prev),
                        loads_of(collection_spec(cells, m, level)),
                    );
                }
            }
        } else {
            assert(var_le(loads_of(prev), loads_of(cand)));
        }
    }
}

/// Zero-scored cells over an identifier sequence: what the enumerator
/// hands the scorer.
pub open spec fn zero_scored(ids: Seq<u64>) -> Seq<ScoredCell> {
    ids.map_values(|id: u64| ScoredCell { cell_id: id, score: 0 })
}

/// The enumeration at `level`: the strictly ascending sequence holding
/// exactly the cells reachable from the seed.  It is unique when it
/// exists ([`crate::cell_list::lemma_enumeration_deterministic`]), so
/// this names a single sequence per level.
pub open spec fn the_enumeration(level: u64) -> Seq<u64> {
    choose|ids: Seq<u64>| enumeration_of(ids, level)
}

/// Everything the build pipeline returns, as a function of the
/// configuration, the records, and the scorer's own function: the
/// configuration checks, then the scorer over the zero-scored
/// enumeration, then the partition search over the scored set.
pub open spec fn build_outcome<Scorer: CellScorer<U>, U: User>(
    scorer: Scorer,
    users: Seq<U>,
    level: u64,
    min: int,
    max: int,
) -> Result<Seq<ShardView>, GeoshardError> {
    if min < 1 || min > max {
        Err(GeoshardError::InvalidShardBounds)
    } else if level > 30 {
        Err(GeoshardError::InvalidStorageLevel)
    } else {
        match scorer.spec_score(zero_scored(the_enumeration(level)), level, users) {
            Err(e) => Err(e),
            Ok(scored) => {
                if min > scored.len() {
                    Err(GeoshardError::TooFewCells)
                } else if !(nonneg_scores(scored) && total_load(scored) <= i64::MAX) {
                    Err(GeoshardError::ScoredSetInvalid)
                } else {
                    Ok(select_spec(scored, level, min, eff_max(max, scored.len() as int)))
                }
            },
        }
    }
}

/// Builds a [`GeoshardCollection`]: enumerate the cells at the storage
/// level, score them from the user records, then try every shard count
/// the bounds allow and keep the partition whose shard loads have the
/// smallest population standard deviation.
pub struct GeoshardBuilder<Scorer, U> {
    storage_level: u64,
    users: Vec<U>,
    cell_scorer: Scorer,
    min_shard_count: i32,
    max_shard_count: i32,
}

/// The largest candidate shard count: the configured maximum, capped
/// by the number of cells.
pub open spec fn eff_max(max: int, len: int) -> int {
    if max <= len {
        max
    } else {
        len
    }
}

impl<Scorer, U> GeoshardBuilder<Scorer, U> {
    /// The configured storage level.
    pub closed spec fn spec_level(&self) -> u64 {
        self.storage_level
    }

    /// The configured minimum shard count.
    pub closed spec fn spec_min(&self) -> i32 {
        self.min_shard_count
    }

    /// The configured maximum shard count.
    pub closed spec fn spec_max(&self) -> i32 {
        self.max_shard_count
    }

    /// The stored user records, in order.
    pub closed spec fn spec_users(&self) -> Seq<U> {
        self.users@
    }

    /// The stored heuristic.
    pub closed spec fn spec_scorer(&self) -> Scorer {
        self.cell_scorer
    }

    /// Gathers the build configuration.  Nothing runs until
    /// [`GeoshardBuilder::build`] is called: generating shards is
    /// expensive, and the caller decides when to pay for it.
    pub fn new(
        storage_level: u64,
        users: Vec<U>,
        cell_scorer: Scorer,
        min_shard_count: i32,
        max_shard_count: i32,
    ) -> (r: Self)
        ensures
            r.spec_level() == storage_level,
            r.spec_min() == min_shard_count,
            r.spec_max() == max_shard_count,
            r.spec_users() == users@,
            r.spec_scorer() == cell_scorer,
    {
        Self { storage_level, cell_scorer, users, min_shard_count, max_shard_count }
    }

    /// Runs the pipeline.  The outcome — success or the exact error —
    /// is [`build_outcome`] of the configuration, the records, and the
    /// scorer's own function, so repeated builds over identical inputs
    /// agree bit for bit.  On success the result is the best-balanced
    /// partition over every candidate shard count within the bounds,
    /// its own shard count within those bounds.
    pub fn build(self) -> (r: Result<GeoshardCollection, GeoshardError>) where
        Scorer: CellScorer<U>,
        U: User,

        ensures
            (self.spec_min() < 1 || self.spec_min() > self.spec_max()) ==> r == Err::<
                GeoshardCollection,
                GeoshardError,
            >(GeoshardError::InvalidShardBounds),
            (1 <= self.spec_min() <= self.spec_max() && self.spec_level() > 30) ==> r == Err::<
                GeoshardCollection,
                GeoshardError,
            >(GeoshardError::InvalidStorageLevel),
            match r {
                Ok(c) => build_outcome(
                    self.spec_scorer(),
                    self.spec_users(),
                    self.spec_level(),
                    self.spec_min() as int,
                    self.spec_max() as int,
                ) == Ok::<Seq<ShardView>, GeoshardError>(c@),
                Err(e) => build_outcome(
                    self.spec_scorer(),
                    self.spec_users(),
                    self.spec_level(),
                    self.spec_min() as int,
                    self.spec_max() as int,
                ) == Err::<Seq<ShardView>, GeoshardError>(e),
            },
            match r {
                Ok(c) => {
                    &&& 1 <= self.spec_min() <= self.spec_max()
                    &&& self.spec_level() <= 30
                    &&& c.spec_level() == self.spec_level()
                    &&& self.spec_min() <= c@.len() <= self.spec_max()
                    &&& exists|scored: Seq<ScoredCell>|
                        {
                            &&& scored_ok(scored)
                            &&& #[trigger] enumeration_of(cell_ids(scored), self.spec_level())
                            &&& self.spec_min() <= scored.len()
                            &&& c@ == select_spec(
                                scored,
                                self.spec_level(),
                                self.spec_min() as int,
                                eff_max(self.spec_max() as int, scored.len() as int),
                            )
                            &&& sum_int(loads_of(c@)) == total_load(scored)
                            &&& forall|m: int|
                                self.spec_min() <= m <= eff_max(
                                    self.spec_max() as int,
                                    scored.len() as int,
                                ) ==> var_le(
                                    loads_of(c@),
                                    loads_of(#[trigger] collection_spec(
                                        scored,
                                        m,
                                        self.spec_level(),
                                    )),
                                )
                        }
                },
                Err(_) => true,
            },
    {
        let storage_level = self.storage_level;
        let min_shard_count = self.min_shard_count;
        let max_shard_count = self.max_shard_count;
        if min_shard_count < 1 || min_shard_count > max_shard_count {
            return Err(GeoshardError::InvalidShardBounds);
        }
        let cell_list = match CellList::new(storage_level) {
            Ok(cl) => cl,
            Err(e) => {
                return Err(e);
            },
        };
        let ghost zcl = cell_list@;
        proof {
            assert(enumeration_of(cell_ids(zcl), storage_level));
            assert(exists|ids: Seq<u64>| enumeration_of(ids, storage_level));
            assert(enumeration_of(the_enumeration(storage_level), storage_level));
            crate::cell_list::lemma_enumeration_deterministic(
                the_enumeration(storage_level),
                cell_ids(zcl),
                storage_level,
            );
            assert(zero_scored(the_enumeration(storage_level)) =~= zcl) by {
                assert forall|i: int| 0 <= i < zcl.len() implies zero_scored(
                    the_enumeration(storage_level),
                )[i] == zcl[i] by {
                    assert(cell_ids(zcl)[i] == zcl[i].cell_id);
                }
            }
        }
        let scored = match self.cell_scorer.score_cell_list(cell_list, &self.users) {
            Ok(s) => s,
            Err(e) => {
                proof {
                    assert(self.spec_scorer().spec_score(zcl, storage_level, self.spec_users())
                        == Err::<Seq<ScoredCell>, GeoshardError>(e));
                }
                return Err(e);
            },
        };
        proof {
            assert(enumeration_of(cell_ids(scored@), storage_level));
            assert(self.spec_scorer().spec_score(zcl, storage_level, self.spec_users()) == Ok::<
                Seq<ScoredCell>,
                GeoshardError,
            >(scored@));
            assert(cell_ids(scored@).len() == scored@.len());
            assert(cell_ids(zcl).len() == zcl.len());
            assert(scored@.len() == zcl.len() >= 1);
        }
        let len = scored.cell_list().len();
        if (min_shard_count as usize) > len {
            proof {
                assert(min_shard_count as int > scored@.len());
            }
            return Err(GeoshardError::TooFewCells);
        }
        let max_eff: i32 = if (max_shard_count as usize) <= len {
            max_shard_count
        } else {
            len as i32
        };
        proof {
            assert(max_eff as int == eff_max(max_shard_count as int, scored@.len() as int));
            assert(min_shard_count <= max_eff);
        }
        let mut best = match GeoshardCollection::new(max_eff, &scored) {
            Ok(c) => c,
            Err(e) => {
                proof {
                    assert(e == GeoshardError::ScoredSetInvalid);
                    assert(!(nonneg_scores(scored@) && total_load(scored@) <= i64::MAX));
                }
                return Err(e);
            },
        };
        let ghost lvl = storage_level;
        proof {
            assert(best@ == best_down(scored@, lvl, max_eff as int, max_eff as int));
        }
        let mut n: i32 = max_eff;
        while n > min_shard_count
            invariant
                min_shard_count <= n <= max_eff,
                1 <= min_shard_count,
                max_eff as int <= scored@.len(),
                scored_ok(scored@),
                scored.spec_level() == lvl,
                best@ == best_down(scored@, lvl, max_eff as int, n as int),
                best.spec_level() == lvl,
            decreases n - min_shard_count,
        {
            let cand_n = n - 1;
            let cand = match GeoshardCollection::new(cand_n, &scored) {
                Ok(c) => c,
                Err(e) => {
                    proof {
                        assert(false);
                    }
                    return Err(e);
                },
            };
            proof {
                lemma_collection_spec_basic(scored@, cand_n as int, lvl);
                lemma_best_down_props(scored@, lvl, max_eff as int, n as int);
                let pm = choose|m: int|
                    n <= m <= max_eff && best@ == collection_spec(scored@, m, lvl);
                lemma_collection_spec_basic(scored@, pm, lvl);
                assert(comparable(best@));
                assert(comparable(cand@));
            }
            let keep_best = best.balance_no_worse_than(&cand);
            if !keep_best {
                best = cand;
            }
            proof {
                assert(best@ == best_down(scored@, lvl, max_eff as int, cand_n as int));
            }
            n = cand_n;
        }
        proof {
            lemma_best_down_props(scored@, lvl, max_eff as int, min_shard_count as int);
            let m = choose|m: int|
                min_shard_count as int <= m <= max_eff as int && best@ == collection_spec(
                    scored@,
                    m,
                    lvl,
                );
            lemma_collection_spec_basic(scored@, m, lvl);
            assert(best@.len() == m);
            let hi = eff_max(max_shard_count as int, scored@.len() as int);
            assert(hi == max_eff as int);
            assert(scored_ok(scored@) && enumeration_of(cell_ids(scored@), lvl)
                && min_shard_count as int <= scored@.len() && best@ == select_spec(
                scored@,
                lvl,
                min_shard_count as int,
                hi,
            ) && (forall|m2: int|
                min_shard_count as int <= m2 <= hi ==> var_le(
                    loads_of(best@),
                    loads_of(#[trigger] collection_spec(scored@, m2, lvl)),
                )));
            assert(1 <= min_shard_count <= max_shard_count);
            assert(storage_level <= 30);
            assert(best.spec_level() == storage_level);
            assert(max_eff <= max_shard_count);
            assert(min_shard_count as int <= best@.len() <= max_shard_count as int);
            assert(sum_int(loads_of(best@)) == total_load(scored@));
            assert(build_outcome(
                self.spec_scorer(),
                self.spec_users(),
                storage_level,
                min_shard_count as int,
                max_shard_count as int,
            ) == Ok::<Seq<ShardView>, GeoshardError>(best@));
            assert(1 <= self.spec_min() <= self.spec_max());
            assert(self.spec_level() <= 30);
            assert(best.spec_level() == self.spec_level());
            assert(self.spec_min() <= best@.len() <= self.spec_max());
            assert(exists|sw: Seq<ScoredCell>|
                {
                    &&& scored_ok(sw)
                    &&& #[trigger] enumeration_of(cell_ids(sw), self.spec_level())
                    &&& self.spec_min() <= sw.len()
                    &&& best@ == select_spec(
                        sw,
                        self.spec_level(),
                        self.spec_min() as int,
                        eff_max(self.spec_max() as int, sw.len() as int),
                    )
                    &&& sum_int(loads_of(best@)) == total_load(sw)
                    &&& forall|m2: int|
                        self.spec_min() <= m2 <= eff_max(
                            self.spec_max() as int,
                            sw.len() as int,
                        ) ==> var_le(
                            loads_of(best@),
                            loads_of(#[trigger] collection_spec(sw, m2, self.spec_level())),
                        )
                });
        }
        Ok(best)
    }
}

/// The default heuristic under the fixed type, for the common case.
impl<U> GeoshardBuilder<crate::cell_list::UserCountScorer, U> {
    /// A builder whose scorer counts one unit of load per user.
    pub fn user_count_scorer(
        storage_level: u64,
        users: Vec<U>,
        min_shard_count: i32,
        max_shard_count: i32,
    ) -> (r: Self)
        ensures
            r.spec_level() == storage_level,
            r.spec_min() == min_shard_count,
            r.spec_max() == max_shard_count,
            r.spec_users() == users@,
            r.spec_scorer() == crate::cell_list::UserCountScorer,
    {
        Self {
            storage_level,
            users,
            cell_scorer: crate::cell_list::UserCountScorer,
            max_shard_count,
            min_shard_count,
        }
    }
}

/// Whether a shard's inclusive identifier range holds `cell`.
pub open spec fn shard_contains(v: ShardView, cell: u64) -> bool {
    v.start <= cell <= v.end
}

/// The index the lookup scan settles on from position `i`: the first
/// shard whose range holds `cell`, or the last shard as the fallback.
pub open spec fn lookup_from(s: Seq<ShardView>, cell: u64, i: int) -> int
    decreases s.len() - i,
    when 0 <= i <= s.len()
{
    if i >= s.len() {
        s.len() - 1
    } else if shard_contains(s[i], cell) {
        i
    } else {
        lookup_from(s, cell, i + 1)
    }
}

/// The shard index a lookup for `cell` returns.
pub open spec fn lookup_index(s: Seq<ShardView>, cell: u64) -> int {
    lookup_from(s, cell, 0)
}

/// Serves "which shard owns this location" queries against an
/// immutable collection.  Lookups never fail: a cell past every range
/// falls back to the last shard.  Nothing here mutates, so one
/// searcher may serve any number of concurrent readers.
#[derive(Debug)]
pub struct GeoshardSearcher {
    storage_level: u64,
    shards: GeoshardCollection,
}

impl From<GeoshardCollection> for GeoshardSearcher {
    /// Wraps a collection, adopting its storage level.
    fn from(shards: GeoshardCollection) -> (r: GeoshardSearcher) {
        let storage_level = shards.storage_level;
        GeoshardSearcher { storage_level, shards }
    }
}

impl vstd::std_specs::convert::FromSpecImpl<GeoshardCollection> for GeoshardSearcher {
    open spec fn obeys_from_spec() -> bool {
        true
    }

    closed spec fn from_spec(shards: GeoshardCollection) -> GeoshardSearcher {
        GeoshardSearcher { storage_level: shards.spec_level(), shards }
    }
}

/// What the conversion from a collection builds: the searcher holds
/// the given collection unchanged — no shard added, removed, reordered
/// or modified — and queries at the collection's own storage level.
pub proof fn lemma_searcher_from(c: GeoshardCollection)
    ensures
        ({
            let s = <GeoshardSearcher as vstd::std_specs::convert::FromSpec<
                GeoshardCollection,
            >>::from_spec(c);
            &&& s.spec_shards() == c
            &&& s.spec_level() == c.spec_level()
            &&& s.shards_view() == c@
        }),
{
}

impl GeoshardSearcher {
    /// The level queries are mapped to cells at.
    pub closed spec fn spec_level(&self) -> u64 {
        self.storage_level
    }

    /// The collection being searched.
    pub closed spec fn spec_shards(&self) -> GeoshardCollection {
        self.shards
    }

    /// The views of the searched shards.
    pub open spec fn shards_view(&self) -> Seq<ShardView> {
        self.spec_shards()@
    }

    /// The collection being searched.
    pub fn shards(&self) -> (r: &GeoshardCollection)
        ensures
            r == self.spec_shards(),
    {
        &self.shards
    }

    /// The level queries are mapped to cells at.
    pub fn storage_level(&self) -> (r: u64)
        ensures
            r == self.spec_level(),
    {
        self.storage_level
    }

    /// The cell at the searcher's storage level that owns `location`.
    pub fn get_cell_id_from_location(&self, location: Location) -> (r: u64)
        requires
            self.spec_level() <= 30,
        ensures
            r == crate::cell_list::cell_for_location(location, self.spec_level()),
            is_cell_at_level(r, self.spec_level()),
    {
        let leaf = crate::spatial::leaf_cell_from_e6(location.lat_e6, location.lng_e6);
        let cell = crate::spatial::parent_at_level(leaf, self.storage_level);
        proof {
            crate::spatial::lemma_parent_cell_is_at_level(leaf, 30, self.spec_level());
        }
        cell
    }

    /// The shard owning `cell_id`: the first shard whose range holds
    /// it, or the last shard when none does.
    pub fn get_shard_from_cell_id(&self, cell_id: u64) -> (r: &Geoshard)
        requires
            self.shards_view().len() >= 1,
        ensures
            r@ == self.shards_view()[lookup_index(self.shards_view(), cell_id)],
    {
        let ghost s = self.shards_view();
        let v = &self.shards.shards;
        let mut i: usize = 0;
        while i < v.len()
            invariant
                0 <= i <= v@.len(),
                v@.len() == s.len() >= 1,
                s == shard_views(v@),
                s == self.shards_view(),
                forall|j: int| 0 <= j < s.len() ==> s[j] == (#[trigger] v@[j])@,
                lookup_from(s, cell_id, 0) == lookup_from(s, cell_id, i as int),
            decreases v@.len() - i,
        {
            let g = &v[i];
            if g.start() <= cell_id && cell_id <= g.end() {
                proof {
                    assert(g@ == s[i as int]);
                    assert(shard_contains(s[i as int], cell_id));
                    assert(lookup_from(s, cell_id, i as int) == i);
                    assert(lookup_index(s, cell_id) == i);
                }
                return g;
            }
            proof {
                assert(!shard_contains(s[i as int], cell_id));
                assert(lookup_from(s, cell_id, i as int) == lookup_from(s, cell_id, i + 1));
            }
            i = i + 1;
        }
        proof {
            assert(lookup_from(s, cell_id, s.len() as int) == s.len() - 1);
        }
        let last = v.len() - 1;
        &v[last]
    }

    /// The shard owning the cell that `location` maps to.
    pub fn get_shard_from_location(&self, location: Location) -> (r: &Geoshard)
        requires
            self.spec_level() <= 30,
            self.shards_view().len() >= 1,
        ensures
            r@ == self.shards_view()[lookup_index(
                self.shards_view(),
                crate::cell_list::cell_for_location(location, self.spec_level()),
            )],
    {
        let cell = self.get_cell_id_from_location(location);
        self.get_shard_from_cell_id(cell)
    }

    /// The shard owning the given user's location: the user is read
    /// only through its location, so repeated queries for one user
    /// return the same shard.
    pub fn get_shard_for_user<T: User>(&self, user: &T) -> (r: &Geoshard)
        requires
            self.spec_level() <= 30,
            self.shards_view().len() >= 1,
        ensures
            r@ == self.shards_view()[lookup_index(
                self.shards_view(),
                crate::cell_list::cell_for_location(user.spec_location(), self.spec_level()),
            )],
    {
        let location = user.location();
        self.get_shard_from_location(location)
    }

    /// The shard owning each of the given cells, in order.  The list
    /// may repeat a shard when several cells fall in it.
    pub fn get_shards_from_cell_ids(&self, cell_ids: &Vec<u64>) -> (r: Vec<&Geoshard>)
        requires
            self.shards_view().len() >= 1,
        ensures
            r@.len() == cell_ids@.len(),
            forall|i: int|
                0 <= i < r@.len() ==> (#[trigger] r@[i])@ == self.shards_view()[lookup_index(
                    self.shards_view(),
                    cell_ids@[i],
                )],
    {
        let mut out: Vec<&Geoshard> = Vec::new();
        let mut i: usize = 0;
        while i < cell_ids.len()
            invariant
                0 <= i <= cell_ids@.len(),
                out@.len() == i,
                self.shards_view().len() >= 1,
                forall|j: int|
                    0 <= j < out@.len() ==> (#[trigger] out@[j])@ == self.shards_view()[lookup_index(
                        self.shards_view(),
                        cell_ids@[j],
                    )],
            decreases cell_ids@.len() - i,
        {
            let g = self.get_shard_from_cell_id(cell_ids[i]);
            out.push(g);
            i = i + 1;
        }
        out
    }
}

/// In a tiling, ranges at smaller indices end before ranges at larger
/// indices begin.
proof fn lemma_cuts_monotone(cuts: Seq<(int, int)>, i1: int, i2: int)
    requires
        forall|i: int| 0 <= i < cuts.len() ==> (#[trigger] cuts[i]).0 <= cuts[i].1,
        forall|i: int| 0 <= i < cuts.len() - 1 ==> (#[trigger] cuts[i + 1]).0 == cuts[i].1 + 1,
        0 <= i1 < i2 < cuts.len(),
    ensures
        cuts[i1].1 < cuts[i2].0,
    decreases i2 - i1,
{
    assert(cuts[(i2 - 1) + 1].0 == cuts[i2 - 1].1 + 1);
    if i1 + 1 < i2 {
        lemma_cuts_monotone(cuts, i1, i2 - 1);
    }
}

/// In a tiling that spans `j`, some range holds `j`.
proof fn lemma_cut_for_index(cuts: Seq<(int, int)>, j: int)
    requires
        cuts.len() >= 1,
        forall|i: int| 0 <= i < cuts.len() ==> (#[trigger] cuts[i]).0 <= cuts[i].1,
        forall|i: int| 0 <= i < cuts.len() - 1 ==> (#[trigger] cuts[i + 1]).0 == cuts[i].1 + 1,
        cuts[0].0 <= j <= cuts[cuts.len() - 1].1,
    ensures
        exists|i: int| 0 <= i < cuts.len() && (#[trigger] cuts[i]).0 <= j && j <= cuts[i].1,
    decreases cuts.len(),
{
    if j <= cuts[0].1 {
        assert(cuts[0].0 <= j && j <= cuts[0].1);
    } else {
        let rest = cuts.drop_first();
        assert(forall|i: int| 0 <= i < rest.len() ==> (#[trigger] rest[i]) == cuts[i + 1]);
        assert(rest.len() >= 1) by {
            assert(cuts[cuts.len() - 1].1 >= j);
        }
        assert(rest[0].0 == cuts[0].1 + 1);
        assert(rest[rest.len() - 1].1 == cuts[cuts.len() - 1].1);
        assert(forall|i: int|
            0 <= i < rest.len() - 1 ==> (#[trigger] rest[i + 1]).0 == rest[i].1 + 1);
        lemma_cut_for_index(rest, j);
        let i = choose|i: int| 0 <= i < rest.len() && (#[trigger] rest[i]).0 <= j && j <= rest[i].1;
        assert(cuts[i + 1].0 <= j && j <= cuts[i + 1].1);
    }
}

/// Coverage: when the scored cells are strictly ascending, every cell
/// of the set is owned by exactly one shard of the partition — no cell
/// is lost, and no cell is claimed twice.
pub proof fn lemma_partition_covers_cells(cells: Seq<ScoredCell>, n: int, level: u64, j: int)
    requires
        scored_ok(cells),
        strictly_increasing(cell_ids(cells)),
        1 <= n <= cells.len(),
        0 <= j < cells.len(),
    ensures
        ({
            let s = collection_spec(cells, n, level);
            &&& exists|i: int| 0 <= i < s.len() && shard_contains(#[trigger] s[i], cells[j].cell_id)
            &&& forall|i1: int, i2: int|
                0 <= i1 < s.len() && 0 <= i2 < s.len() && shard_contains(
                    #[trigger] s[i1],
                    cells[j].cell_id,
                ) && shard_contains(#[trigger] s[i2], cells[j].cell_id) ==> i1 == i2
        }),
{
    let cuts = greedy_cuts(cells, n);
    let s = collection_spec(cells, n, level);
    let id = cells[j].cell_id;
    lemma_greedy_rest_props(cells, n, cap_for(cells, n), 0, 0, 0, 0);
    assert(forall|x: int|
        0 <= x < cells.len() ==> (#[trigger] cell_ids(cells)[x]) == cells[x].cell_id);
    lemma_cut_for_index(cuts, j);
    let i = choose|i: int| 0 <= i < cuts.len() && (#[trigger] cuts[i]).0 <= j && j <= cuts[i].1;
    assert(s[i] == shard_view_at(cells, level, cuts[i], i));
    assert(s[i].start <= id) by {
        if cuts[i].0 < j {
            assert(cell_ids(cells)[cuts[i].0] < cell_ids(cells)[j]);
        }
    }
    assert(id <= s[i].end) by {
        if j < cuts[i].1 {
            assert(cell_ids(cells)[j] < cell_ids(cells)[cuts[i].1]);
        }
    }
    assert(shard_contains(s[i], id));
    assert forall|i1: int, i2: int|
        0 <= i1 < s.len() && 0 <= i2 < s.len() && shard_contains(#[trigger] s[i1], id)
            && shard_contains(#[trigger] s[i2], id) implies i1 == i2 by {
        if i1 < i2 {
            lemma_cuts_monotone(cuts, i1, i2);
            assert(s[i1] == shard_view_at(cells, level, cuts[i1], i1));
            assert(s[i2] == shard_view_at(cells, level, cuts[i2], i2));
            assert(cell_ids(cells)[cuts[i1].1] < cell_ids(cells)[cuts[i2].0]);
            assert(false);
        }
        if i2 < i1 {
            lemma_cuts_monotone(cuts, i2, i1);
            assert(s[i1] == shard_view_at(cells, level, cuts[i1], i1));
            assert(s[i2] == shard_view_at(cells, level, cuts[i2], i2));
            assert(cell_ids(cells)[cuts[i2].1] < cell_ids(cells)[cuts[i1].0]);
            assert(false);
        }
    }
}

/// The lookup scan settles on the first range that holds the cell.
proof fn lemma_lookup_first(s: Seq<ShardView>, cell: u64, i0: int, k: int)
    requires
        0 <= k <= i0 < s.len(),
        shard_contains(s[i0], cell),
        forall|i: int| 0 <= i < i0 ==> !shard_contains(#[trigger] s[i], cell),
    ensures
        lookup_from(s, cell, k) == i0,
    decreases i0 - k,
{
    if k < i0 {
        lemma_lookup_first(s, cell, i0, k + 1);
    }
}

/// Lookup consistency: looking up any cell of the partitioned set
/// returns precisely the shard whose range holds it — the shard whose
/// load is the sum of the scores of the cells between its endpoints,
/// among them whatever load that cell accumulated during scoring.
pub proof fn lemma_lookup_finds_scoring_shard(cells: Seq<ScoredCell>, n: int, level: u64, j: int)
    requires
        scored_ok(cells),
        strictly_increasing(cell_ids(cells)),
        1 <= n <= cells.len(),
        0 <= j < cells.len(),
    ensures
        ({
            let s = collection_spec(cells, n, level);
            let i = lookup_index(s, cells[j].cell_id);
            &&& 0 <= i < s.len()
            &&& shard_contains(s[i], cells[j].cell_id)
            &&& exists|a: int, b: int|
                0 <= a <= j <= b < cells.len() && s[i].start == cells[a].cell_id && s[i].end
                    == cells[b].cell_id && s[i].load == range_load(cells, a, b + 1) && s[i].count
                    == b - a + 1
        }),
{
    let cuts = greedy_cuts(cells, n);
    let s = collection_spec(cells, n, level);
    let id = cells[j].cell_id;
    lemma_partition_covers_cells(cells, n, level, j);
    let i0 = choose|i: int| 0 <= i < s.len() && shard_contains(#[trigger] s[i], id);
    assert forall|i: int| 0 <= i < i0 implies !shard_contains(#[trigger] s[i], id) by {
        if shard_contains(s[i], id) {
            assert(i == i0);
        }
    }
    lemma_lookup_first(s, id, i0, 0);
    lemma_greedy_rest_props(cells, n, cap_for(cells, n), 0, 0, 0, 0);
    assert(forall|x: int|
        0 <= x < cells.len() ==> (#[trigger] cell_ids(cells)[x]) == cells[x].cell_id);
    lemma_cut_for_index(cuts, j);
    let iw = choose|i: int| 0 <= i < cuts.len() && (#[trigger] cuts[i]).0 <= j && j <= cuts[i].1;
    assert(s[iw] == shard_view_at(cells, level, cuts[iw], iw));
    assert(s[iw].start <= id) by {
        if cuts[iw].0 < j {
            assert(cell_ids(cells)[cuts[iw].0] < cell_ids(cells)[j]);
        }
    }
    assert(id <= s[iw].end) by {
        if j < cuts[iw].1 {
            assert(cell_ids(cells)[j] < cell_ids(cells)[cuts[iw].1]);
        }
    }
    assert(shard_contains(s[iw], id));
    assert(iw == i0);
    let a = cuts[i0].0;
    let b = cuts[i0].1;
    assert(0 <= a <= j <= b < cells.len() && s[i0].start == cells[a].cell_id && s[i0].end
        == cells[b].cell_id && s[i0].load == range_load(cells, a, b + 1) && s[i0].count == b - a
        + 1);
}

/// Determinism: the whole pipeline's outcome is a function of the
/// configuration, the records, and the scorer alone
/// ([`build_outcome`], which [`GeoshardBuilder::build`]'s contract pins
/// every result to), so repeated builds over identical inputs return
/// identical results — bit-identical collections on success, the same
/// error otherwise.
pub proof fn lemma_build_deterministic<Scorer: CellScorer<U>, U: User>(
    scorer: Scorer,
    users: Seq<U>,
    level: u64,
    min: int,
    max: int,
    r1: Result<Seq<ShardView>, GeoshardError>,
    r2: Result<Seq<ShardView>, GeoshardError>,
)
    requires
        r1 == build_outcome(scorer, users, level, min, max),
        r2 == build_outcome(scorer, users, level, min, max),
    ensures
        r1 == r2,
{
}

/// Sums of all-zero sequences vanish.
proof fn lemma_sum_of_zeros(s: Seq<int>)
    requires
        forall|i: int| 0 <= i < s.len() ==> s[i] == 0,
    ensures
        sum_int(s) == 0,
        sum_sq(s) == 0,
    decreases s.len(),
{
    if s.len() > 0 {
        lemma_sum_of_zeros(s.drop_last());
    }
}

/// An empty user stream leaves every shard's load at zero and the load
/// variance at zero: the count-based build over no records partitions
/// zero-scored cells, whatever shard count the search settles on.
pub proof fn lemma_empty_stream_zero_loads<U: User>(
    users: Seq<U>,
    level: u64,
    min: int,
    max: int,
    c: Seq<ShardView>,
)
    requires
        users.len() == 0,
        build_outcome(crate::cell_list::UserCountScorer, users, level, min, max) == Ok::<
            Seq<ShardView>,
            GeoshardError,
        >(c),
    ensures
        forall|i: int| 0 <= i < c.len() ==> (#[trigger] c[i]).load == 0,
        var_num(loads_of(c)) == 0,
{
    let e = the_enumeration(level);
    let z = zero_scored(e);
    assert(crate::cell_list::user_cells::<U>(users, level) =~= Seq::<u64>::empty());
    assert(crate::cell_list::count_users_spec(z, Seq::<u64>::empty()) == Ok::<
        Seq<ScoredCell>,
        GeoshardError,
    >(z));
    assert(forall|i: int| 0 <= i < z.len() ==> (#[trigger] z[i]).score == 0);
    crate::cell_list::lemma_total_load_zero(z);
    assert(1 <= min <= z.len());
    assert(c == select_spec(z, level, min, eff_max(max, z.len() as int)));
    let hi = eff_max(max, z.len() as int);
    assert(scored_ok(z));
    lemma_best_down_props(z, level, hi, min);
    let m = choose|m: int| min <= m <= hi && c == collection_spec(z, m, level);
    lemma_collection_spec_basic(z, m, level);
    lemma_greedy_rest_props(z, m, cap_for(z, m), 0, 0, 0, 0);
    let cuts = greedy_cuts(z, m);
    assert forall|i: int| 0 <= i < c.len() implies (#[trigger] c[i]).load == 0 by {
        assert(c[i] == shard_view_at(z, level, cuts[i], i));
        lemma_range_load_nonneg(z, cuts[i].0, cuts[i].1 + 1);
        lemma_range_load_le_total(z, cuts[i].0, cuts[i].1 + 1);
    }
    assert(forall|i: int| 0 <= i < loads_of(c).len() ==> loads_of(c)[i] == 0);
    lemma_sum_of_zeros(loads_of(c));
}

/// Lookup consistency for the records themselves: when a count-based
/// build succeeds, every user it counted is owned by a shard whose
/// range holds the user's cell — the fallback is never what finds it —
/// so looking a user up returns the shard its unit of load went to.
/// The existence hypothesis is what any successful enumeration
/// witnesses: some strictly ascending cell sequence covers the level.
pub proof fn lemma_user_lookup_consistent<U: User>(
    users: Seq<U>,
    level: u64,
    min: int,
    max: int,
    c: Seq<ShardView>,
    k: int,
)
    requires
        exists|ids: Seq<u64>| enumeration_of(ids, level),
        build_outcome(crate::cell_list::UserCountScorer, users, level, min, max) == Ok::<
            Seq<ShardView>,
            GeoshardError,
        >(c),
        0 <= k < users.len(),
    ensures
        ({
            let cell = crate::cell_list::cell_for_location(users[k].spec_location(), level);
            let i = lookup_index(c, cell);
            &&& 0 <= i < c.len()
            &&& shard_contains(c[i], cell)
        }),
{
    let e = the_enumeration(level);
    let z = zero_scored(e);
    let ucs = crate::cell_list::user_cells(users, level);
    let cell = crate::cell_list::cell_for_location(users[k].spec_location(), level);
    assert(enumeration_of(e, level));
    assert(crate::cell_list::count_users_spec(z, ucs) is Ok);
    let scored = crate::cell_list::count_users_spec(z, ucs)->Ok_0;
    crate::cell_list::lemma_count_preserves_ids(z, ucs);
    crate::cell_list::lemma_count_ok_all_present(z, ucs, k);
    assert(cell_ids(z) =~= e);
    assert(cell_ids(scored) == e);
    assert(ucs[k] == cell);
    assert(cell_ids(scored).contains(cell));
    assert(strictly_increasing(cell_ids(scored)));
    let j = choose|j: int| 0 <= j < cell_ids(scored).len() && cell_ids(scored)[j] == cell;
    assert(scored[j].cell_id == cell);
    assert(scored_ok(scored)) by {
        assert(1 <= min <= scored.len());
    }
    let hi = eff_max(max, scored.len() as int);
    assert(c == select_spec(scored, level, min, hi));
    lemma_best_down_props(scored, level, hi, min);
    let m = choose|m: int| min <= m <= hi && c == collection_spec(scored, m, level);
    lemma_lookup_finds_scoring_shard(scored, m, level, j);
}

} // verus!
