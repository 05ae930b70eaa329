//! Cell enumeration and scoring.
//!
//! A [`CellList`] holds every cell of the sphere at one storage level,
//! in ascending identifier order, each with an integer load score.  It
//! is produced by a flood fill over the neighbor graph starting from
//! the cell containing coordinate (0, 0), and scored by a pluggable
//! [`CellScorer`].

use vstd::prelude::*;
use vstd::hash_set::HashSetWithView;
use vstd::relations::sorted_by;
use vstd::seq_lib::group_to_multiset_ensures;

use crate::GeoshardError;
use crate::spatial::{
    cell_neighbors, is_cell_at_level, leaf_cell_from_e6, leaf_cell_of, neighbors_of,
    parent_at_level, parent_cell, sort_cell_ids,
};
use crate::users::User;

verus! {

broadcast use group_to_multiset_ensures, vstd::set::group_set_axioms;

/// One cell at the storage level together with its load score.
#[derive(Clone, Copy, Debug, PartialEq, Eq, Structural)]
pub struct ScoredCell {
    /// The cell's identifier.
    pub cell_id: u64,
    /// The cell's accumulated load.
    pub score: i64,
}

/// The identifiers of a scored sequence, in order.
pub open spec fn cell_ids(cells: Seq<ScoredCell>) -> Seq<u64> {
    cells.map_values(|c: ScoredCell| c.cell_id)
}

/// Strict ascending order: no duplicates, no inversions.
pub open spec fn strictly_increasing(s: Seq<u64>) -> bool {
    forall|i: int, j: int| 0 <= i < j < s.len() ==> s[i] < s[j]
}

/// Every score is non-negative.
pub open spec fn nonneg_scores(cells: Seq<ScoredCell>) -> bool {
    forall|i: int| 0 <= i < cells.len() ==> cells[i].score >= 0
}

/// The sum of all scores.
pub open spec fn total_load(cells: Seq<ScoredCell>) -> int
    decreases cells.len(),
{
    if cells.len() == 0 {
        0
    } else {
        total_load(cells.drop_last()) + cells.last().score
    }
}

/// The seed of the enumeration: the cell at `level` containing the
/// coordinate (0, 0).
pub open spec fn seed_cell(level: u64) -> u64 {
    parent_cell(leaf_cell_of(0, 0), level)
}

/// `c` can be reached from `seed` in at most `n` neighbor steps.
pub open spec fn reaches(level: u64, seed: u64, c: u64, n: nat) -> bool
    decreases n,
{
    if n == 0 {
        c == seed
    } else {
        reaches(level, seed, c, (n - 1) as nat) || exists|b: u64, i: int|
            reaches(level, seed, b, (n - 1) as nat) && 0 <= i < neighbors_of(b, level).len()
                && neighbors_of(b, level)[i] == c
    }
}

/// `c` lies in the connected component of `seed` in the neighbor graph.
pub open spec fn reachable(level: u64, seed: u64, c: u64) -> bool {
    exists|n: nat| reaches(level, seed, c, n)
}

/// What the enumerator establishes: the identifiers are strictly
/// ascending and hold exactly the cells reachable from the seed.
pub open spec fn enumeration_of(ids: Seq<u64>, level: u64) -> bool {
    &&& strictly_increasing(ids)
    &&& forall|c: u64| #[trigger] ids.contains(c) <==> reachable(level, seed_cell(level), c)
}

/// A set that contains the seed and is closed under the neighbor
/// relation contains everything the seed reaches.
proof fn lemma_closed_set_contains_reachable(
    level: u64,
    seed: u64,
    s: Seq<u64>,
    c: u64,
    n: nat,
)
    requires
        s.contains(seed),
        forall|i: int, j: int|
            0 <= i < s.len() && 0 <= j < neighbors_of(#[trigger] s[i], level).len()
                ==> s.contains(#[trigger] neighbors_of(s[i], level)[j]),
        reaches(level, seed, c, n),
    ensures
        s.contains(c),
    decreases n,
{
    if n > 0 {
        if reaches(level, seed, c, (n - 1) as nat) {
            lemma_closed_set_contains_reachable(level, seed, s, c, (n - 1) as nat);
        } else {
            let (b, i) = choose|b: u64, i: int|
                reaches(level, seed, b, (n - 1) as nat) && 0 <= i < neighbors_of(
                    b,
                    level,
                ).len() && neighbors_of(b, level)[i] == c;
            lemma_closed_set_contains_reachable(level, seed, s, b, (n - 1) as nat);
            let k = choose|k: int| 0 <= k < s.len() && s[k] == b;
            assert(s.contains(neighbors_of(s[k], level)[i]));
        }
    }
}

/// Two enumerations at the same level list the same cells in the same
/// order: membership is fixed by reachability and the order by sorting,
/// so the enumerator's output is a function of the level alone.
pub proof fn lemma_enumeration_deterministic(a: Seq<u64>, b: Seq<u64>, level: u64)
    requires
        enumeration_of(a, level),
        enumeration_of(b, level),
    ensures
        a == b,
        a.len() == b.len(),
{
    let leq = |x: u64, y: u64| x <= y;
    assert forall|x: u64| a.to_multiset().contains(x) implies b.to_multiset().contains(x) by {
        assert(a.contains(x));
        assert(b.contains(x));
    }
    assert forall|x: u64| b.to_multiset().contains(x) implies a.to_multiset().contains(x) by {
        assert(b.contains(x));
        assert(a.contains(x));
    }
    lemma_strictly_increasing_no_duplicates(a);
    lemma_strictly_increasing_no_duplicates(b);
    a.lemma_multiset_has_no_duplicates();
    b.lemma_multiset_has_no_duplicates();
    assert forall|x: u64| #[trigger] a.to_multiset().count(x) == b.to_multiset().count(x) by {
        if a.to_multiset().contains(x) || b.to_multiset().contains(x) {
            assert(a.to_multiset().count(x) == 1);
            assert(b.to_multiset().count(x) == 1);
        } else {
            assert(a.to_multiset().count(x) == 0);
            assert(b.to_multiset().count(x) == 0);
        }
    }
    assert(a.to_multiset() =~= b.to_multiset());
    assert(sorted_by(a, leq));
    assert(sorted_by(b, leq));
    vstd::seq_lib::lemma_sorted_unique(a, b, leq);
}

/// Strictly ascending identifiers never repeat.
proof fn lemma_strictly_increasing_no_duplicates(s: Seq<u64>)
    requires
        strictly_increasing(s),
    ensures
        s.no_duplicates(),
{
    assert forall|i: int, j: int| 0 <= i < s.len() && 0 <= j < s.len() && i != j implies s[i]
        != s[j] by {
        if i < j {
            assert(s[i] < s[j]);
        } else {
            assert(s[j] < s[i]);
        }
    }
}

/// The set of 64-bit values below `n`.
spec fn values_below(n: int) -> Set<u64> {
    Set::new(|c: u64| (c as int) < n)
}

/// There are exactly `n` values below `n`.
proof fn lemma_values_below_card(n: int)
    requires
        0 <= n <= u64::MAX as int + 1,
    ensures
        values_below(n).finite(),
        values_below(n).len() == n,
    decreases n,
{
    if n == 0 {
        assert(values_below(0) =~= Set::<u64>::empty());
    } else {
        lemma_values_below_card(n - 1);
        assert(values_below(n) =~= values_below(n - 1).insert((n - 1) as u64));
        assert(!values_below(n - 1).contains((n - 1) as u64));
    }
}

/// Valid cells carry a cube face below six in their top three bits, so
/// a duplicate-free list of them can never outgrow that value range.
proof fn lemma_cell_population_bounded(found: Seq<u64>, level: u64)
    requires
        found.no_duplicates(),
        forall|i: int| 0 <= i < found.len() ==> is_cell_at_level(#[trigger] found[i], level),
    ensures
        found.len() <= 0xC000_0000_0000_0000,
{
    let s = found.to_set();
    found.unique_seq_to_set();
    assert forall|c: u64| s.contains(c) implies values_below(
        0xC000_0000_0000_0000,
    ).contains(c) by {
        let i = choose|i: int| 0 <= i < found.len() && found[i] == c;
        assert(is_cell_at_level(c, level));
        assert((c >> 61) < 6 ==> c < 0xC000_0000_0000_0000u64) by (bit_vector);
    }
    lemma_values_below_card(0xC000_0000_0000_0000);
    vstd::set_lib::lemma_len_subset(s, values_below(0xC000_0000_0000_0000));
}

/// Flood fill of the neighbor graph at `storage_level` from `seed`,
/// returning every reachable cell in ascending identifier order.  The
/// worklist is an explicit stack, so the traversal cannot exhaust the
/// call stack however large the graph is.  It always terminates: each
/// round pops one entry, pushes happen only when a cell is seen for
/// the first time, at most eight per cell, and the cell population at
/// one level is finite.
fn gather_cells(storage_level: u64, seed: u64) -> (ids: Vec<u64>)
    requires
        is_cell_at_level(seed, storage_level),
    ensures
        strictly_increasing(ids@),
        forall|c: u64| #[trigger] ids@.contains(c) <==> reachable(storage_level, seed, c),
        forall|i: int| 0 <= i < ids@.len() ==> is_cell_at_level(#[trigger] ids@[i], storage_level),
        ids@.len() >= 1,
{
    let mut seen: HashSetWithView<u64> = HashSetWithView::new();
    let mut found: Vec<u64> = Vec::new();
    let mut stack: Vec<u64> = Vec::new();
    stack.push(seed);

    proof {
        assert(reaches(storage_level, seed, seed, 0));
        assert(stack@.len() == 1 && stack@[0] == seed);
        assert(stack@.contains(seed));
        assert(seen@ =~= found@.to_set());
        lemma_cell_population_bounded(found@, storage_level);
    }

    while stack.len() != 0
        invariant
            seen@ == found@.to_set(),
            found@.no_duplicates(),
            found@.contains(seed) || stack@.contains(seed),
            forall|i: int|
                0 <= i < found@.len() ==> is_cell_at_level(#[trigger] found@[i], storage_level),
            forall|i: int|
                0 <= i < stack@.len() ==> is_cell_at_level(#[trigger] stack@[i], storage_level),
            forall|i: int|
                0 <= i < found@.len() ==> reachable(storage_level, seed, #[trigger] found@[i]),
            forall|i: int|
                0 <= i < stack@.len() ==> reachable(storage_level, seed, #[trigger] stack@[i]),
            forall|i: int, j: int|
                0 <= i < found@.len() && 0 <= j < neighbors_of(
                    #[trigger] found@[i],
                    storage_level,
                ).len() ==> found@.contains(#[trigger] neighbors_of(found@[i], storage_level)[j])
                    || stack@.contains(neighbors_of(found@[i], storage_level)[j]),
            found@.len() <= 0xC000_0000_0000_0000,
        decreases 8 * (0xC000_0000_0000_0000 - found@.len()) + stack@.len(),
    {
        let ghost prev_stack = stack@;
        let ghost prev_found = found@;
        let current = stack.pop().unwrap();
        proof {
            assert(stack@ == prev_stack.drop_last());
            assert(current == prev_stack.last());
            assert(prev_stack.contains(current)) by {
                assert(prev_stack[prev_stack.len() - 1] == current);
            }
            assert forall|x: u64| #[trigger] stack@.contains(x) implies prev_stack.contains(x) by {
                let i = choose|i: int| 0 <= i < stack@.len() && stack@[i] == x;
                assert(prev_stack[i] == x);
            }
            assert forall|x: u64| prev_stack.contains(x) implies stack@.contains(x) || x
                == current by {
                let i = choose|i: int| 0 <= i < prev_stack.len() && prev_stack[i] == x;
                if i < prev_stack.len() - 1 {
                    assert(stack@[i] == x);
                }
            }
        }

        if !seen.contains(&current) {
            seen.insert(current);
            found.push(current);
            proof {
                assert forall|x: u64| #[trigger] found@.contains(x) implies prev_found.contains(x)
                    || x == current by {
                    let i = choose|i: int| 0 <= i < found@.len() && found@[i] == x;
                    if i < prev_found.len() {
                        assert(prev_found[i] == x);
                    }
                }
                assert forall|x: u64| prev_found.contains(x) implies #[trigger] found@.contains(
                    x,
                ) by {
                    let i = choose|i: int| 0 <= i < prev_found.len() && prev_found[i] == x;
                    assert(found@[i] == x);
                }
                assert(found@.contains(current)) by {
                    assert(found@[found@.len() - 1] == current);
                }
                assert(seen@ =~= found@.to_set());
                assert(found@.no_duplicates()) by {
                    assert(!prev_found.to_set().contains(current));
                    assert(!prev_found.contains(current));
                }
                lemma_cell_population_bounded(found@, storage_level);
            }
            let mut nb = cell_neighbors(current, storage_level);
            let ghost nb_seq = nb@;
            let ghost mid_stack = stack@;
            stack.append(&mut nb);
            proof {
                assert(stack@ == mid_stack + nb_seq);
                assert(nb_seq == neighbors_of(current, storage_level));
                let ghost m = choose|m: nat| reaches(storage_level, seed, current, m);
                assert(reaches(storage_level, seed, current, m));
                assert forall|j: int|
                    0 <= j < nb_seq.len() implies reachable(
                    storage_level,
                    seed,
                    #[trigger] nb_seq[j],
                ) by {
                    assert(reaches(storage_level, seed, nb_seq[j], m + 1));
                }
                assert forall|x: u64| mid_stack.contains(x) implies #[trigger] stack@.contains(
                    x,
                ) by {
                    let i = choose|i: int| 0 <= i < mid_stack.len() && mid_stack[i] == x;
                    assert(stack@[i] == x);
                }
                assert forall|j: int| 0 <= j < nb_seq.len() implies stack@.contains(
                    #[trigger] nb_seq[j],
                ) by {
                    assert(stack@[mid_stack.len() + j] == nb_seq[j]);
                }
                // the closure invariant: old entries keep their neighbors in
                // found or on the stack, and the new entry's neighbors were
                // just appended
                assert forall|i: int, j: int|
                    0 <= i < found@.len() && 0 <= j < neighbors_of(
                        #[trigger] found@[i],
                        storage_level,
                    ).len() implies found@.contains(
                    #[trigger] neighbors_of(found@[i], storage_level)[j],
                ) || stack@.contains(neighbors_of(found@[i], storage_level)[j]) by {
                    let x = neighbors_of(found@[i], storage_level)[j];
                    if i < prev_found.len() {
                        assert(found@[i] == prev_found[i]);
                        if prev_found.contains(x) {
                            assert(found@.contains(x));
                        } else {
                            assert(prev_stack.contains(x));
                            if x == current {
                                assert(found@.contains(x));
                            } else {
                                assert(mid_stack.contains(x));
                            }
                        }
                    } else {
                        assert(found@[i] == current);
                        assert(x == nb_seq[j]);
                    }
                }
            }
        } else {
            proof {
                assert(found@.to_set().contains(current));
                assert(found@.contains(current));
                assert forall|i: int, j: int|
                    0 <= i < found@.len() && 0 <= j < neighbors_of(
                        #[trigger] found@[i],
                        storage_level,
                    ).len() implies found@.contains(
                    #[trigger] neighbors_of(found@[i], storage_level)[j],
                ) || stack@.contains(neighbors_of(found@[i], storage_level)[j]) by {
                    let x = neighbors_of(found@[i], storage_level)[j];
                    if !found@.contains(x) {
                        assert(prev_stack.contains(x));
                        if x == current {
                            assert(found@.contains(x));
                        }
                    }
                }
            }
        }
    }

    proof {
        assert(found@.contains(seed));
        assert forall|c: u64| reachable(storage_level, seed, c) implies #[trigger] found@.contains(
            c,
        ) by {
            let n = choose|n: nat| reaches(storage_level, seed, c, n);
            lemma_closed_set_contains_reachable(storage_level, seed, found@, c, n);
        }
    }

    let ghost pre_sort = found@;
    sort_cell_ids(&mut found);
    proof {
        let leq = |x: u64, y: u64| x <= y;
        pre_sort.lemma_multiset_has_no_duplicates();
        found@.lemma_multiset_has_no_duplicates_conv();
        assert forall|i: int, j: int| 0 <= i < j < found@.len() implies found@[i] < found@[j] by {
            assert(leq(found@[i], found@[j]));
            assert(found@[i] != found@[j]);
        }
        assert forall|c: u64| #[trigger] found@.contains(c) <==> reachable(
            storage_level,
            seed,
            c,
        ) by {
            assert(found@.contains(c) <==> found@.to_multiset().count(c) > 0);
            assert(pre_sort.contains(c) <==> pre_sort.to_multiset().count(c) > 0);
        }
        assert forall|i: int| 0 <= i < found@.len() implies is_cell_at_level(
            #[trigger] found@[i],
            storage_level,
        ) by {
            assert(found@.contains(found@[i]));
            assert(pre_sort.contains(found@[i]));
            let k = choose|k: int| 0 <= k < pre_sort.len() && pre_sort[k] == found@[i];
        }
        assert(found@.contains(seed));
        assert(found@.len() >= 1);
    }
    found
}

/// A sequence of zero scores sums to zero.
pub(crate) proof fn lemma_total_load_zero(cells: Seq<ScoredCell>)
    requires
        forall|i: int| 0 <= i < cells.len() ==> cells[i].score == 0,
    ensures
        total_load(cells) == 0,
    decreases cells.len(),
{
    if cells.len() > 0 {
        lemma_total_load_zero(cells.drop_last());
    }
}

/// The cell that owns a location at `level`: the level-`level` ancestor
/// of the leaf cell the coordinate projects to.
pub open spec fn cell_for_location(loc: crate::users::Location, level: u64) -> u64 {
    parent_cell(leaf_cell_of(loc.lat_e6 as int, loc.lng_e6 as int), level)
}

/// The ordered map from cells at one storage level to their load.
#[derive(Debug)]
pub struct CellList {
    storage_level: u64,
    cells: Vec<ScoredCell>,
}

impl View for CellList {
    type V = Seq<ScoredCell>;

    closed spec fn view(&self) -> Seq<ScoredCell> {
        self.cells@
    }
}

impl CellList {
    /// The storage level the cells were enumerated at.
    pub closed spec fn spec_level(&self) -> u64 {
        self.storage_level
    }

    /// Well-formedness: identifiers strictly ascending, scores
    /// non-negative, the total load representable, the level valid.
    pub open spec fn wf(&self) -> bool {
        &&& strictly_increasing(cell_ids(self@))
        &&& nonneg_scores(self@)
        &&& total_load(self@) <= i64::MAX
        &&& self.spec_level() <= 30
    }

    /// Enumerates every cell of the sphere at `storage_level`, each with
    /// a zero score, by flood-filling the neighbor graph from the cell
    /// containing coordinate (0, 0).
    pub fn new(storage_level: u64) -> (r: Result<CellList, GeoshardError>)
        ensures
            match r {
                Ok(cl) => {
                    &&& cl.spec_level() == storage_level
                    &&& cl.wf()
                    &&& enumeration_of(cell_ids(cl@), storage_level)
                    &&& forall|i: int| 0 <= i < cl@.len() ==> cl@[i].score == 0
                    &&& forall|i: int|
                        0 <= i < cl@.len() ==> is_cell_at_level(
                            #[trigger] cl@[i].cell_id,
                            storage_level,
                        )
                    &&& total_load(cl@) == 0
                    &&& cl@.len() >= 1
                },
                Err(e) => e == GeoshardError::InvalidStorageLevel && storage_level > 30,
            },
            r is Ok <==> storage_level <= 30,
    {
        if storage_level > 30 {
            return Err(GeoshardError::InvalidStorageLevel);
        }
        let leaf = leaf_cell_from_e6(0, 0);
        let seed = parent_at_level(leaf, storage_level);
        proof {
            crate::spatial::lemma_parent_cell_is_at_level(leaf, 30, storage_level);
            assert(seed == seed_cell(storage_level));
        }
        let ids = gather_cells(storage_level, seed);
        let mut cells: Vec<ScoredCell> = Vec::new();
        let mut k: usize = 0;
        while k < ids.len()
            invariant
                k <= ids@.len(),
                cells@.len() == k,
                forall|i: int|
                    0 <= i < k ==> (#[trigger] cells@[i]) == (ScoredCell {
                        cell_id: ids@[i],
                        score: 0,
                    }),
            decreases ids@.len() - k,
        {
            cells.push(ScoredCell { cell_id: ids[k], score: 0 });
            k = k + 1;
        }
        proof {
            assert(cell_ids(cells@) =~= ids@);
            lemma_total_load_zero(cells@);
        }
        Ok(CellList { storage_level, cells })
    }

    /// Wraps an explicit cell sequence, for custom scorers and tests.
    /// Nothing is checked here: consumers state what they need of the
    /// contents.
    pub fn with_cells(storage_level: u64, cells: Vec<ScoredCell>) -> (r: CellList)
        ensures
            r.spec_level() == storage_level,
            r@ == cells@,
    {
        CellList { storage_level, cells }
    }

    /// Exclusive access to the scored cells, for custom scorers that
    /// rework the list wholesale.  Consumers state what they need of
    /// the contents, so nothing is checked here.
    pub fn mut_cell_list(&mut self) -> (r: &mut Vec<ScoredCell>)
        ensures
            r@ == old(self)@,
            final(self)@ == final(r)@,
            final(self).spec_level() == old(self).spec_level(),
    {
        &mut self.cells
    }

    /// Read access to the scored cells, in identifier order.
    pub fn cell_list(&self) -> (r: &Vec<ScoredCell>)
        ensures
            r@ == self@,
    {
        &self.cells
    }

    /// The storage level the cells live at.
    pub fn storage_level(&self) -> (r: u64)
        ensures
            r == self.spec_level(),
    {
        self.storage_level
    }

    /// Appends one scored cell, for custom scorers building a list.
    pub fn push_cell(&mut self, cell_id: u64, score: i64)
        ensures
            final(self)@ == old(self)@.push(ScoredCell { cell_id, score }),
            final(self).spec_level() == old(self).spec_level(),
    {
        self.cells.push(ScoredCell { cell_id, score });
    }

    /// Adds one unit of load to the cell with identifier `cell_id`.
    /// Fails loudly when the cell is not in the list — that is an
    /// enumerator/seed mismatch, not a normal outcome — or when the
    /// cell's counter cannot grow.
    pub fn add_user_cell(&mut self, cell_id: u64) -> (r: Result<(), GeoshardError>)
        ensures
            final(self).spec_level() == old(self).spec_level(),
            cell_ids(final(self)@) == cell_ids(old(self)@),
            match r {
                Ok(()) => exists|i: int|
                    0 <= i < old(self)@.len() && (#[trigger] old(self)@[i]).cell_id == cell_id
                        && old(self)@[i].score < i64::MAX && final(self)@ == old(self)@.update(
                        i,
                        ScoredCell { cell_id, score: (old(self)@[i].score + 1) as i64 },
                    ),
                Err(e) => {
                    &&& final(self)@ == old(self)@
                    &&& (e == GeoshardError::UserCellNotFound || e == GeoshardError::ScoreOverflow)
                    &&& (e == GeoshardError::UserCellNotFound && strictly_increasing(
                        cell_ids(old(self)@),
                    ) ==> forall|i: int|
                        0 <= i < old(self)@.len() ==> (#[trigger] old(self)@[i]).cell_id != cell_id)
                    &&& (e == GeoshardError::ScoreOverflow ==> exists|i: int|
                        0 <= i < old(self)@.len() && (#[trigger] old(self)@[i]).cell_id == cell_id
                            && old(self)@[i].score == i64::MAX)
                },
            },
    {
        let idx = match find_cell(&self.cells, cell_id) {
            Some(i) => i,
            None => {
                return Err(GeoshardError::UserCellNotFound);
            },
        };
        let score = self.cells[idx].score;
        if score == i64::MAX {
            proof {
                assert((#[trigger] old(self)@[idx as int]).cell_id == cell_id && old(
                    self,
                )@[idx as int].score == i64::MAX);
            }
            return Err(GeoshardError::ScoreOverflow);
        }
        self.cells[idx] = ScoredCell { cell_id, score: score + 1 };
        proof {
            assert(cell_ids(self@) =~= cell_ids(old(self)@));
        }
        Ok(())
    }
}

/// Binary search for `cell_id`.  A returned index always holds the
/// identifier; a miss is conclusive only when the list is sorted.
fn find_cell(cells: &Vec<ScoredCell>, cell_id: u64) -> (r: Option<usize>)
    ensures
        match r {
            Some(i) => i < cells@.len() && cells@[i as int].cell_id == cell_id,
            None => strictly_increasing(cell_ids(cells@)) ==> forall|i: int|
                0 <= i < cells@.len() ==> (#[trigger] cells@[i]).cell_id != cell_id,
        },
{
    let ghost sorted = strictly_increasing(cell_ids(cells@));
    proof {
        assert(forall|i: int|
            0 <= i < cells@.len() ==> (#[trigger] cell_ids(cells@)[i]) == cells@[i].cell_id);
    }
    let mut lo: usize = 0;
    let mut hi: usize = cells.len();
    while lo < hi
        invariant
            lo <= hi <= cells@.len(),
            sorted == strictly_increasing(cell_ids(cells@)),
            sorted ==> forall|i: int|
                0 <= i < lo ==> (#[trigger] cells@[i]).cell_id < cell_id,
            sorted ==> forall|i: int|
                hi <= i < cells@.len() ==> (#[trigger] cells@[i]).cell_id > cell_id,
        decreases hi - lo,
    {
        let mid = lo + (hi - lo) / 2;
        let probe = cells[mid].cell_id;
        if probe == cell_id {
            return Some(mid);
        } else if probe < cell_id {
            proof {
                if sorted {
                    assert forall|i: int| 0 <= i < mid + 1 implies (#[trigger] cells@[i]).cell_id
                        < cell_id by {
                        if i < mid {
                            assert(cell_ids(cells@)[i] < cell_ids(cells@)[mid as int]);
                        }
                    }
                }
            }
            lo = mid + 1;
        } else {
            proof {
                if sorted {
                    assert forall|i: int|
                        mid <= i < cells@.len() implies (#[trigger] cells@[i]).cell_id
                        > cell_id by {
                        if i > mid {
                            assert(cell_ids(cells@)[mid as int] < cell_ids(cells@)[i]);
                        }
                    }
                }
            }
            hi = mid;
        }
    }
    None
}

/// The cells a user sequence maps to at `level`, in record order.
pub open spec fn user_cells<U: User>(users: Seq<U>, level: u64) -> Seq<u64> {
    users.map_values(|u: U| cell_for_location(u.spec_location(), level))
}

/// One unit of load added to every entry carrying `cell` — exactly one
/// entry, when the identifiers are distinct.
pub open spec fn bump_cell(cells: Seq<ScoredCell>, cell: u64) -> Seq<ScoredCell> {
    cells.map_values(
        |c: ScoredCell|
            if c.cell_id == cell {
                ScoredCell { cell_id: c.cell_id, score: (c.score + 1) as i64 }
            } else {
                c
            },
    )
}

/// What counting the user cells, in order, produces: each present cell
/// gains one unit per record; the scan stops at the first record whose
/// cell is absent, or whose cell's counter is already full, with the
/// matching error.
pub open spec fn count_users_spec(cells: Seq<ScoredCell>, ucells: Seq<u64>) -> Result<
    Seq<ScoredCell>,
    GeoshardError,
>
    decreases ucells.len(),
{
    if ucells.len() == 0 {
        Ok(cells)
    } else {
        let c = ucells.first();
        if !cell_ids(cells).contains(c) {
            Err(GeoshardError::UserCellNotFound)
        } else if exists|i: int|
            0 <= i < cells.len() && (#[trigger] cells[i]).cell_id == c && cells[i].score
                == i64::MAX {
            Err(GeoshardError::ScoreOverflow)
        } else {
            count_users_spec(bump_cell(cells, c), ucells.drop_first())
        }
    }
}

/// Counting never changes which cells are listed, nor their order.
pub proof fn lemma_count_preserves_ids(cells: Seq<ScoredCell>, ucs: Seq<u64>)
    ensures
        match count_users_spec(cells, ucs) {
            Ok(r) => cell_ids(r) == cell_ids(cells),
            Err(_) => true,
        },
    decreases ucs.len(),
{
    if ucs.len() > 0 {
        let c = ucs.first();
        if cell_ids(cells).contains(c) && !(exists|i: int|
            0 <= i < cells.len() && (#[trigger] cells[i]).cell_id == c && cells[i].score
                == i64::MAX) {
            assert(cell_ids(bump_cell(cells, c)) =~= cell_ids(cells));
            lemma_count_preserves_ids(bump_cell(cells, c), ucs.drop_first());
        }
    }
}

/// A count that succeeded saw every record's cell in the list.
pub proof fn lemma_count_ok_all_present(cells: Seq<ScoredCell>, ucs: Seq<u64>, j: int)
    requires
        count_users_spec(cells, ucs) is Ok,
        0 <= j < ucs.len(),
    ensures
        cell_ids(cells).contains(ucs[j]),
    decreases ucs.len(),
{
    let c = ucs.first();
    assert(cell_ids(cells).contains(c));
    if j > 0 {
        lemma_count_ok_all_present(bump_cell(cells, c), ucs.drop_first(), j - 1);
        assert(cell_ids(bump_cell(cells, c)) =~= cell_ids(cells));
        assert(ucs.drop_first()[j - 1] == ucs[j]);
    }
}

/// The pluggable load heuristic: consumes the user records and returns
/// the same cell sequence with per-cell loads populated.
pub trait CellScorer<U: User> {
    /// What the heuristic computes, as a function of the cells, the
    /// level, and the records alone.  The default leaves it
    /// unconstrained; a verified implementation overrides it with the
    /// function it computes.
    open spec fn spec_score(&self, cells: Seq<ScoredCell>, level: u64, users: Seq<U>) -> Result<
        Seq<ScoredCell>,
        GeoshardError,
    > {
        vstd::pervasive::arbitrary()
    }

    /// Scores `cell_list` from `users`.  Whatever the heuristic, the
    /// cells themselves and the storage level come back unchanged, and
    /// on a well-formed list the outcome is exactly [`Self::spec_score`]
    /// of the inputs.
    fn score_cell_list(&self, cell_list: CellList, users: &Vec<U>) -> (r: Result<
        CellList,
        GeoshardError,
    >)
        ensures
            match r {
                Ok(scored) => scored.spec_level() == cell_list.spec_level() && cell_ids(scored@)
                    == cell_ids(cell_list@),
                Err(_) => true,
            },
            strictly_increasing(cell_ids(cell_list@)) ==> match r {
                Ok(scored) => self.spec_score(cell_list@, cell_list.spec_level(), users@)
                    == Ok::<Seq<ScoredCell>, GeoshardError>(scored@),
                Err(e) => self.spec_score(cell_list@, cell_list.spec_level(), users@) == Err::<
                    Seq<ScoredCell>,
                    GeoshardError,
                >(e),
            },
    ;
}

/// Counting one unit into a cell raises the total load by one.
proof fn lemma_total_load_bump(s: Seq<ScoredCell>, i: int)
    requires
        0 <= i < s.len(),
        s[i].score < i64::MAX,
    ensures
        total_load(
            s.update(i, ScoredCell { cell_id: s[i].cell_id, score: (s[i].score + 1) as i64 }),
        ) == total_load(s) + 1,
    decreases s.len(),
{
    let t = s.update(i, ScoredCell { cell_id: s[i].cell_id, score: (s[i].score + 1) as i64 });
    if i == s.len() - 1 {
        assert(t.drop_last() =~= s.drop_last());
    } else {
        assert(t.drop_last() =~= s.drop_last().update(
            i,
            ScoredCell { cell_id: s[i].cell_id, score: (s[i].score + 1) as i64 },
        ));
        assert(t.last() == s.last());
        lemma_total_load_bump(s.drop_last(), i);
    }
}

/// The count-based heuristic as a plain function: each record adds one
/// unit of load to the cell owning its location at the list's storage
/// level.  The cells, their order, and the level come back unchanged;
/// the total load grows by exactly one per record, and no cell's load
/// shrinks.  On a well-formed list the outcome — the exact per-cell
/// counts on success, or the first record's failure — is precisely
/// [`count_users_spec`] over the records' cells.
pub fn score_by_user_count<U: User>(cell_list: CellList, users: &Vec<U>) -> (r: Result<
    CellList,
    GeoshardError,
>)
    ensures
        (cell_list.spec_level() > 30) <==> r == Err::<CellList, GeoshardError>(
            GeoshardError::InvalidStorageLevel,
        ),
        users@.len() == 0 && cell_list.spec_level() <= 30 ==> r is Ok,
        match r {
            Ok(scored) => {
                &&& scored.spec_level() == cell_list.spec_level()
                &&& cell_ids(scored@) == cell_ids(cell_list@)
                &&& total_load(scored@) == total_load(cell_list@) + users@.len()
                &&& forall|i: int|
                    0 <= i < scored@.len() ==> (#[trigger] scored@[i]).score
                        >= cell_list@[i].score
            },
            Err(e) => e == GeoshardError::InvalidStorageLevel || e
                == GeoshardError::UserCellNotFound || e == GeoshardError::ScoreOverflow,
        },
        strictly_increasing(cell_ids(cell_list@)) && cell_list.spec_level() <= 30 ==> match r {
            Ok(scored) => count_users_spec(
                cell_list@,
                user_cells(users@, cell_list.spec_level()),
            ) == Ok::<Seq<ScoredCell>, GeoshardError>(scored@),
            Err(e) => count_users_spec(cell_list@, user_cells(users@, cell_list.spec_level()))
                == Err::<Seq<ScoredCell>, GeoshardError>(e),
        },
{
    let ghost orig = cell_list@;
    let ghost orig_level = cell_list.spec_level();
    let ghost sorted_in = strictly_increasing(cell_ids(cell_list@));
    let ghost ucs = user_cells(users@, cell_list.spec_level());
    let mut cl = cell_list;
    if cl.storage_level() > 30 {
        return Err(GeoshardError::InvalidStorageLevel);
    }
    let mut k: usize = 0;
    let mut failure: Option<GeoshardError> = None;
    proof {
        assert(ucs.skip(0) =~= ucs);
    }
    while k < users.len() && failure.is_none()
        invariant
            k <= users@.len(),
            cl.spec_level() == orig_level,
            orig_level <= 30,
            cell_ids(cl@) == cell_ids(orig),
            cl@.len() == orig.len(),
            ucs == user_cells(users@, orig_level),
            ucs.len() == users@.len(),
            sorted_in == strictly_increasing(cell_ids(orig)),
            failure is None ==> total_load(cl@) == total_load(orig) + k,
            failure is None ==> forall|i: int|
                0 <= i < cl@.len() ==> (#[trigger] cl@[i]).score >= orig[i].score,
            failure matches Some(e) ==> (e == GeoshardError::UserCellNotFound || e
                == GeoshardError::ScoreOverflow),
            failure is Some ==> users@.len() > 0,
            sorted_in && failure is None ==> count_users_spec(orig, ucs) == count_users_spec(
                cl@,
                ucs.skip(k as int),
            ),
            sorted_in ==> (failure matches Some(e) ==> count_users_spec(orig, ucs) == Err::<
                Seq<ScoredCell>,
                GeoshardError,
            >(e)),
        decreases users@.len() - k, (if failure is None { 1int } else { 0int }),
    {
        let loc = users[k].location();
        let leaf = leaf_cell_from_e6(loc.lat_e6, loc.lng_e6);
        let cell = parent_at_level(leaf, cl.storage_level());
        let ghost before = cl@;
        proof {
            assert(cell == ucs[k as int]);
            assert(ucs.skip(k as int).first() == ucs[k as int]);
            assert(ucs.skip(k as int).drop_first() =~= ucs.skip(k + 1));
            if sorted_in {
                assert(strictly_increasing(cell_ids(before)));
            }
        }
        match cl.add_user_cell(cell) {
            Ok(()) => {
                proof {
                    let gi = choose|i: int|
                        0 <= i < before.len() && (#[trigger] before[i]).cell_id == cell
                            && before[i].score < i64::MAX && cl@ == before.update(
                            i,
                            ScoredCell { cell_id: cell, score: (before[i].score + 1) as i64 },
                        );
                    assert(cl@ == before.update(
                        gi,
                        ScoredCell {
                            cell_id: before[gi].cell_id,
                            score: (before[gi].score + 1) as i64,
                        },
                    ));
                    lemma_total_load_bump(before, gi);
                    assert forall|i: int| 0 <= i < cl@.len() implies (#[trigger] cl@[i]).score
                        >= orig[i].score by {
                        if i != gi {
                            assert(cl@[i] == before[i]);
                        }
                    }
                    if sorted_in {
                        // with distinct identifiers, the one updated entry is
                        // the one the counting spec bumps
                        assert(cell_ids(before).contains(cell)) by {
                            assert(cell_ids(before)[gi] == cell);
                        }
                        assert(!(exists|i: int|
                            0 <= i < before.len() && (#[trigger] before[i]).cell_id == cell
                                && before[i].score == i64::MAX)) by {
                            if exists|i: int|
                                0 <= i < before.len() && (#[trigger] before[i]).cell_id == cell
                                    && before[i].score == i64::MAX {
                                let w = choose|i: int|
                                    0 <= i < before.len() && (#[trigger] before[i]).cell_id
                                        == cell && before[i].score == i64::MAX;
                                assert(cell_ids(before)[w] == cell && cell_ids(before)[gi]
                                    == cell);
                                assert(w == gi);
                            }
                        }
                        assert(cl@ =~= bump_cell(before, cell)) by {
                            assert forall|j: int| 0 <= j < before.len() implies cl@[j]
                                == bump_cell(before, cell)[j] by {
                                if j != gi {
                                    assert(cell_ids(before)[j] != cell_ids(before)[gi]);
                                    assert(before[j].cell_id != cell);
                                }
                            }
                        }
                        assert(count_users_spec(cl@, ucs.skip(k + 1)) == count_users_spec(
                            before,
                            ucs.skip(k as int),
                        ));
                    }
                }
                k = k + 1;
            },
            Err(e) => {
                proof {
                    if sorted_in {
                        assert(strictly_increasing(cell_ids(before)));
                        if e == GeoshardError::UserCellNotFound {
                            assert(!cell_ids(before).contains(cell)) by {
                                if cell_ids(before).contains(cell) {
                                    let w = choose|i: int|
                                        0 <= i < cell_ids(before).len() && cell_ids(before)[i]
                                            == cell;
                                    assert(before[w].cell_id == cell);
                                }
                            }
                            assert(count_users_spec(before, ucs.skip(k as int)) == Err::<
                                Seq<ScoredCell>,
                                GeoshardError,
                            >(e));
                        } else {
                            assert(e == GeoshardError::ScoreOverflow);
                            assert(cell_ids(before).contains(cell)) by {
                                let w = choose|i: int|
                                    0 <= i < before.len() && (#[trigger] before[i]).cell_id
                                        == cell && before[i].score == i64::MAX;
                                assert(cell_ids(before)[w] == cell);
                            }
                            assert(count_users_spec(before, ucs.skip(k as int)) == Err::<
                                Seq<ScoredCell>,
                                GeoshardError,
                            >(e));
                        }
                    }
                }
                failure = Some(e);
            },
        }
    }
    proof {
        if failure is None {
            assert(ucs.skip(users@.len() as int) =~= Seq::<u64>::empty());
            if sorted_in {
                assert(count_users_spec(cl@, ucs.skip(users@.len() as int)) == Ok::<
                    Seq<ScoredCell>,
                    GeoshardError,
                >(cl@));
            }
        }
    }
    match failure {
        Some(e) => Err(e),
        None => Ok(cl),
    }
}

/// The default heuristic: each record adds one unit of load to the cell
/// owning its location at the list's storage level.
pub struct UserCountScorer;

impl<U: User> CellScorer<U> for UserCountScorer {
    open spec fn spec_score(&self, cells: Seq<ScoredCell>, level: u64, users: Seq<U>) -> Result<
        Seq<ScoredCell>,
        GeoshardError,
    > {
        if level > 30 {
            Err(GeoshardError::InvalidStorageLevel)
        } else {
            count_users_spec(cells, user_cells(users, level))
        }
    }

    fn score_cell_list(&self, cell_list: CellList, users: &Vec<U>) -> (r: Result<
        CellList,
        GeoshardError,
    >) {
        score_by_user_count(cell_list, users)
    }
}

} // verus!
