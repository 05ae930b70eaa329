//! The boundary to the S2 geometry library.
//!
//! Cells are carried through the library as their raw `u64` identifiers.
//! The identifier encodes a cube face in the top three bits and the level
//! as the position of the lowest set bit, so validity and the
//! parent-at-level operation are plain bit arithmetic and are verified
//! here.  What genuinely needs S2's geometry — mapping a coordinate to
//! its leaf cell, and listing a cell's neighbors at a level — is reached
//! through trusted wrappers whose results are named, since both are
//! deterministic functions of their arguments alone.

use vstd::prelude::*;

verus! {

/// The lowest set bit of any cell identifier at `level`: bit
/// `2 * (30 - level)`, level 30 being the finest (leaf) level.
pub open spec fn cell_lsb(level: u64) -> u64
    recommends
        level <= 30,
{
    1u64 << ((60 - 2 * (level as int)) as u64)
}

/// Whether `c` is a valid cell identifier at exactly `level`: a cube face
/// below six in the top three bits, and the trailing bits holding a
/// single one at the level's position.
pub open spec fn is_cell_at_level(c: u64, level: u64) -> bool {
    &&& level <= 30
    &&& (c >> 61) < 6
    &&& c & (((cell_lsb(level) << 1) - 1) as u64) == cell_lsb(level)
}

/// The ancestor of `c` at the coarser `level`: the bits above the level's
/// position are kept, the level bit is set, everything below is cleared.
pub open spec fn parent_cell(c: u64, level: u64) -> u64
    recommends
        level <= 30,
{
    (c & !(((cell_lsb(level) - 1) as u64))) | cell_lsb(level)
}

/// The next cell after `c` along the ordering of level-`level` cells.
/// After the last cell of the last face this lands on the one-past-the-end
/// marker with face six.
pub open spec fn next_cell(c: u64, level: u64) -> u64
    recommends
        is_cell_at_level(c, level),
{
    (c + (cell_lsb(level) << 1)) as u64
}

/// Computes [`parent_cell`].
pub fn parent_at_level(c: u64, level: u64) -> (r: u64)
    requires
        level <= 30,
    ensures
        r == parent_cell(c, level),
{
    let lsb: u64 = 1u64 << (60 - 2 * level);
    proof {
        assert(lsb == cell_lsb(level));
        assert(lsb >= 1) by (bit_vector)
            requires
                lsb == 1u64 << ((60 - 2 * (level as int)) as u64) && level <= 30,
        ;
    }
    (c & !(lsb - 1)) | lsb
}

/// A parent taken at a coarser level is a valid cell of that level.
pub proof fn lemma_parent_cell_is_at_level(c: u64, cl: u64, level: u64)
    requires
        is_cell_at_level(c, cl),
        level <= cl,
    ensures
        is_cell_at_level(parent_cell(c, level), level),
{
    let k: u64 = (60 - 2 * (level as int)) as u64;
    let kc: u64 = (60 - 2 * (cl as int)) as u64;
    assert(cell_lsb(level) == 1u64 << k);
    assert(cell_lsb(cl) == 1u64 << kc);
    let p: u64 = (c & !((((1u64 << k) - 1) as u64))) | (1u64 << k);
    assert((p >> 61) < 6 && p & ((((1u64 << k) << 1) - 1) as u64) == (1u64 << k))
        by (bit_vector)
        requires
            p == (c & !((((1u64 << k) - 1) as u64))) | (1u64 << k),
            (c >> 61) < 6,
            c & ((((1u64 << kc) << 1) - 1) as u64) == (1u64 << kc),
            k <= 60,
            kc <= k,
    ;
    assert(parent_cell(c, level) == p);
}

/// Computes [`next_cell`].
pub fn cell_after(c: u64, level: u64) -> (r: u64)
    requires
        is_cell_at_level(c, level),
    ensures
        r == next_cell(c, level),
        c < r,
{
    let lsb: u64 = 1u64 << (60 - 2 * level);
    proof {
        assert(lsb == cell_lsb(level));
        assert(c + (lsb << 1) <= u64::MAX && (lsb << 1) >= 1) by (bit_vector)
            requires
                lsb == 1u64 << ((60 - 2 * (level as int)) as u64)
                && level <= 30
                && (c >> 61) < 6,
        ;
    }
    c + (lsb << 1)
}

/// The name of the leaf cell that S2 assigns to a coordinate given in
/// microdegrees of latitude and longitude.  The mapping is a fixed
/// geometric projection: a function of the two coordinates alone.
pub uninterp spec fn leaf_cell_of(lat_e6: int, lng_e6: int) -> u64;

/// Relies on s2's `CellID::from(LatLng)`: projects a coordinate onto a
/// cube face and returns the Hilbert-curve leaf cell holding it, a
/// deterministic function of the coordinate.  `from_face_ij` always
/// produces an odd identifier with a face below six, hence a valid leaf.
#[verifier::external_body]
pub(crate) fn leaf_cell_from_e6(lat_e6: i32, lng_e6: i32) -> (r: u64)
    ensures
        r == leaf_cell_of(lat_e6 as int, lng_e6 as int),
        is_cell_at_level(r, 30),
{
    let ll = s2::latlng::LatLng::new(
        s2::s1::E6(lat_e6).into(),
        s2::s1::E6(lng_e6).into(),
    );
    s2::cellid::CellID::from(ll).0
}

/// The neighbors S2 lists for cell `c` at `level`: a deterministic
/// function of the cell and the level.
pub uninterp spec fn neighbors_of(c: u64, level: u64) -> Seq<u64>;

/// Relies on s2's `CellID::all_neighbors`, which requires the target
/// level to be no coarser than the cell's own.  Every entry it returns
/// is `parent(level)` of a valid leaf, hence a valid cell at `level`;
/// there are at most eight of them, the diagonal ones included.
#[verifier::external_body]
pub(crate) fn cell_neighbors(c: u64, level: u64) -> (r: Vec<u64>)
    requires
        is_cell_at_level(c, level),
    ensures
        r@ == neighbors_of(c, level),
        forall|i: int| 0 <= i < r@.len() ==> is_cell_at_level(r@[i], level),
        r@.len() <= 8,
{
    s2::cellid::CellID(c)
        .all_neighbors(level)
        .into_iter()
        .map(|n| n.0)
        .collect()
}

/// Relies on std's `<[u64]>::sort_unstable`: sorts the identifiers in
/// ascending order, keeping exactly the same elements.
#[verifier::external_body]
pub(crate) fn sort_cell_ids(v: &mut Vec<u64>)
    ensures
        final(v)@.to_multiset() == old(v)@.to_multiset(),
        vstd::relations::sorted_by(final(v)@, |x: u64, y: u64| x <= y),
{
    v.sort_unstable();
}

} // verus!
