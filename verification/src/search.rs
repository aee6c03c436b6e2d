use vstd::prelude::*;
use crate::int3::Int3;

verus! {

/// The first index `l < n` at which `below` holds (indices past the end of `below` never hold).
pub open spec fn first_in(below: Seq<bool>, n: int) -> Option<int>
    decreases n,
{
    if n <= 0 {
        None
    } else {
        match first_in(below, n - 1) {
            Some(l) => Some(l),
            None => if n - 1 < below.len() && below[n - 1] { Some(n - 1) } else { None },
        }
    }
}

/// The cell index the search reports along one axis, when it scans the first `bound` cell
/// boundaries: the cell just before the first boundary above the point, or the last cell
/// when no boundary scanned lies above it.
pub open spec fn search_axis(below: Seq<bool>, bound: int) -> int {
    match first_in(below, bound) {
        Some(l) => l - 1,
        None => below.len() - 1,
    }
}

/// The search along one axis runs without fault: the axis has a cell, the scan reads no
/// boundary past the axis's end, and the first boundary above the point is not the first one.
pub open spec fn search_axis_defined(below: Seq<bool>, bound: int) -> bool {
    &&& below.len() >= 1
    &&& (below.len() >= bound || first_in(below, below.len() as int) is Some)
    &&& first_in(below, bound) != Some(0int)
}

/// Once some index below `m` holds, the first one stays the same for every longer scan.
proof fn lemma_first_stable(below: Seq<bool>, m: int, n: int)
    requires
        0 <= m <= n,
        first_in(below, m) is Some,
    ensures
        first_in(below, n) == first_in(below, m),
    decreases n - m,
{
    if n > m {
        lemma_first_stable(below, m, n - 1);
    }
}

/// Law: the first index found holds, no index before it holds, and where none is found no
/// index scanned holds.
pub proof fn lemma_first_in_is_first(below: Seq<bool>, n: int)
    ensures
        first_in(below, n) matches Some(l) ==> 0 <= l < n && l < below.len() && below[l]
            && forall|m: int| 0 <= m < l ==> !#[trigger] below[m],
        first_in(below, n) is None ==> forall|m: int| 0 <= m < n && m < below.len() ==> !#[trigger] below[m],
    decreases n,
{
    if n > 0 {
        lemma_first_in_is_first(below, n - 1);
    }
}

/// Where some index `l < n` of `below` holds, the scan finds one.
proof fn lemma_first_in_found(below: Seq<bool>, n: int, l: int)
    requires
        0 <= l < n,
        l < below.len(),
        below[l],
    ensures
        first_in(below, n) is Some,
    decreases n,
{
    if l < n - 1 {
        lemma_first_in_found(below, n - 1, l);
    }
}

/// The plain conditions a search asks of one axis make that axis's scan run without fault.
proof fn lemma_axis_defined(below: Seq<bool>, n: int)
    requires
        n >= 1,
        below.len() >= 1,
        !below[0],
        below.len() >= n || exists|l: int| 0 <= l < below.len() && #[trigger] below[l],
    ensures
        search_axis_defined(below, n),
{
    lemma_first_in_is_first(below, n);
    if below.len() < n {
        let l = choose|l: int| 0 <= l < below.len() && #[trigger] below[l];
        lemma_first_in_found(below, below.len() as int, l);
    }
}

/// Law: along one axis, where some scanned boundary lies above the point, the search reports
/// the cell `v` whose upper boundary `v + 1` is the first boundary above the point (no boundary
/// up to `v` lies above it); where no scanned boundary lies above the point, it reports the
/// axis's last cell.
pub proof fn lemma_search_axis_first_boundary(below: Seq<bool>, n: int)
    requires
        n >= 1,
        below.len() >= 1,
        !below[0],
    ensures
        (exists|l: int| 0 <= l < n && l < below.len() && #[trigger] below[l]) ==> {
            let v = search_axis(below, n);
            &&& 0 <= v && v + 1 < n && v + 1 < below.len() && below[v + 1]
            &&& forall|m: int| 0 <= m <= v ==> !#[trigger] below[m]
        },
        (forall|l: int| 0 <= l < n && l < below.len() ==> !#[trigger] below[l])
            ==> search_axis(below, n) == below.len() - 1,
{
    lemma_first_in_is_first(below, n);
    if exists|l: int| 0 <= l < n && l < below.len() && #[trigger] below[l] {
        let l = choose|l: int| 0 <= l < n && l < below.len() && #[trigger] below[l];
        lemma_first_in_found(below, n, l);
    }
}

/// Finds the cell that holds a point, axis by axis. `below_x[l]` tells whether the point's
/// first coordinate lies below the `l`-th cell boundary of that axis, and likewise for the
/// other two. One scan runs over the boundaries of the first axis, looking along each axis
/// for the first boundary above the point until all three are found; each axis reports the
/// cell before that boundary, or its last cell where none was found.
pub fn search_cells(below_x: &Vec<bool>, below_y: &Vec<bool>, below_z: &Vec<bool>) -> (r: Int3)
    requires
        below_x@.len() >= 1,
        below_y@.len() >= 1,
        below_z@.len() >= 1,
        !below_x@[0],
        !below_y@[0],
        !below_z@[0],
        below_y@.len() >= below_x@.len() || exists|l: int| 0 <= l < below_y@.len() && #[trigger] below_y@[l],
        below_z@.len() >= below_x@.len() || exists|l: int| 0 <= l < below_z@.len() && #[trigger] below_z@[l],
    ensures
        r.x == search_axis(below_x@, below_x@.len() as int) as i32,
        r.y == search_axis(below_y@, below_x@.len() as int) as i32,
        r.z == search_axis(below_z@, below_x@.len() as int) as i32,
        (exists|l: int| 0 <= l < below_x@.len() && l < below_x@.len() && #[trigger] below_x@[l]) ==> exists|w: int|
            r.x == (w - 1) as i32 && 1 <= w < below_x@.len() && w < below_x@.len() && #[trigger] below_x@[w]
            && forall|m: int| 0 <= m < w ==> !#[trigger] below_x@[m],
        (forall|l: int| 0 <= l < below_x@.len() && l < below_x@.len() ==> !#[trigger] below_x@[l])
            ==> r.x == (below_x@.len() - 1) as i32,
        (exists|l: int| 0 <= l < below_x@.len() && l < below_y@.len() && #[trigger] below_y@[l]) ==> exists|w: int|
            r.y == (w - 1) as i32 && 1 <= w < below_x@.len() && w < below_y@.len() && #[trigger] below_y@[w]
            && forall|m: int| 0 <= m < w ==> !#[trigger] below_y@[m],
        (forall|l: int| 0 <= l < below_x@.len() && l < below_y@.len() ==> !#[trigger] below_y@[l])
            ==> r.y == (below_y@.len() - 1) as i32,
        (exists|l: int| 0 <= l < below_x@.len() && l < below_z@.len() && #[trigger] below_z@[l]) ==> exists|w: int|
            r.z == (w - 1) as i32 && 1 <= w < below_x@.len() && w < below_z@.len() && #[trigger] below_z@[w]
            && forall|m: int| 0 <= m < w ==> !#[trigger] below_z@[m],
        (forall|l: int| 0 <= l < below_x@.len() && l < below_z@.len() ==> !#[trigger] below_z@[l])
            ==> r.z == (below_z@.len() - 1) as i32,
{
    proof {
        lemma_axis_defined(below_x@, below_x@.len() as int);
        lemma_axis_defined(below_y@, below_x@.len() as int);
        lemma_axis_defined(below_z@, below_x@.len() as int);
        lemma_search_axis_first_boundary(below_x@, below_x@.len() as int);
        lemma_search_axis_first_boundary(below_y@, below_x@.len() as int);
        lemma_search_axis_first_boundary(below_z@, below_x@.len() as int);
    }
    let n = below_x.len();
    let ghost bx = below_x@;
    let ghost by = below_y@;
    let ghost bz = below_z@;
    let mut i: Option<usize> = None;
    let mut j: Option<usize> = None;
    let mut k: Option<usize> = None;
    let mut l: usize = 0;
    while l < n
        invariant_except_break
            0 <= l <= n,
        invariant
            n == bx.len(),
            bx == below_x@,
            by == below_y@,
            bz == below_z@,
            search_axis_defined(bx, n as int),
            search_axis_defined(by, n as int),
            search_axis_defined(bz, n as int),
            match i {
                Some(v) => first_in(bx, n as int) == Some(v + 1),
                None => first_in(bx, l as int) is None,
            },
            match j {
                Some(v) => first_in(by, n as int) == Some(v + 1),
                None => first_in(by, l as int) is None,
            },
            match k {
                Some(v) => first_in(bz, n as int) == Some(v + 1),
                None => first_in(bz, l as int) is None,
            },
        ensures
            i is None ==> first_in(bx, n as int) is None,
            j is None ==> first_in(by, n as int) is None,
            k is None ==> first_in(bz, n as int) is None,
        decreases n - l,
    {
        if i.is_none() && below_x[l] {
            proof {
                lemma_first_stable(bx, l + 1, n as int);
            }
            i = Some(l - 1);
        }
        if j.is_none() {
            proof {
                if l >= by.len() {
                    lemma_first_stable(by, by.len() as int, l as int);
                }
            }
            if below_y[l] {
                proof {
                    lemma_first_stable(by, l + 1, n as int);
                }
                j = Some(l - 1);
            }
        }
        if k.is_none() {
            proof {
                if l >= bz.len() {
                    lemma_first_stable(bz, bz.len() as int, l as int);
                }
            }
            if below_z[l] {
                proof {
                    lemma_first_stable(bz, l + 1, n as int);
                }
                k = Some(l - 1);
            }
        }
        if i.is_some() && j.is_some() && k.is_some() {
            break;
        }
        l = l + 1;
    }
    let ri = match i {
        Some(v) => v,
        None => below_x.len() - 1,
    };
    let rj = match j {
        Some(v) => v,
        None => below_y.len() - 1,
    };
    let rk = match k {
        Some(v) => v,
        None => below_z.len() - 1,
    };
    Int3 { x: ri as i32, y: rj as i32, z: rk as i32 }
}

} // verus!
