//! String pulling: the funnel algorithm that turns a corridor of portals
//! into the corner points of the path through it.

use vstd::prelude::*;

verus! {

/// A point with fixed-point coordinates `[x, y, z]`; the funnel works in the XZ plane.
pub type Vec3 = [i64; 3];

/// A portal is just the two vertices of the edge we are passing through,
/// relative to the path direction.
#[derive(Debug, Clone, Copy)]
pub struct Portal {
    pub left: Vec3,
    pub right: Vec3,
}

/// Twice the signed area of the triangle `a`, `b`, `c` in the XZ plane.
pub open spec fn tri_area_2d(a: Vec3, b: Vec3, c: Vec3) -> int {
    (c[0] - a[0]) * (b[2] - a[2]) - (b[0] - a[0]) * (c[2] - a[2])
}

/// The sign of `v`: -1, 0 or 1.
pub open spec fn sign(v: int) -> int {
    if v > 0 {
        1
    } else if v < 0 {
        -1
    } else {
        0
    }
}

/// The funnel while it is pulled through the portals.
pub ghost struct Funnel {
    pub apex: Vec3,
    pub left: Vec3,
    pub right: Vec3,
    /// The portal that gave the left leg.
    pub left_index: int,
    /// The portal that gave the right leg.
    pub right_index: int,
    /// The portal looked at next.
    pub next: int,
    /// The corners found so far.
    pub path: Seq<Vec3>,
}

/// The funnel at the first portal.
pub open spec fn funnel_start(portals: Seq<Portal>) -> Funnel {
    Funnel {
        apex: portals[0].left,
        left: portals[0].left,
        right: portals[0].right,
        left_index: 0,
        right_index: 0,
        next: 1,
        path: seq![portals[0].left],
    }
}

/// The funnel closed onto the corner `corner`, which portal `index - 1` gave.
pub open spec fn funnel_turned(s: Funnel, corner: Vec3, index: int) -> Funnel {
    Funnel {
        apex: corner,
        left: corner,
        right: corner,
        left_index: index,
        right_index: index,
        next: index,
        path: s.path.push(corner),
    }
}

/// The funnel after the portal `s.next` has been looked at. A vertex that
/// tightens a leg replaces it; one that crosses the other leg makes that leg
/// a corner, and the scan starts again behind the portal that gave the leg.
pub open spec fn funnel_step(portals: Seq<Portal>, s: Funnel) -> Funnel {
    let left = portals[s.next].left;
    let right = portals[s.next].right;
    let right_tightens = tri_area_2d(s.apex, s.right, right) <= 0;
    if right_tightens && !(s.apex@ == s.right@ || tri_area_2d(s.apex, s.left, right) > 0) {
        funnel_turned(s, s.left, s.left_index + 1)
    } else {
        let r = if right_tightens { right } else { s.right };
        let ri = if right_tightens { s.next } else { s.right_index };
        let left_tightens = tri_area_2d(s.apex, s.left, left) >= 0;
        if left_tightens && !(s.apex@ == s.left@ || tri_area_2d(s.apex, r, left) < 0) {
            funnel_turned(Funnel { right: r, right_index: ri, ..s }, r, ri + 1)
        } else {
            Funnel {
                left: if left_tightens { left } else { s.left },
                left_index: if left_tightens { s.next } else { s.left_index },
                right: r,
                right_index: ri,
                next: s.next + 1,
                ..s
            }
        }
    }
}

/// The smaller of the two leg indices.
pub open spec fn funnel_base(s: Funnel) -> int {
    if s.left_index <= s.right_index {
        s.left_index
    } else {
        s.right_index
    }
}

/// The corners once every portal has been looked at: the end point is
/// added unless it is the last corner already.
pub open spec fn funnel_finish(portals: Seq<Portal>, s: Funnel) -> Seq<Vec3> {
    if s.path.last()@ == portals.last().left@ {
        s.path
    } else {
        s.path.push(portals.last().left)
    }
}

/// Whether the funnel is a state that the scan can be in.
pub open spec fn funnel_ok(portals: Seq<Portal>, s: Funnel) -> bool {
    &&& 0 <= s.left_index <= s.next
    &&& 0 <= s.right_index <= s.next
    &&& s.next <= portals.len()
    &&& s.path.len() >= 1
}

/// The corners that the scan gives from the funnel `s` on.
pub open spec fn funnel_run(portals: Seq<Portal>, s: Funnel) -> Seq<Vec3>
    decreases portals.len() - funnel_base(s), portals.len() - s.next,
{
    if !funnel_ok(portals, s) || s.next >= portals.len() {
        funnel_finish(portals, s)
    } else {
        funnel_run(portals, funnel_step(portals, s))
    }
}

/// The corner points of the shortest path through the corridor of `portals`.
pub open spec fn pulled(portals: Seq<Portal>) -> Seq<Vec3> {
    if portals.len() == 0 {
        Seq::empty()
    } else {
        funnel_run(portals, funnel_start(portals))
    }
}

/// Whether `p` is a vertex of one of the portals.
pub open spec fn is_portal_vertex(portals: Seq<Portal>, p: Vec3) -> bool {
    exists|k: int| 0 <= k < portals.len() && (#[trigger] portals[k].left == p || portals[k].right == p)
}

/// A product of two differences of coordinates, as a sign and a magnitude.
struct Signed {
    negative: bool,
    magnitude: u128,
}

spec fn signed_value(s: Signed) -> int {
    if s.negative {
        -(s.magnitude as int)
    } else {
        s.magnitude as int
    }
}

fn signed_product(x: i128, y: i128) -> (r: Signed)
    requires
        -0x1_0000_0000_0000_0000 < x < 0x1_0000_0000_0000_0000,
        -0x1_0000_0000_0000_0000 < y < 0x1_0000_0000_0000_0000,
    ensures
        signed_value(r) == x * y,
{
    let mx: u128 = if x < 0 { (-x) as u128 } else { x as u128 };
    let my: u128 = if y < 0 { (-y) as u128 } else { y as u128 };
    proof {
        assert(mx * my <= 0xffff_ffff_ffff_ffff * 0xffff_ffff_ffff_ffff) by (nonlinear_arith)
            requires
                mx <= 0xffff_ffff_ffff_ffff,
                my <= 0xffff_ffff_ffff_ffff,
        ;
        assert(x * y == (if (x < 0) == (y < 0) { mx * my } else { -(mx * my) })) by (nonlinear_arith)
            requires
                mx == (if x < 0 { -x } else { x as int }),
                my == (if y < 0 { -y } else { y as int }),
        ;
    }
    let magnitude: u128 = mx * my;
    Signed { negative: (x < 0) != (y < 0), magnitude }
}

/// The sign of the area of the triangle `a`, `b`, `c` in the XZ plane:
/// positive where `c` lies left of the vector from `a` to `b`.
pub fn area_sign(a: &Vec3, b: &Vec3, c: &Vec3) -> (r: i8)
    ensures
        r == sign(tri_area_2d(*a, *b, *c)),
{
    let ax: i128 = b[0] as i128 - a[0] as i128;
    let az: i128 = b[2] as i128 - a[2] as i128;
    let bx: i128 = c[0] as i128 - a[0] as i128;
    let bz: i128 = c[2] as i128 - a[2] as i128;
    let p = signed_product(bx, az);
    let q = signed_product(ax, bz);
    if p.negative == q.negative {
        if p.magnitude == q.magnitude {
            0
        } else if (p.magnitude > q.magnitude) != p.negative {
            1
        } else {
            -1
        }
    } else if p.magnitude == 0 && q.magnitude == 0 {
        0
    } else if q.negative {
        1
    } else {
        -1
    }
}

fn same_point(a: &Vec3, b: &Vec3) -> (r: bool)
    ensures
        r == (a@ == b@),
{
    proof {
        if a[0] == b[0] && a[1] == b[1] && a[2] == b[2] {
            assert(a@ =~= b@);
        }
    }
    a[0] == b[0] && a[1] == b[1] && a[2] == b[2]
}

/// The string-pulling (funnel) algorithm.
///
/// `portals`: the sequence of edges, including the start `(p, p)` and the
/// end `(goal, goal)`. The result is the scan described by `pulled`: it
/// starts at the first portal's left vertex, ends at the last portal's left
/// vertex, and every corner between them is a vertex of a portal.
pub fn string_pull(portals: &[Portal]) -> (path: Vec<Vec3>)
    ensures
        path@ == pulled(portals@),
        portals@.len() == 0 ==> path@.len() == 0,
        portals@.len() > 0 ==> {
            &&& path@.len() >= 1
            &&& path@[0] == portals@[0].left
            &&& path@.last()@ == portals@.last().left@
            &&& forall|k: int| 0 <= k < path@.len() ==> is_portal_vertex(portals@, #[trigger] path@[k])
        },
{
    let mut path: Vec<Vec3> = Vec::new();
    let n: usize = portals.len();
    if n == 0 {
        return path;
    }
    let mut apex: Vec3 = portals[0].left;
    let mut portal_left: Vec3 = portals[0].left;
    let mut portal_right: Vec3 = portals[0].right;
    let mut left_index: usize = 0;
    let mut right_index: usize = 0;
    path.push(apex);
    let mut i: usize = 1;
    let ghost mut s = funnel_start(portals@);
    while i < n
        invariant
            n == portals@.len(),
            n > 0,
            funnel_ok(portals@, s),
            s.apex == apex,
            s.left == portal_left,
            s.right == portal_right,
            s.left_index == left_index,
            s.right_index == right_index,
            s.next == i,
            s.path == path@,
            funnel_run(portals@, s) == pulled(portals@),
            path@[0] == portals@[0].left,
            is_portal_vertex(portals@, portal_left),
            is_portal_vertex(portals@, portal_right),
            forall|k: int| 0 <= k < path@.len() ==> is_portal_vertex(portals@, #[trigger] path@[k]),
        decreases n - funnel_base(s), n - i,
    {
        let left: Vec3 = portals[i].left;
        let right: Vec3 = portals[i].right;
        let ghost before = s;
        proof {
            s = funnel_step(portals@, before);
            assert(portals@[i as int].left == left);
            assert(is_portal_vertex(portals@, left));
            assert(is_portal_vertex(portals@, right));
        }
        if area_sign(&apex, &portal_right, &right) <= 0 {
            if same_point(&apex, &portal_right) || area_sign(&apex, &portal_left, &right) > 0 {
                portal_right = right;
                right_index = i;
            } else {
                apex = portal_left;
                path.push(apex);
                portal_left = apex;
                portal_right = apex;
                i = left_index + 1;
                left_index = i;
                right_index = i;
                continue ;
            }
        }
        if area_sign(&apex, &portal_left, &left) >= 0 {
            if same_point(&apex, &portal_left) || area_sign(&apex, &portal_right, &left) < 0 {
                portal_left = left;
                left_index = i;
            } else {
                apex = portal_right;
                path.push(apex);
                portal_left = apex;
                portal_right = apex;
                i = right_index + 1;
                left_index = i;
                right_index = i;
                continue ;
            }
        }
        i += 1;
    }
    let last: Vec3 = portals[n - 1].left;
    let corner: Vec3 = path[path.len() - 1];
    if !same_point(&corner, &last) {
        path.push(last);
        proof {
            assert(portals@[n - 1].left == last);
            assert(is_portal_vertex(portals@, last));
        }
    }
    path
}

} // verus!
