//! The finite-difference time-domain field grid.
//!
//! E and H live on a cubic lattice of `width` points per side, with three
//! vector components per point, stored flat: the value of component `c` at
//! `(x, y, z)` sits at `cell(width, x, y, z, c)`.
use vstd::prelude::*;
use vstd::arithmetic::div_mod::{lemma_fundamental_div_mod, lemma_fundamental_div_mod_converse, lemma_multiply_divide_lt};

verus! {

/// Flat position of component `c` at lattice point `(x, y, z)`.
pub open spec fn cell(w: int, x: int, y: int, z: int, c: int) -> int {
    ((x * w + y) * w + z) * 3 + c
}

/// Number of values in a field of a grid `w` points wide.
pub open spec fn field_len(w: int) -> int {
    w * w * w * 3
}

/// The vector component stored at flat position `k`.
pub open spec fn comp_of(k: int) -> int {
    k % 3
}

/// The `x` coordinate of flat position `k`.
pub open spec fn x_of(w: int, k: int) -> int {
    k / 3 / w / w
}

/// The `y` coordinate of flat position `k`.
pub open spec fn y_of(w: int, k: int) -> int {
    (k / 3 / w) % w
}

/// The `z` coordinate of flat position `k`.
pub open spec fn z_of(w: int, k: int) -> int {
    (k / 3) % w
}

/// The coordinate of flat position `k` along `axis`.
pub open spec fn coord_of(w: int, k: int, axis: int) -> int {
    if axis == 0 {
        x_of(w, k)
    } else if axis == 1 {
        y_of(w, k)
    } else {
        z_of(w, k)
    }
}

/// The point of `k` lies off the outermost layer along every axis, so the
/// stencil can read both neighbours along each axis.
pub open spec fn interior(w: int, k: int) -> bool {
    &&& 1 <= x_of(w, k) < w - 1
    &&& 1 <= y_of(w, k) < w - 1
    &&& 1 <= z_of(w, k) < w - 1
}

/// `k` holds the component normal to a face of the grid, on that face.
pub open spec fn on_normal_face(w: int, k: int) -> bool {
    coord_of(w, k, comp_of(k)) == 0 || coord_of(w, k, comp_of(k)) == w - 1
}

/// Flat position of component `comp` at the point of `k` moved by `d` along `axis`.
pub open spec fn shifted(w: int, k: int, axis: int, d: int, comp: int) -> int {
    cell(
        w,
        x_of(w, k) + if axis == 0 { d } else { 0 },
        y_of(w, k) + if axis == 1 { d } else { 0 },
        z_of(w, k) + if axis == 2 { d } else { 0 },
        comp,
    )
}

/// The four values whose central differences make component `c` of the curl
/// of `s` at the point of `k` (`c` = `comp_of(k)`, `a1`, `a2` the next two
/// axes in cyclic order): the curl there is `(p - q) - (r - t)` of
/// `(p, q, r, t)`.
pub open spec fn curl_args<T>(s: Seq<T>, w: int, k: int) -> (T, T, T, T) {
    let a1 = (comp_of(k) + 1) % 3;
    let a2 = (comp_of(k) + 2) % 3;
    (
        s[shifted(w, k, a1, 1, a2)],
        s[shifted(w, k, a1, -1, a2)],
        s[shifted(w, k, a2, 1, a1)],
        s[shifted(w, k, a2, -1, a1)],
    )
}

/// `r` is `a` and `b` added value by value.
pub open spec fn sum_rel<T, A: Fn(T, T) -> T>(a: Seq<T>, b: Seq<T>, add: A, r: Seq<T>) -> bool {
    &&& r.len() == a.len()
    &&& forall|k: int| 0 <= k < a.len() ==> add.ensures((a[k], b[k]), #[trigger] r[k])
}

/// `r` is `a` after one leapfrog half-step driven by the curl of `b`: at
/// every interior point the curl component `cv` (made by `diff` from
/// `curl_args`) is applied to the old value; every other value stays.
pub open spec fn half_step_rel<T, D: Fn(T, T, T, T) -> T, U: Fn(T, T) -> T>(
    a: Seq<T>,
    b: Seq<T>,
    w: int,
    diff: D,
    apply: U,
    r: Seq<T>,
) -> bool {
    &&& r.len() == a.len()
    &&& forall|k: int| 0 <= k < a.len() ==> half_step_at(a[k], b, w, k, diff, apply, #[trigger] r[k])
}

/// The value `v` at flat position `k` after a half-step from the old value
/// `old_v`, driven by the curl of `b`.
pub open spec fn half_step_at<T, D: Fn(T, T, T, T) -> T, U: Fn(T, T) -> T>(
    old_v: T,
    b: Seq<T>,
    w: int,
    k: int,
    diff: D,
    apply: U,
    v: T,
) -> bool {
    if interior(w, k) {
        exists|cv: T| diff.ensures(curl_args(b, w, k), cv) && apply.ensures((old_v, cv), v)
    } else {
        v == old_v
    }
}

/// `r` is `a` with the component normal to each face set to `zero` on that
/// face (a perfectly conducting wall).
pub open spec fn faces_rel<T>(a: Seq<T>, w: int, zero: T, r: Seq<T>) -> bool {
    &&& r.len() == a.len()
    &&& forall|k: int| 0 <= k < a.len() ==> #[trigger] r[k] == if on_normal_face(w, k) { zero } else { a[k] }
}

/// Flat position of component `c` at `(x, y, z)`.
pub fn cell_index(w: usize, x: usize, y: usize, z: usize, c: usize) -> (r: usize)
    requires
        x < w,
        y < w,
        z < w,
        c < 3,
        field_len(w as int) <= usize::MAX,
    ensures
        r == cell(w as int, x as int, y as int, z as int, c as int),
{
    proof {
        lemma_cell_bounds(w as int, x as int, y as int, z as int, c as int);
        let p = x * w + y;
        assert(w * w <= w * w * w * 3) by (nonlinear_arith)
            requires w >= 1;
        assert(w * w * w <= w * w * w * 3) by (nonlinear_arith)
            requires w >= 1;
        assert(x * w <= x * w + y);
        assert((x * w + y) * w <= (x * w + y) * w + z);
    }
    ((x * w + y) * w + z) * 3 + c
}

/// Flat position of component `comp` at `(x, y, z)` moved one step up
/// (`up`) or down along `axis`.
fn neighbor_index(w: usize, x: usize, y: usize, z: usize, axis: usize, up: bool, comp: usize) -> (r: usize)
    requires
        1 <= x < w - 1,
        1 <= y < w - 1,
        1 <= z < w - 1,
        axis < 3,
        comp < 3,
        field_len(w as int) <= usize::MAX,
    ensures
        r == cell(
            w as int,
            x + if axis == 0 { if up { 1int } else { -1int } } else { 0int },
            y + if axis == 1 { if up { 1int } else { -1int } } else { 0int },
            z + if axis == 2 { if up { 1int } else { -1int } } else { 0int },
            comp as int,
        ),
{
    let (nx, ny, nz) = if axis == 0 {
        (if up { x + 1 } else { x - 1 }, y, z)
    } else if axis == 1 {
        (x, if up { y + 1 } else { y - 1 }, z)
    } else {
        (x, y, if up { z + 1 } else { z - 1 })
    };
    cell_index(w, nx, ny, nz, comp)
}

/// Adds one leapfrog half-step to `a`: at every interior point, the curl
/// component of `b` there (`diff` of its `curl_args`) is applied to the
/// value by `apply`. Points on the outermost layer are left as they are.
pub fn half_step<T: Copy, D: Fn(T, T, T, T) -> T, U: Fn(T, T) -> T>(
    a: &mut Vec<T>,
    b: &Vec<T>,
    w: usize,
    diff: &D,
    apply: &U,
)
    requires
        old(a)@.len() == field_len(w as int),
        b@.len() == field_len(w as int),
        field_len(w as int) <= usize::MAX,
        forall|p: T, q: T, r: T, t: T| diff.requires((p, q, r, t)),
        forall|p: T, q: T| apply.requires((p, q)),
    ensures
        half_step_rel(old(a)@, b@, w as int, *diff, *apply, final(a)@),
{
    let ghost a0 = a@;
    let n = a.len();
    let mut k: usize = 0;
    while k < n
        invariant
            n == a@.len(),
            a@.len() == a0.len(),
            a0.len() == field_len(w as int),
            b@.len() == field_len(w as int),
            field_len(w as int) <= usize::MAX,
            forall|p: T, q: T, r: T, t: T| diff.requires((p, q, r, t)),
            forall|p: T, q: T| apply.requires((p, q)),
            k <= n,
            forall|j: int| 0 <= j < k ==> half_step_at(a0[j], b@, w as int, j, *diff, *apply, #[trigger] a@[j]),
            forall|j: int| k <= j < n ==> #[trigger] a@[j] == a0[j],
        decreases n - k,
    {
        proof { lemma_decode(w as int, k as int); }
        let c = k % 3;
        let q1 = k / 3;
        let z = q1 % w;
        let q2 = q1 / w;
        let y = q2 % w;
        let x = q2 / w;
        if 1 <= x && x + 1 < w && 1 <= y && y + 1 < w && 1 <= z && z + 1 < w {
            let a1 = (c + 1) % 3;
            let a2 = (c + 2) % 3;
            let i1 = neighbor_index(w, x, y, z, a1, true, a2);
            let i2 = neighbor_index(w, x, y, z, a1, false, a2);
            let i3 = neighbor_index(w, x, y, z, a2, true, a1);
            let i4 = neighbor_index(w, x, y, z, a2, false, a1);
            proof {
                assert(i1 == shifted(w as int, k as int, a1 as int, 1, a2 as int));
                assert(i2 == shifted(w as int, k as int, a1 as int, -1, a2 as int));
                assert(i3 == shifted(w as int, k as int, a2 as int, 1, a1 as int));
                assert(i4 == shifted(w as int, k as int, a2 as int, -1, a1 as int));
                lemma_cell_bounds(w as int, x + if a1 == 0 { 1int } else { 0int }, y + if a1 == 1 { 1int } else { 0int }, z + if a1 == 2 { 1int } else { 0int }, a2 as int);
                lemma_cell_bounds(w as int, x - if a1 == 0 { 1int } else { 0int }, y - if a1 == 1 { 1int } else { 0int }, z - if a1 == 2 { 1int } else { 0int }, a2 as int);
                lemma_cell_bounds(w as int, x + if a2 == 0 { 1int } else { 0int }, y + if a2 == 1 { 1int } else { 0int }, z + if a2 == 2 { 1int } else { 0int }, a1 as int);
                lemma_cell_bounds(w as int, x - if a2 == 0 { 1int } else { 0int }, y - if a2 == 1 { 1int } else { 0int }, z - if a2 == 2 { 1int } else { 0int }, a1 as int);
            }
            let cv = diff(b[i1], b[i2], b[i3], b[i4]);
            let old_v = a[k];
            let nv = apply(old_v, cv);
            a.set(k, nv);
            proof {
                assert(curl_args(b@, w as int, k as int) == (b@[i1 as int], b@[i2 as int], b@[i3 as int], b@[i4 as int]));
                assert(diff.ensures(curl_args(b@, w as int, k as int), cv) && apply.ensures((a0[k as int], cv), a@[k as int]));
                assert(half_step_at(a0[k as int], b@, w as int, k as int, *diff, *apply, a@[k as int]));
            }
        }
        k += 1;
    }
}

/// Sets the component normal to each face of the grid to `zero` on that face.
pub fn zero_normal_faces<T: Copy>(a: &mut Vec<T>, w: usize, zero: T)
    requires
        old(a)@.len() == field_len(w as int),
        field_len(w as int) <= usize::MAX,
    ensures
        faces_rel(old(a)@, w as int, zero, final(a)@),
{
    let ghost a0 = a@;
    let n = a.len();
    let mut k: usize = 0;
    while k < n
        invariant
            n == a@.len(),
            a@.len() == a0.len(),
            a0.len() == field_len(w as int),
            k <= n,
            forall|j: int| 0 <= j < k ==> #[trigger] a@[j] == if on_normal_face(w as int, j) { zero } else { a0[j] },
            forall|j: int| k <= j < n ==> #[trigger] a@[j] == a0[j],
        decreases n - k,
    {
        proof { lemma_decode(w as int, k as int); }
        let c = k % 3;
        let q1 = k / 3;
        let z = q1 % w;
        let q2 = q1 / w;
        let y = q2 % w;
        let x = q2 / w;
        let along = if c == 0 { x } else if c == 1 { y } else { z };
        if along == 0 || along + 1 == w {
            a.set(k, zero);
        }
        k += 1;
    }
}

/// `a` and `b` added value by value.
pub fn field_sum<T: Copy, A: Fn(T, T) -> T>(a: &Vec<T>, b: &Vec<T>, add: &A) -> (r: Vec<T>)
    requires
        a@.len() == b@.len(),
        forall|p: T, q: T| add.requires((p, q)),
    ensures
        sum_rel(a@, b@, *add, r@),
{
    let mut r: Vec<T> = Vec::new();
    let mut k: usize = 0;
    while k < a.len()
        invariant
            a@.len() == b@.len(),
            forall|p: T, q: T| add.requires((p, q)),
            k <= a@.len(),
            r@.len() == k,
            forall|j: int| 0 <= j < k ==> add.ensures((a@[j], b@[j]), #[trigger] r@[j]),
        decreases a@.len() - k,
    {
        let v = (*add)(a[k], b[k]);
        r.push(v);
        k += 1;
    }
    r
}

/// A lattice point inside the grid has its values inside the field.
pub proof fn lemma_cell_bounds(w: int, x: int, y: int, z: int, c: int)
    requires
        0 <= x < w,
        0 <= y < w,
        0 <= z < w,
        0 <= c < 3,
    ensures
        0 <= x * w + y < w * w,
        0 <= (x * w + y) * w + z < w * w * w,
        0 <= cell(w, x, y, z, c) < field_len(w),
{
    assert(0 <= x * w + y < w * w) by (nonlinear_arith)
        requires 0 <= x < w, 0 <= y < w;
    let p = x * w + y;
    assert(0 <= p * w + z < w * w * w) by (nonlinear_arith)
        requires 0 <= p < w * w, 0 <= z < w;
    let q = p * w + z;
    assert(0 <= q * 3 + c < w * w * w * 3) by (nonlinear_arith)
        requires 0 <= q < w * w * w, 0 <= c < 3;
}

/// Every flat position inside the field decodes to a point inside the grid
/// and a component, and is the position of that component at that point.
pub proof fn lemma_decode(w: int, k: int)
    requires
        0 <= k < field_len(w),
    ensures
        0 <= x_of(w, k) < w,
        0 <= y_of(w, k) < w,
        0 <= z_of(w, k) < w,
        0 <= comp_of(k) < 3,
        k == cell(w, x_of(w, k), y_of(w, k), z_of(w, k), comp_of(k)),
{
    assert(w > 0) by (nonlinear_arith)
        requires 0 <= k < w * w * w * 3;
    let q1 = k / 3;
    let q2 = q1 / w;
    lemma_fundamental_div_mod(k, 3);
    lemma_fundamental_div_mod(q1, w);
    lemma_fundamental_div_mod(q2, w);
    assert(w * w * w * 3 == 3 * (w * w * w)) by (nonlinear_arith);
    lemma_multiply_divide_lt(k, 3, w * w * w);
    assert(q1 >= 0);
    assert(w * w * w == w * (w * w)) by (nonlinear_arith);
    lemma_multiply_divide_lt(q1, w, w * w);
    assert(q2 >= 0) by (nonlinear_arith)
        requires q1 >= 0, w > 0, q2 == q1 / w;
    lemma_multiply_divide_lt(q2, w, w);
    assert(q2 / w >= 0) by (nonlinear_arith)
        requires q2 >= 0, w > 0;
    assert(0 <= q1 % w < w) by (nonlinear_arith)
        requires w > 0;
    assert(0 <= q2 % w < w) by (nonlinear_arith)
        requires w > 0;
    assert(q1 == w * q2 + q1 % w);
    assert(q2 == w * (q2 / w) + q2 % w);
    assert(k == cell(w, q2 / w, q2 % w, q1 % w, k % 3)) by (nonlinear_arith)
        requires
            k == 3 * q1 + k % 3,
            q1 == w * q2 + q1 % w,
            q2 == w * (q2 / w) + q2 % w;
}

/// The position of a component at a point decodes back to them: distinct
/// (point, component) pairs have distinct positions.
pub proof fn lemma_decode_cell(w: int, x: int, y: int, z: int, c: int)
    requires
        0 <= x < w,
        0 <= y < w,
        0 <= z < w,
        0 <= c < 3,
    ensures
        x_of(w, cell(w, x, y, z, c)) == x,
        y_of(w, cell(w, x, y, z, c)) == y,
        z_of(w, cell(w, x, y, z, c)) == z,
        comp_of(cell(w, x, y, z, c)) == c,
{
    lemma_cell_bounds(w, x, y, z, c);
    let k = cell(w, x, y, z, c);
    let p = x * w + y;
    let q = p * w + z;
    lemma_fundamental_div_mod_converse(k, 3, q, c);
    lemma_fundamental_div_mod_converse(q, w, p, z);
    lemma_fundamental_div_mod_converse(p, w, x, y);
}


/// What one full step does to the fields `e0`, `h0` of a grid `w` wide,
/// giving `e1`, `h1`:
/// first the drive `current` enters E through `drive`; then E takes a
/// half-step from the curl of `H + magnetization`, and the walls are
/// reset; then H takes a half-step from the curl of `E + current`, and the
/// walls are reset.
pub open spec fn step_rel<T, A: Fn(T, T) -> T, S: Fn(T, T) -> T, D: Fn(T, T, T, T) -> T, U: Fn(T, T) -> T, V: Fn(T, T) -> T>(
    e0: Seq<T>,
    h0: Seq<T>,
    magnetization: Seq<T>,
    current: Seq<T>,
    w: int,
    add: A,
    drive: S,
    diff: D,
    e_apply: U,
    h_apply: V,
    zero: T,
    e1: Seq<T>,
    h1: Seq<T>,
) -> bool {
    exists|driven: Seq<T>, hm: Seq<T>, e_mid: Seq<T>, ei: Seq<T>, h_mid: Seq<T>|
        sum_rel(e0, current, drive, driven)
        && sum_rel(h0, magnetization, add, hm)
        && half_step_rel(driven, hm, w, diff, e_apply, e_mid)
        && faces_rel(e_mid, w, zero, e1)
        && sum_rel(e1, current, add, ei)
        && half_step_rel(h0, ei, w, diff, h_apply, h_mid)
        && faces_rel(h_mid, w, zero, h1)
}

/// Every value of `s` is `z`.
pub open spec fn all_equal<T>(s: Seq<T>, z: T) -> bool {
    forall|k: int| 0 <= k < s.len() ==> #[trigger] s[k] == z
}

/// The E and H fields of a cubic grid, with values of type `T`.
pub struct FdtdSim<T> {
    e_field: Vec<T>,
    h_field: Vec<T>,
    width: usize,
}

impl<T: Copy> FdtdSim<T> {
    /// The E field, flat.
    pub closed spec fn e_view(&self) -> Seq<T> {
        self.e_field@
    }

    /// The H field, flat.
    pub closed spec fn h_view(&self) -> Seq<T> {
        self.h_field@
    }

    /// Points per side.
    pub closed spec fn width_view(&self) -> nat {
        self.width as nat
    }

    /// Both fields hold `field_len(width)` values, which fit in `usize`.
    pub open spec fn wf(&self) -> bool {
        &&& self.e_view().len() == field_len(self.width_view() as int)
        &&& self.h_view().len() == field_len(self.width_view() as int)
        &&& field_len(self.width_view() as int) <= usize::MAX
    }

    /// A grid `width` points wide with both fields at `zero`.
    pub fn new(width: usize, zero: T) -> (r: Self)
        requires
            field_len(width as int) <= usize::MAX,
        ensures
            r.wf(),
            r.width_view() == width,
            all_equal(r.e_view(), zero),
            all_equal(r.h_view(), zero),
    {
        proof {
            let w = width as int;
            assert(w * w <= w * w * w * 3 && w * w * w <= w * w * w * 3) by (nonlinear_arith)
                requires w >= 0;
        }
        let n = width * width * width * 3;
        let mut e_field: Vec<T> = Vec::new();
        let mut h_field: Vec<T> = Vec::new();
        let mut k: usize = 0;
        while k < n
            invariant
                k <= n,
                e_field@.len() == k,
                h_field@.len() == k,
                all_equal(e_field@, zero),
                all_equal(h_field@, zero),
            decreases n - k,
        {
            e_field.push(zero);
            h_field.push(zero);
            k += 1;
        }
        FdtdSim { e_field, h_field, width }
    }

    /// The E field, flat.
    pub fn e_field(&self) -> (r: &Vec<T>)
        ensures
            r@ == self.e_view(),
    {
        &self.e_field
    }

    /// The H field, flat.
    pub fn h_field(&self) -> (r: &Vec<T>)
        ensures
            r@ == self.h_view(),
    {
        &self.h_field
    }

    /// Points per side.
    pub fn width(&self) -> (r: usize)
        ensures
            r == self.width_view(),
    {
        self.width
    }

    /// Overwrites one value of the E field.
    pub fn set_e(&mut self, k: usize, v: T)
        requires
            old(self).wf(),
            k < old(self).e_view().len(),
        ensures
            final(self).wf(),
            final(self).width_view() == old(self).width_view(),
            final(self).e_view() == old(self).e_view().update(k as int, v),
            final(self).h_view() == old(self).h_view(),
    {
        self.e_field.set(k, v);
    }

    /// Advances both fields by one full leapfrog step (see `step_rel`).
    ///
    /// `add` adds two values; `drive(e, j)` enters the drive `j` into the
    /// value `e`; `diff(p, q, r, t)` is `(p - q) - (r - t)`; `e_apply(e, c)`
    /// and `h_apply(h, c)` add the curl value `c`, scaled by `+scale` and
    /// `-scale`, to a value; `zero` is the value the walls are reset to.
    pub fn step<A: Fn(T, T) -> T, S: Fn(T, T) -> T, D: Fn(T, T, T, T) -> T, U: Fn(T, T) -> T, V: Fn(T, T) -> T>(
        &mut self,
        magnetization: &Vec<T>,
        current: &Vec<T>,
        add: &A,
        drive: &S,
        diff: &D,
        e_apply: &U,
        h_apply: &V,
        zero: T,
    )
        requires
            old(self).wf(),
            magnetization@.len() == old(self).e_view().len(),
            current@.len() == old(self).e_view().len(),
            forall|p: T, q: T| add.requires((p, q)),
            forall|p: T, q: T| drive.requires((p, q)),
            forall|p: T, q: T, r: T, t: T| diff.requires((p, q, r, t)),
            forall|p: T, q: T| e_apply.requires((p, q)),
            forall|p: T, q: T| h_apply.requires((p, q)),
        ensures
            final(self).wf(),
            final(self).width_view() == old(self).width_view(),
            step_rel(
                old(self).e_view(),
                old(self).h_view(),
                magnetization@,
                current@,
                old(self).width_view() as int,
                *add,
                *drive,
                *diff,
                *e_apply,
                *h_apply,
                zero,
                final(self).e_view(),
                final(self).h_view(),
            ),
    {
        let w = self.width;
        let ghost e0 = self.e_field@;
        let ghost h0 = self.h_field@;
        let mut driven = field_sum(&self.e_field, current, drive);
        let ghost d0 = driven@;
        let hm = field_sum(&self.h_field, magnetization, add);
        half_step(&mut driven, &hm, w, diff, e_apply);
        let ghost e_mid = driven@;
        zero_normal_faces(&mut driven, w, zero);
        self.e_field = driven;
        let ei = field_sum(&self.e_field, current, add);
        half_step(&mut self.h_field, &ei, w, diff, h_apply);
        let ghost h_mid = self.h_field@;
        zero_normal_faces(&mut self.h_field, w, zero);
        assert(sum_rel(e0, current@, *drive, d0)
            && sum_rel(h0, magnetization@, *add, hm@)
            && half_step_rel(d0, hm@, w as int, *diff, *e_apply, e_mid)
            && faces_rel(e_mid, w as int, zero, self.e_field@)
            && sum_rel(self.e_field@, current@, *add, ei@)
            && half_step_rel(h0, ei@, w as int, *diff, *h_apply, h_mid)
            && faces_rel(h_mid, w as int, zero, self.h_field@));
    }
}


/// The neighbours that the stencil reads around an interior point lie inside
/// the field.
pub proof fn lemma_shifted_in_range(w: int, k: int, axis: int, d: int, comp: int)
    requires
        0 <= k < field_len(w),
        interior(w, k),
        0 <= axis < 3,
        d == 1 || d == -1,
        0 <= comp < 3,
    ensures
        0 <= shifted(w, k, axis, d, comp) < field_len(w),
{
    lemma_decode(w, k);
    lemma_cell_bounds(
        w,
        x_of(w, k) + if axis == 0 { d } else { 0 },
        y_of(w, k) + if axis == 1 { d } else { 0 },
        z_of(w, k) + if axis == 2 { d } else { 0 },
        comp,
    );
}

proof fn lemma_half_step_keeps_zero<T, D: Fn(T, T, T, T) -> T, U: Fn(T, T) -> T>(
    a: Seq<T>,
    b: Seq<T>,
    w: int,
    diff: D,
    apply: U,
    r: Seq<T>,
    zero: T,
)
    requires
        half_step_rel(a, b, w, diff, apply, r),
        a.len() == field_len(w),
        b.len() == field_len(w),
        all_equal(a, zero),
        all_equal(b, zero),
        forall|v: T| diff.ensures((zero, zero, zero, zero), v) ==> v == zero,
        forall|v: T| apply.ensures((zero, zero), v) ==> v == zero,
    ensures
        all_equal(r, zero),
{
    assert forall|k: int| 0 <= k < r.len() implies #[trigger] r[k] == zero by {
        assert(half_step_at(a[k], b, w, k, diff, apply, r[k]));
        if interior(w, k) {
            let a1 = (comp_of(k) + 1) % 3;
            let a2 = (comp_of(k) + 2) % 3;
            lemma_shifted_in_range(w, k, a1, 1, a2);
            lemma_shifted_in_range(w, k, a1, -1, a2);
            lemma_shifted_in_range(w, k, a2, 1, a1);
            lemma_shifted_in_range(w, k, a2, -1, a1);
            assert(curl_args(b, w, k) == (zero, zero, zero, zero));
            let cv = choose|cv: T| diff.ensures(curl_args(b, w, k), cv) && apply.ensures((a[k], cv), r[k]);
            assert(cv == zero);
        }
    }
}

/// With all fields, the magnetization and the drive at zero, one step leaves
/// both fields at zero, for any arithmetic in which zero combined with zero
/// gives zero.
pub proof fn lemma_step_keeps_zero_fields<T, A: Fn(T, T) -> T, S: Fn(T, T) -> T, D: Fn(T, T, T, T) -> T, U: Fn(T, T) -> T, V: Fn(T, T) -> T>(
    e0: Seq<T>,
    h0: Seq<T>,
    magnetization: Seq<T>,
    current: Seq<T>,
    w: int,
    add: A,
    drive: S,
    diff: D,
    e_apply: U,
    h_apply: V,
    zero: T,
    e1: Seq<T>,
    h1: Seq<T>,
)
    requires
        step_rel(e0, h0, magnetization, current, w, add, drive, diff, e_apply, h_apply, zero, e1, h1),
        e0.len() == field_len(w),
        h0.len() == field_len(w),
        magnetization.len() == field_len(w),
        current.len() == field_len(w),
        all_equal(e0, zero),
        all_equal(h0, zero),
        all_equal(magnetization, zero),
        all_equal(current, zero),
        forall|v: T| add.ensures((zero, zero), v) ==> v == zero,
        forall|v: T| drive.ensures((zero, zero), v) ==> v == zero,
        forall|v: T| diff.ensures((zero, zero, zero, zero), v) ==> v == zero,
        forall|v: T| e_apply.ensures((zero, zero), v) ==> v == zero,
        forall|v: T| h_apply.ensures((zero, zero), v) ==> v == zero,
    ensures
        all_equal(e1, zero),
        all_equal(h1, zero),
{
    let (driven, hm, e_mid, ei, h_mid) = choose|driven: Seq<T>, hm: Seq<T>, e_mid: Seq<T>, ei: Seq<T>, h_mid: Seq<T>|
        sum_rel(e0, current, drive, driven)
        && sum_rel(h0, magnetization, add, hm)
        && half_step_rel(driven, hm, w, diff, e_apply, e_mid)
        && faces_rel(e_mid, w, zero, e1)
        && sum_rel(e1, current, add, ei)
        && half_step_rel(h0, ei, w, diff, h_apply, h_mid)
        && faces_rel(h_mid, w, zero, h1);
    assert(all_equal(driven, zero)) by {
        assert forall|k: int| 0 <= k < driven.len() implies #[trigger] driven[k] == zero by {
            assert(drive.ensures((e0[k], current[k]), driven[k]));
        }
    }
    assert(all_equal(hm, zero)) by {
        assert forall|k: int| 0 <= k < hm.len() implies #[trigger] hm[k] == zero by {
            assert(add.ensures((h0[k], magnetization[k]), hm[k]));
        }
    }
    lemma_half_step_keeps_zero(driven, hm, w, diff, e_apply, e_mid, zero);
    assert(all_equal(e1, zero)) by {
        assert forall|k: int| 0 <= k < e1.len() implies #[trigger] e1[k] == zero by {
            assert(e_mid[k] == zero);
        }
    }
    assert(all_equal(ei, zero)) by {
        assert forall|k: int| 0 <= k < ei.len() implies #[trigger] ei[k] == zero by {
            assert(add.ensures((e1[k], current[k]), ei[k]));
        }
    }
    lemma_half_step_keeps_zero(h0, ei, w, diff, h_apply, h_mid, zero);
    assert(all_equal(h1, zero)) by {
        assert forall|k: int| 0 <= k < h1.len() implies #[trigger] h1[k] == zero by {
            assert(h_mid[k] == zero);
        }
    }
}

} // verus!
