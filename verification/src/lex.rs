//! Concatenation of per-cell sequences over a cube of cells, visiting the
//! cells with `x` outermost and `z` innermost.

use vstd::prelude::*;

verus! {

/// `f(x, y, 0) + ... + f(x, y, z - 1)`.
pub open spec fn row_concat<T>(f: spec_fn(u32, u32, u32) -> Seq<T>, x: u32, y: u32, z: nat) -> Seq<T>
    decreases z,
{
    if z == 0 {
        Seq::empty()
    } else {
        row_concat(f, x, y, (z - 1) as nat) + f(x, y, (z - 1) as u32)
    }
}

/// The rows `y' < y` of plane `x`, each of `m` cells.
pub open spec fn plane_concat<T>(f: spec_fn(u32, u32, u32) -> Seq<T>, m: nat, x: u32, y: nat) -> Seq<T>
    decreases y,
{
    if y == 0 {
        Seq::empty()
    } else {
        plane_concat(f, m, x, (y - 1) as nat) + row_concat(f, x, (y - 1) as u32, m)
    }
}

/// The planes `x' < x`, each of `m` by `m` cells.
pub open spec fn volume_concat<T>(f: spec_fn(u32, u32, u32) -> Seq<T>, m: nat, x: nat) -> Seq<T>
    decreases x,
{
    if x == 0 {
        Seq::empty()
    } else {
        volume_concat(f, m, (x - 1) as nat) + plane_concat(f, m, (x - 1) as u32, m)
    }
}

/// The concatenation over all cells before `(x, y, z)` in the visiting order.
pub open spec fn lex_prefix<T>(f: spec_fn(u32, u32, u32) -> Seq<T>, m: nat, x: nat, y: nat, z: nat) -> Seq<T> {
    volume_concat(f, m, x) + plane_concat(f, m, x as u32, y) + row_concat(f, x as u32, y as u32, z)
}

/// The concatenation of `f` over the whole cube `[0, m)^3`.
pub open spec fn lex_concat<T>(f: spec_fn(u32, u32, u32) -> Seq<T>, m: nat) -> Seq<T> {
    volume_concat(f, m, m)
}

/// Visiting one more cell appends its sequence.
pub proof fn lemma_lex_step<T>(f: spec_fn(u32, u32, u32) -> Seq<T>, m: nat, x: nat, y: nat, z: nat)
    requires
        x <= u32::MAX, y <= u32::MAX, z <= u32::MAX,
    ensures
        lex_prefix(f, m, x, y, z) + f(x as u32, y as u32, z as u32) =~= lex_prefix(f, m, x, y, z + 1),
{
    let a = volume_concat(f, m, x);
    let b = plane_concat(f, m, x as u32, y);
    let r = row_concat(f, x as u32, y as u32, z);
    assert(row_concat(f, x as u32, y as u32, z + 1) == r + f(x as u32, y as u32, z as u32));
    assert((a + b + r) + f(x as u32, y as u32, z as u32) =~= a + b + (r + f(x as u32, y as u32, z as u32)));
}

/// The end of a row is the start of the next one.
pub proof fn lemma_lex_next_row<T>(f: spec_fn(u32, u32, u32) -> Seq<T>, m: nat, x: nat, y: nat)
    requires
        x <= u32::MAX, y <= u32::MAX,
    ensures
        lex_prefix(f, m, x, y, m) =~= lex_prefix(f, m, x, y + 1, 0),
{
    let a = volume_concat(f, m, x);
    let b = plane_concat(f, m, x as u32, y);
    let r = row_concat(f, x as u32, y as u32, m);
    assert(plane_concat(f, m, x as u32, y + 1) == b + r);
    assert(row_concat(f, x as u32, (y + 1) as u32, 0) == Seq::<T>::empty());
    assert((a + b + r) =~= a + (b + r) + Seq::<T>::empty());
}

/// The end of a plane is the start of the next one.
pub proof fn lemma_lex_next_plane<T>(f: spec_fn(u32, u32, u32) -> Seq<T>, m: nat, x: nat)
    requires
        x <= u32::MAX,
    ensures
        lex_prefix(f, m, x, m, 0) =~= lex_prefix(f, m, x + 1, 0, 0),
{
    let a = volume_concat(f, m, x);
    let b = plane_concat(f, m, x as u32, m);
    assert(volume_concat(f, m, x + 1) == a + b);
    assert(row_concat(f, x as u32, m as u32, 0) == Seq::<T>::empty());
    assert(plane_concat(f, m, (x + 1) as u32, 0) == Seq::<T>::empty());
    assert(row_concat(f, (x + 1) as u32, 0, 0) == Seq::<T>::empty());
}

/// The whole cube is the prefix before plane `m`.
pub proof fn lemma_lex_whole<T>(f: spec_fn(u32, u32, u32) -> Seq<T>, m: nat)
    requires
        m <= u32::MAX,
    ensures
        lex_prefix(f, m, m, 0, 0) =~= lex_concat(f, m),
{
    assert(plane_concat(f, m, m as u32, 0) == Seq::<T>::empty());
    assert(row_concat(f, m as u32, 0, 0) == Seq::<T>::empty());
}

proof fn lemma_mod_sum(a: int, b: int, k: int)
    requires
        k > 0, a >= 0, b >= 0,
        a % k == 0,
        b % k == 0,
    ensures
        (a + b) % k == 0,
{
    vstd::arithmetic::div_mod::lemma_fundamental_div_mod(a, k);
    vstd::arithmetic::div_mod::lemma_fundamental_div_mod(b, k);
    assert(a + b == (a / k + b / k) * k) by (nonlinear_arith)
        requires a == k * (a / k) + a % k, b == k * (b / k) + b % k, a % k == 0, b % k == 0;
    vstd::arithmetic::div_mod::lemma_mod_multiples_basic(a / k + b / k, k);
}

/// If every cell's sequence has a length divisible by `k`, so has a row.
proof fn lemma_row_len_mod<T>(f: spec_fn(u32, u32, u32) -> Seq<T>, k: nat, m: nat, x: u32, y: u32, z: nat)
    requires
        k > 0,
        z <= m,
        m <= u32::MAX + 1,
        x < m, y < m,
        forall|a: u32, b: u32, c: u32| a < m && b < m && c < m ==> #[trigger] f(a, b, c).len() % k == 0,
    ensures
        row_concat(f, x, y, z).len() % k == 0,
    decreases z,
{
    if z > 0 {
        lemma_row_len_mod(f, k, m, x, y, (z - 1) as nat);
        let r = row_concat(f, x, y, (z - 1) as nat);
        let c = f(x, y, (z - 1) as u32);
        lemma_mod_sum(r.len() as int, c.len() as int, k as int);
    } else {
        vstd::arithmetic::div_mod::lemma_small_mod(0, k);
    }
}

proof fn lemma_plane_len_mod<T>(f: spec_fn(u32, u32, u32) -> Seq<T>, k: nat, m: nat, x: u32, y: nat)
    requires
        k > 0,
        y <= m,
        m <= u32::MAX + 1,
        x < m,
        forall|a: u32, b: u32, c: u32| a < m && b < m && c < m ==> #[trigger] f(a, b, c).len() % k == 0,
    ensures
        plane_concat(f, m, x, y).len() % k == 0,
    decreases y,
{
    if y > 0 {
        lemma_plane_len_mod(f, k, m, x, (y - 1) as nat);
        lemma_row_len_mod(f, k, m, x, (y - 1) as u32, m);
        let p = plane_concat(f, m, x, (y - 1) as nat);
        let r = row_concat(f, x, (y - 1) as u32, m);
        lemma_mod_sum(p.len() as int, r.len() as int, k as int);
    } else {
        vstd::arithmetic::div_mod::lemma_small_mod(0, k);
    }
}

proof fn lemma_volume_len_mod<T>(f: spec_fn(u32, u32, u32) -> Seq<T>, k: nat, m: nat, x: nat)
    requires
        k > 0,
        x <= m,
        m <= u32::MAX + 1,
        forall|a: u32, b: u32, c: u32| a < m && b < m && c < m ==> #[trigger] f(a, b, c).len() % k == 0,
    ensures
        volume_concat(f, m, x).len() % k == 0,
    decreases x,
{
    if x > 0 {
        lemma_volume_len_mod(f, k, m, (x - 1) as nat);
        lemma_plane_len_mod(f, k, m, (x - 1) as u32, m);
        let v = volume_concat(f, m, (x - 1) as nat);
        let p = plane_concat(f, m, (x - 1) as u32, m);
        lemma_mod_sum(v.len() as int, p.len() as int, k as int);
    } else {
        vstd::arithmetic::div_mod::lemma_small_mod(0, k);
    }
}

/// If every cell's sequence has a length divisible by `k`, so has the whole.
pub proof fn lemma_lex_len_mod<T>(f: spec_fn(u32, u32, u32) -> Seq<T>, k: nat, m: nat)
    requires
        k > 0,
        m <= u32::MAX + 1,
        forall|a: u32, b: u32, c: u32| a < m && b < m && c < m ==> #[trigger] f(a, b, c).len() % k == 0,
    ensures
        lex_concat(f, m).len() % k == 0,
{
    lemma_volume_len_mod(f, k, m, m);
}

proof fn lemma_row_all<T>(f: spec_fn(u32, u32, u32) -> Seq<T>, p: spec_fn(T) -> bool, m: nat, x: u32, y: u32, z: nat)
    requires
        z <= m,
        m <= u32::MAX + 1,
        x < m, y < m,
        forall|a: u32, b: u32, c: u32, i: int| a < m && b < m && c < m && 0 <= i < f(a, b, c).len()
            ==> p(#[trigger] f(a, b, c)[i]),
    ensures
        forall|i: int| 0 <= i < row_concat(f, x, y, z).len() ==> p(#[trigger] row_concat(f, x, y, z)[i]),
    decreases z,
{
    if z > 0 {
        lemma_row_all(f, p, m, x, y, (z - 1) as nat);
        let r = row_concat(f, x, y, (z - 1) as nat);
        let c = f(x, y, (z - 1) as u32);
        assert forall|i: int| 0 <= i < row_concat(f, x, y, z).len() implies p(#[trigger] row_concat(f, x, y, z)[i]) by {
            if i >= r.len() {
                assert(row_concat(f, x, y, z)[i] == c[i - r.len()]);
            } else {
                assert(row_concat(f, x, y, z)[i] == r[i]);
            }
        }
    }
}

proof fn lemma_plane_all<T>(f: spec_fn(u32, u32, u32) -> Seq<T>, p: spec_fn(T) -> bool, m: nat, x: u32, y: nat)
    requires
        y <= m,
        m <= u32::MAX + 1,
        x < m,
        forall|a: u32, b: u32, c: u32, i: int| a < m && b < m && c < m && 0 <= i < f(a, b, c).len()
            ==> p(#[trigger] f(a, b, c)[i]),
    ensures
        forall|i: int| 0 <= i < plane_concat(f, m, x, y).len() ==> p(#[trigger] plane_concat(f, m, x, y)[i]),
    decreases y,
{
    if y > 0 {
        lemma_plane_all(f, p, m, x, (y - 1) as nat);
        lemma_row_all(f, p, m, x, (y - 1) as u32, m);
        let a = plane_concat(f, m, x, (y - 1) as nat);
        let r = row_concat(f, x, (y - 1) as u32, m);
        assert forall|i: int| 0 <= i < plane_concat(f, m, x, y).len() implies p(#[trigger] plane_concat(f, m, x, y)[i]) by {
            if i >= a.len() {
                assert(plane_concat(f, m, x, y)[i] == r[i - a.len()]);
            } else {
                assert(plane_concat(f, m, x, y)[i] == a[i]);
            }
        }
    }
}

proof fn lemma_volume_all<T>(f: spec_fn(u32, u32, u32) -> Seq<T>, p: spec_fn(T) -> bool, m: nat, x: nat)
    requires
        x <= m,
        m <= u32::MAX + 1,
        forall|a: u32, b: u32, c: u32, i: int| a < m && b < m && c < m && 0 <= i < f(a, b, c).len()
            ==> p(#[trigger] f(a, b, c)[i]),
    ensures
        forall|i: int| 0 <= i < volume_concat(f, m, x).len() ==> p(#[trigger] volume_concat(f, m, x)[i]),
    decreases x,
{
    if x > 0 {
        lemma_volume_all(f, p, m, (x - 1) as nat);
        lemma_plane_all(f, p, m, (x - 1) as u32, m);
        let a = volume_concat(f, m, (x - 1) as nat);
        let b = plane_concat(f, m, (x - 1) as u32, m);
        assert forall|i: int| 0 <= i < volume_concat(f, m, x).len() implies p(#[trigger] volume_concat(f, m, x)[i]) by {
            if i >= a.len() {
                assert(volume_concat(f, m, x)[i] == b[i - a.len()]);
            } else {
                assert(volume_concat(f, m, x)[i] == a[i]);
            }
        }
    }
}

/// If every element of every cell's sequence satisfies `p`, so does every
/// element of the whole.
pub proof fn lemma_lex_all<T>(f: spec_fn(u32, u32, u32) -> Seq<T>, p: spec_fn(T) -> bool, m: nat)
    requires
        m <= u32::MAX + 1,
        forall|a: u32, b: u32, c: u32, i: int| a < m && b < m && c < m && 0 <= i < f(a, b, c).len()
            ==> p(#[trigger] f(a, b, c)[i]),
    ensures
        forall|i: int| 0 <= i < lex_concat(f, m).len() ==> p(#[trigger] lex_concat(f, m)[i]),
{
    lemma_volume_all(f, p, m, m);
}

proof fn lemma_row_len_bound<T>(f: spec_fn(u32, u32, u32) -> Seq<T>, m: nat, x: u32, y: u32, z: nat)
    requires
        z <= m,
        m <= u32::MAX + 1,
        x < m, y < m,
        forall|a: u32, b: u32, c: u32| a < m && b < m && c < m ==> #[trigger] f(a, b, c).len() <= 1,
    ensures
        row_concat(f, x, y, z).len() <= z,
    decreases z,
{
    if z > 0 {
        lemma_row_len_bound(f, m, x, y, (z - 1) as nat);
    }
}

proof fn lemma_plane_len_bound<T>(f: spec_fn(u32, u32, u32) -> Seq<T>, m: nat, x: u32, y: nat)
    requires
        y <= m,
        m <= u32::MAX + 1,
        x < m,
        forall|a: u32, b: u32, c: u32| a < m && b < m && c < m ==> #[trigger] f(a, b, c).len() <= 1,
    ensures
        plane_concat(f, m, x, y).len() <= y * m,
    decreases y,
{
    if y > 0 {
        lemma_plane_len_bound(f, m, x, (y - 1) as nat);
        lemma_row_len_bound(f, m, x, (y - 1) as u32, m);
        assert((y - 1) * m + m == y * m) by (nonlinear_arith);
    }
}

proof fn lemma_volume_len_bound<T>(f: spec_fn(u32, u32, u32) -> Seq<T>, m: nat, x: nat)
    requires
        x <= m,
        m <= u32::MAX + 1,
        forall|a: u32, b: u32, c: u32| a < m && b < m && c < m ==> #[trigger] f(a, b, c).len() <= 1,
    ensures
        volume_concat(f, m, x).len() <= x * m * m,
    decreases x,
{
    if x > 0 {
        lemma_volume_len_bound(f, m, (x - 1) as nat);
        lemma_plane_len_bound(f, m, (x - 1) as u32, m);
        assert((x - 1) * m * m + m * m == x * m * m) by (nonlinear_arith);
    }
}

/// If no cell contributes more than one element, the whole has at most one
/// element per cell.
pub proof fn lemma_lex_len_bound<T>(f: spec_fn(u32, u32, u32) -> Seq<T>, m: nat)
    requires
        m <= u32::MAX + 1,
        forall|a: u32, b: u32, c: u32| a < m && b < m && c < m ==> #[trigger] f(a, b, c).len() <= 1,
    ensures
        lex_concat(f, m).len() <= m * m * m,
{
    lemma_volume_len_bound(f, m, m);
}

/// Two functions that agree on the cube `[0, m)^3` have the same
/// concatenation over it.
pub proof fn lemma_lex_congruent<T>(f: spec_fn(u32, u32, u32) -> Seq<T>, g: spec_fn(u32, u32, u32) -> Seq<T>, m: nat)
    requires
        m <= u32::MAX + 1,
        forall|a: u32, b: u32, c: u32| a < m && b < m && c < m ==> #[trigger] f(a, b, c) == g(a, b, c),
    ensures
        lex_concat(f, m) == lex_concat(g, m),
{
    lemma_volume_congruent(f, g, m, m);
}

proof fn lemma_row_congruent<T>(f: spec_fn(u32, u32, u32) -> Seq<T>, g: spec_fn(u32, u32, u32) -> Seq<T>, m: nat, x: u32, y: u32, z: nat)
    requires
        z <= m,
        m <= u32::MAX + 1,
        x < m, y < m,
        forall|a: u32, b: u32, c: u32| a < m && b < m && c < m ==> #[trigger] f(a, b, c) == g(a, b, c),
    ensures
        row_concat(f, x, y, z) == row_concat(g, x, y, z),
    decreases z,
{
    if z > 0 {
        lemma_row_congruent(f, g, m, x, y, (z - 1) as nat);
        assert(f(x, y, (z - 1) as u32) == g(x, y, (z - 1) as u32));
    }
}

proof fn lemma_plane_congruent<T>(f: spec_fn(u32, u32, u32) -> Seq<T>, g: spec_fn(u32, u32, u32) -> Seq<T>, m: nat, x: u32, y: nat)
    requires
        y <= m,
        m <= u32::MAX + 1,
        x < m,
        forall|a: u32, b: u32, c: u32| a < m && b < m && c < m ==> #[trigger] f(a, b, c) == g(a, b, c),
    ensures
        plane_concat(f, m, x, y) == plane_concat(g, m, x, y),
    decreases y,
{
    if y > 0 {
        lemma_plane_congruent(f, g, m, x, (y - 1) as nat);
        lemma_row_congruent(f, g, m, x, (y - 1) as u32, m);
    }
}

proof fn lemma_volume_congruent<T>(f: spec_fn(u32, u32, u32) -> Seq<T>, g: spec_fn(u32, u32, u32) -> Seq<T>, m: nat, x: nat)
    requires
        x <= m,
        m <= u32::MAX + 1,
        forall|a: u32, b: u32, c: u32| a < m && b < m && c < m ==> #[trigger] f(a, b, c) == g(a, b, c),
    ensures
        volume_concat(f, m, x) == volume_concat(g, m, x),
    decreases x,
{
    if x > 0 {
        lemma_volume_congruent(f, g, m, (x - 1) as nat);
        lemma_plane_congruent(f, g, m, (x - 1) as u32, m);
    }
}

/// `s` read as a list of triangles, each with its last two corners
/// exchanged: the same triangles wound the other way round.
pub open spec fn swap_winding<T>(s: Seq<T>) -> Seq<T> {
    Seq::new(
        s.len(),
        |k: int|
            if k % 3 == 1 && k + 1 < s.len() {
                s[k + 1]
            } else if k % 3 == 2 {
                s[k - 1]
            } else {
                s[k]
            },
    )
}

/// Exchanging the windings of a whole list of triangles and of what follows
/// it can be done part by part.
pub proof fn lemma_swap_winding_add<T>(x: Seq<T>, y: Seq<T>)
    requires
        x.len() % 3 == 0,
    ensures
        swap_winding(x + y) =~= swap_winding(x) + swap_winding(y),
{
    let xy = x + y;
    assert forall|k: int| 0 <= k < xy.len() implies #[trigger] swap_winding(xy)[k] == (swap_winding(x) + swap_winding(y))[k] by {
        if k < x.len() {
            if k % 3 == 1 {
                assert(k + 1 < x.len());
            }
        } else {
            let k2 = k - x.len();
            assert(k2 % 3 == k % 3);
        }
    }
}

proof fn lemma_row_swap<T>(f: spec_fn(u32, u32, u32) -> Seq<T>, g: spec_fn(u32, u32, u32) -> Seq<T>, m: nat, x: u32, y: u32, z: nat)
    requires
        z <= m,
        m <= u32::MAX + 1,
        x < m, y < m,
        forall|a: u32, b: u32, c: u32| a < m && b < m && c < m ==> #[trigger] f(a, b, c).len() % 3 == 0,
        forall|a: u32, b: u32, c: u32| a < m && b < m && c < m ==> #[trigger] g(a, b, c) == swap_winding(f(a, b, c)),
    ensures
        row_concat(g, x, y, z) == swap_winding(row_concat(f, x, y, z)),
    decreases z,
{
    if z > 0 {
        lemma_row_swap(f, g, m, x, y, (z - 1) as nat);
        lemma_row_len_mod(f, 3, m, x, y, (z - 1) as nat);
        lemma_swap_winding_add(row_concat(f, x, y, (z - 1) as nat), f(x, y, (z - 1) as u32));
        assert(g(x, y, (z - 1) as u32) == swap_winding(f(x, y, (z - 1) as u32)));
    } else {
        assert(swap_winding(row_concat(f, x, y, z)) =~= Seq::<T>::empty());
    }
}

proof fn lemma_plane_swap<T>(f: spec_fn(u32, u32, u32) -> Seq<T>, g: spec_fn(u32, u32, u32) -> Seq<T>, m: nat, x: u32, y: nat)
    requires
        y <= m,
        m <= u32::MAX + 1,
        x < m,
        forall|a: u32, b: u32, c: u32| a < m && b < m && c < m ==> #[trigger] f(a, b, c).len() % 3 == 0,
        forall|a: u32, b: u32, c: u32| a < m && b < m && c < m ==> #[trigger] g(a, b, c) == swap_winding(f(a, b, c)),
    ensures
        plane_concat(g, m, x, y) == swap_winding(plane_concat(f, m, x, y)),
    decreases y,
{
    if y > 0 {
        lemma_plane_swap(f, g, m, x, (y - 1) as nat);
        lemma_row_swap(f, g, m, x, (y - 1) as u32, m);
        lemma_plane_len_mod(f, 3, m, x, (y - 1) as nat);
        lemma_swap_winding_add(plane_concat(f, m, x, (y - 1) as nat), row_concat(f, x, (y - 1) as u32, m));
    } else {
        assert(swap_winding(plane_concat(f, m, x, y)) =~= Seq::<T>::empty());
    }
}

proof fn lemma_volume_swap<T>(f: spec_fn(u32, u32, u32) -> Seq<T>, g: spec_fn(u32, u32, u32) -> Seq<T>, m: nat, x: nat)
    requires
        x <= m,
        m <= u32::MAX + 1,
        forall|a: u32, b: u32, c: u32| a < m && b < m && c < m ==> #[trigger] f(a, b, c).len() % 3 == 0,
        forall|a: u32, b: u32, c: u32| a < m && b < m && c < m ==> #[trigger] g(a, b, c) == swap_winding(f(a, b, c)),
    ensures
        volume_concat(g, m, x) == swap_winding(volume_concat(f, m, x)),
    decreases x,
{
    if x > 0 {
        lemma_volume_swap(f, g, m, (x - 1) as nat);
        lemma_plane_swap(f, g, m, (x - 1) as u32, m);
        lemma_volume_len_mod(f, 3, m, (x - 1) as nat);
        lemma_swap_winding_add(volume_concat(f, m, (x - 1) as nat), plane_concat(f, m, (x - 1) as u32, m));
    } else {
        assert(swap_winding(volume_concat(f, m, x)) =~= Seq::<T>::empty());
    }
}

/// When each cell's list of triangles of `g` is that of `f` wound the other
/// way round, so is the whole.
pub proof fn lemma_lex_swap_winding<T>(f: spec_fn(u32, u32, u32) -> Seq<T>, g: spec_fn(u32, u32, u32) -> Seq<T>, m: nat)
    requires
        m <= u32::MAX + 1,
        forall|a: u32, b: u32, c: u32| a < m && b < m && c < m ==> #[trigger] f(a, b, c).len() % 3 == 0,
        forall|a: u32, b: u32, c: u32| a < m && b < m && c < m ==> #[trigger] g(a, b, c) == swap_winding(f(a, b, c)),
    ensures
        lex_concat(g, m) == swap_winding(lex_concat(f, m)),
{
    lemma_volume_swap(f, g, m, m);
}

/// Every triangle of the list `s` satisfies `p`.
pub open spec fn triangles_satisfy<T>(s: Seq<T>, p: spec_fn(T, T, T) -> bool) -> bool {
    forall|t: int| 0 <= t && 3 * t + 2 < s.len() ==> #[trigger] p(s[3 * t], s[3 * t + 1], s[3 * t + 2])
}

pub proof fn lemma_triangles_add<T>(x: Seq<T>, y: Seq<T>, p: spec_fn(T, T, T) -> bool)
    requires
        x.len() % 3 == 0,
        triangles_satisfy(x, p),
        triangles_satisfy(y, p),
    ensures
        triangles_satisfy(x + y, p),
{
    let xy = x + y;
    let r = x.len() / 3;
    assert forall|t: int| 0 <= t && 3 * t + 2 < xy.len() implies #[trigger] p(xy[3 * t], xy[3 * t + 1], xy[3 * t + 2]) by {
        if t < r {
            assert(p(x[3 * t], x[3 * t + 1], x[3 * t + 2]));
        } else {
            let t2 = t - r;
            assert(3 * t - x.len() == 3 * t2);
            assert(p(y[3 * t2], y[3 * t2 + 1], y[3 * t2 + 2]));
        }
    }
}

proof fn lemma_row_triangles<T>(f: spec_fn(u32, u32, u32) -> Seq<T>, p: spec_fn(T, T, T) -> bool, m: nat, x: u32, y: u32, z: nat)
    requires
        z <= m,
        m <= u32::MAX + 1,
        x < m, y < m,
        forall|a: u32, b: u32, c: u32| a < m && b < m && c < m ==> #[trigger] f(a, b, c).len() % 3 == 0,
        forall|a: u32, b: u32, c: u32| a < m && b < m && c < m ==> triangles_satisfy(#[trigger] f(a, b, c), p),
    ensures
        triangles_satisfy(row_concat(f, x, y, z), p),
    decreases z,
{
    if z > 0 {
        lemma_row_triangles(f, p, m, x, y, (z - 1) as nat);
        lemma_row_len_mod(f, 3, m, x, y, (z - 1) as nat);
        lemma_triangles_add(row_concat(f, x, y, (z - 1) as nat), f(x, y, (z - 1) as u32), p);
    }
}

proof fn lemma_plane_triangles<T>(f: spec_fn(u32, u32, u32) -> Seq<T>, p: spec_fn(T, T, T) -> bool, m: nat, x: u32, y: nat)
    requires
        y <= m,
        m <= u32::MAX + 1,
        x < m,
        forall|a: u32, b: u32, c: u32| a < m && b < m && c < m ==> #[trigger] f(a, b, c).len() % 3 == 0,
        forall|a: u32, b: u32, c: u32| a < m && b < m && c < m ==> triangles_satisfy(#[trigger] f(a, b, c), p),
    ensures
        triangles_satisfy(plane_concat(f, m, x, y), p),
    decreases y,
{
    if y > 0 {
        lemma_plane_triangles(f, p, m, x, (y - 1) as nat);
        lemma_row_triangles(f, p, m, x, (y - 1) as u32, m);
        lemma_plane_len_mod(f, 3, m, x, (y - 1) as nat);
        lemma_triangles_add(plane_concat(f, m, x, (y - 1) as nat), row_concat(f, x, (y - 1) as u32, m), p);
    }
}

proof fn lemma_volume_triangles<T>(f: spec_fn(u32, u32, u32) -> Seq<T>, p: spec_fn(T, T, T) -> bool, m: nat, x: nat)
    requires
        x <= m,
        m <= u32::MAX + 1,
        forall|a: u32, b: u32, c: u32| a < m && b < m && c < m ==> #[trigger] f(a, b, c).len() % 3 == 0,
        forall|a: u32, b: u32, c: u32| a < m && b < m && c < m ==> triangles_satisfy(#[trigger] f(a, b, c), p),
    ensures
        triangles_satisfy(volume_concat(f, m, x), p),
    decreases x,
{
    if x > 0 {
        lemma_volume_triangles(f, p, m, (x - 1) as nat);
        lemma_plane_triangles(f, p, m, (x - 1) as u32, m);
        lemma_volume_len_mod(f, 3, m, (x - 1) as nat);
        lemma_triangles_add(volume_concat(f, m, (x - 1) as nat), plane_concat(f, m, (x - 1) as u32, m), p);
    }
}

/// If every cell contributes whole triangles that satisfy `p`, every
/// triangle of the whole satisfies `p`.
pub proof fn lemma_lex_triangles<T>(f: spec_fn(u32, u32, u32) -> Seq<T>, p: spec_fn(T, T, T) -> bool, m: nat)
    requires
        m <= u32::MAX + 1,
        forall|a: u32, b: u32, c: u32| a < m && b < m && c < m ==> #[trigger] f(a, b, c).len() % 3 == 0,
        forall|a: u32, b: u32, c: u32| a < m && b < m && c < m ==> triangles_satisfy(#[trigger] f(a, b, c), p),
    ensures
        triangles_satisfy(lex_concat(f, m), p),
{
    lemma_volume_triangles(f, p, m, m);
}

/// `t` occurs in `s` as a contiguous run.
pub open spec fn is_block<T>(s: Seq<T>, t: Seq<T>) -> bool {
    exists|k: int| 0 <= k && k + t.len() <= s.len() && #[trigger] s.subrange(k, k + t.len()) == t
}

proof fn lemma_block_trans<T>(s: Seq<T>, t: Seq<T>, u: Seq<T>)
    requires
        is_block(s, t),
        is_block(t, u),
    ensures
        is_block(s, u),
{
    let k = choose|k: int| 0 <= k && k + t.len() <= s.len() && #[trigger] s.subrange(k, k + t.len()) == t;
    let l = choose|l: int| 0 <= l && l + u.len() <= t.len() && #[trigger] t.subrange(l, l + u.len()) == u;
    assert(s.subrange(k + l, k + l + u.len()) =~= u);
}

proof fn lemma_block_left<T>(s: Seq<T>, w: Seq<T>)
    ensures
        is_block(s + w, s),
{
    assert((s + w).subrange(0, 0 + s.len() as int) =~= s);
}

proof fn lemma_block_right<T>(w: Seq<T>, s: Seq<T>)
    ensures
        is_block(w + s, s),
{
    assert((w + s).subrange(w.len() as int, (w.len() + s.len()) as int) =~= s);
}

proof fn lemma_row_block<T>(f: spec_fn(u32, u32, u32) -> Seq<T>, x: u32, y: u32, z: nat, c: u32)
    requires
        c < z,
        z <= u32::MAX + 1,
    ensures
        is_block(row_concat(f, x, y, z), f(x, y, c)),
    decreases z,
{
    let prev = row_concat(f, x, y, (z - 1) as nat);
    let last = f(x, y, (z - 1) as u32);
    if c == z - 1 {
        lemma_block_right(prev, last);
    } else {
        lemma_row_block(f, x, y, (z - 1) as nat, c);
        lemma_block_left(prev, last);
        lemma_block_trans(prev + last, prev, f(x, y, c));
    }
}

proof fn lemma_plane_block<T>(f: spec_fn(u32, u32, u32) -> Seq<T>, m: nat, x: u32, y: nat, b: u32, c: u32)
    requires
        b < y,
        c < m,
        y <= u32::MAX + 1,
        m <= u32::MAX + 1,
    ensures
        is_block(plane_concat(f, m, x, y), f(x, b, c)),
    decreases y,
{
    let prev = plane_concat(f, m, x, (y - 1) as nat);
    let last = row_concat(f, x, (y - 1) as u32, m);
    if b == y - 1 {
        lemma_row_block(f, x, (y - 1) as u32, m, c);
        lemma_block_right(prev, last);
        lemma_block_trans(prev + last, last, f(x, b, c));
    } else {
        lemma_plane_block(f, m, x, (y - 1) as nat, b, c);
        lemma_block_left(prev, last);
        lemma_block_trans(prev + last, prev, f(x, b, c));
    }
}

proof fn lemma_volume_block<T>(f: spec_fn(u32, u32, u32) -> Seq<T>, m: nat, x: nat, a: u32, b: u32, c: u32)
    requires
        a < x,
        b < m,
        c < m,
        x <= u32::MAX + 1,
        m <= u32::MAX + 1,
    ensures
        is_block(volume_concat(f, m, x), f(a, b, c)),
    decreases x,
{
    let prev = volume_concat(f, m, (x - 1) as nat);
    let last = plane_concat(f, m, (x - 1) as u32, m);
    if a == x - 1 {
        lemma_plane_block(f, m, (x - 1) as u32, m, b, c);
        lemma_block_right(prev, last);
        lemma_block_trans(prev + last, last, f(a, b, c));
    } else {
        lemma_volume_block(f, m, (x - 1) as nat, a, b, c);
        lemma_block_left(prev, last);
        lemma_block_trans(prev + last, prev, f(a, b, c));
    }
}

/// Each cell's sequence occurs as a contiguous run of the whole.
pub proof fn lemma_lex_block<T>(f: spec_fn(u32, u32, u32) -> Seq<T>, m: nat, a: u32, b: u32, c: u32)
    requires
        m <= u32::MAX + 1,
        a < m,
        b < m,
        c < m,
    ensures
        is_block(lex_concat(f, m), f(a, b, c)),
{
    lemma_volume_block(f, m, m, a, b, c);
}

/// A run of a run is a run.
pub proof fn lemma_is_block_trans<T>(s: Seq<T>, t: Seq<T>, u: Seq<T>)
    requires
        is_block(s, t),
        is_block(t, u),
    ensures
        is_block(s, u),
{
    lemma_block_trans(s, t, u);
}

/// Each part of a concatenation of three is a run of it.
pub proof fn lemma_block_of_three<T>(a: Seq<T>, b: Seq<T>, c: Seq<T>)
    ensures
        is_block(a + b + c, a),
        is_block(a + b + c, b),
        is_block(a + b + c, c),
{
    lemma_block_left(a, b);
    lemma_block_left(a + b, c);
    lemma_block_trans(a + b + c, a + b, a);
    lemma_block_right(a, b);
    lemma_block_trans(a + b + c, a + b, b);
    lemma_block_right(a + b, c);
}

/// Read as consecutive groups of `n` elements, every group of `s`
/// satisfies `p`.
pub open spec fn groups_satisfy<T>(s: Seq<T>, n: int, p: spec_fn(Seq<T>) -> bool) -> bool {
    forall|t: int| 0 <= t && n * t + n <= s.len() ==> #[trigger] p(s.subrange(n * t, n * t + n))
}

/// Groups of two lists, the first of whole groups, are the groups of their
/// concatenation.
pub proof fn lemma_groups_add<T>(x: Seq<T>, y: Seq<T>, n: int, p: spec_fn(Seq<T>) -> bool)
    requires
        n > 0,
        (x.len() as int) % n == 0,
        groups_satisfy(x, n, p),
        groups_satisfy(y, n, p),
    ensures
        groups_satisfy(x + y, n, p),
{
    let xy = x + y;
    let r = (x.len() as int) / n;
    vstd::arithmetic::div_mod::lemma_fundamental_div_mod(x.len() as int, n);
    assert forall|t: int| 0 <= t && n * t + n <= xy.len() implies #[trigger] p(xy.subrange(n * t, n * t + n)) by {
        if t < r {
            assert(n * t + n <= n * r) by (nonlinear_arith)
                requires t < r, n > 0;
            assert(xy.subrange(n * t, n * t + n) =~= x.subrange(n * t, n * t + n));
        } else {
            let t2 = t - r;
            assert(n * t == n * r + n * t2) by (nonlinear_arith)
                requires t2 == t - r;
            assert(n * t2 >= 0) by (nonlinear_arith)
                requires t2 >= 0, n > 0;
            assert(xy.subrange(n * t, n * t + n) =~= y.subrange(n * t2, n * t2 + n));
        }
    }
}

proof fn lemma_row_groups<T>(f: spec_fn(u32, u32, u32) -> Seq<T>, n: int, p: spec_fn(Seq<T>) -> bool, m: nat, x: u32, y: u32, z: nat)
    requires
        n > 0,
        z <= m,
        m <= u32::MAX + 1,
        x < m, y < m,
        forall|a: u32, b: u32, c: u32| a < m && b < m && c < m ==> #[trigger] f(a, b, c).len() % (n as nat) == 0,
        forall|a: u32, b: u32, c: u32| a < m && b < m && c < m ==> groups_satisfy(#[trigger] f(a, b, c), n, p),
    ensures
        groups_satisfy(row_concat(f, x, y, z), n, p),
    decreases z,
{
    if z > 0 {
        lemma_row_groups(f, n, p, m, x, y, (z - 1) as nat);
        lemma_row_len_mod(f, n as nat, m, x, y, (z - 1) as nat);
        lemma_groups_add(row_concat(f, x, y, (z - 1) as nat), f(x, y, (z - 1) as u32), n, p);
    }
}

proof fn lemma_plane_groups<T>(f: spec_fn(u32, u32, u32) -> Seq<T>, n: int, p: spec_fn(Seq<T>) -> bool, m: nat, x: u32, y: nat)
    requires
        n > 0,
        y <= m,
        m <= u32::MAX + 1,
        x < m,
        forall|a: u32, b: u32, c: u32| a < m && b < m && c < m ==> #[trigger] f(a, b, c).len() % (n as nat) == 0,
        forall|a: u32, b: u32, c: u32| a < m && b < m && c < m ==> groups_satisfy(#[trigger] f(a, b, c), n, p),
    ensures
        groups_satisfy(plane_concat(f, m, x, y), n, p),
    decreases y,
{
    if y > 0 {
        lemma_plane_groups(f, n, p, m, x, (y - 1) as nat);
        lemma_row_groups(f, n, p, m, x, (y - 1) as u32, m);
        lemma_plane_len_mod(f, n as nat, m, x, (y - 1) as nat);
        lemma_groups_add(plane_concat(f, m, x, (y - 1) as nat), row_concat(f, x, (y - 1) as u32, m), n, p);
    }
}

proof fn lemma_volume_groups<T>(f: spec_fn(u32, u32, u32) -> Seq<T>, n: int, p: spec_fn(Seq<T>) -> bool, m: nat, x: nat)
    requires
        n > 0,
        x <= m,
        m <= u32::MAX + 1,
        forall|a: u32, b: u32, c: u32| a < m && b < m && c < m ==> #[trigger] f(a, b, c).len() % (n as nat) == 0,
        forall|a: u32, b: u32, c: u32| a < m && b < m && c < m ==> groups_satisfy(#[trigger] f(a, b, c), n, p),
    ensures
        groups_satisfy(volume_concat(f, m, x), n, p),
    decreases x,
{
    if x > 0 {
        lemma_volume_groups(f, n, p, m, (x - 1) as nat);
        lemma_plane_groups(f, n, p, m, (x - 1) as u32, m);
        lemma_volume_len_mod(f, n as nat, m, (x - 1) as nat);
        lemma_groups_add(volume_concat(f, m, (x - 1) as nat), plane_concat(f, m, (x - 1) as u32, m), n, p);
    }
}

/// If every cell contributes whole groups of `n` that satisfy `p`, every
/// group of the whole satisfies `p`.
pub proof fn lemma_lex_groups<T>(f: spec_fn(u32, u32, u32) -> Seq<T>, n: int, p: spec_fn(Seq<T>) -> bool, m: nat)
    requires
        n > 0,
        m <= u32::MAX + 1,
        forall|a: u32, b: u32, c: u32| a < m && b < m && c < m ==> #[trigger] f(a, b, c).len() % (n as nat) == 0,
        forall|a: u32, b: u32, c: u32| a < m && b < m && c < m ==> groups_satisfy(#[trigger] f(a, b, c), n, p),
    ensures
        groups_satisfy(lex_concat(f, m), n, p),
{
    lemma_volume_groups(f, n, p, m, m);
}

} // verus!
