//! Integer voxel bounds, brush bounds, and the arithmetic that relates a
//! voxel to the cubes that enclose it.

use vstd::arithmetic::div_mod::{
    lemma_div_plus_one, lemma_fundamental_div_mod, lemma_fundamental_div_mod_converse,
    lemma_hoist_over_denominator, lemma_mod_multiples_vanish,
};
use vstd::arithmetic::power2::{
    lemma2_to64, lemma_pow2_adds, lemma_pow2_pos, lemma_pow2_strictly_increases, lemma_pow2_unfold,
    pow2,
};
use vstd::prelude::*;

verus! {

/// The finest voxel size that the tree holds is `2^MIN_LG_SIZE`.
pub const MIN_LG_SIZE: i16 = -15;

/// The coarsest voxel size that the tree holds is `2^MAX_LG_SIZE`.
pub const MAX_LG_SIZE: i16 = 15;

/// A cube of side `2^lg_size` whose low corner is at
/// `(x, y, z) * 2^lg_size` in world units. A negative `lg_size` names a
/// sub-unit voxel.
#[derive(Debug, Clone, Copy, PartialEq, Eq, Structural)]
pub struct Bounds {
    pub x: i32,
    pub y: i32,
    pub z: i32,
    pub lg_size: i16,
}

/// The ancestor coordinate, `d` levels up, of coordinate `c`:
/// `floor(c / 2^d)`.
pub open spec fn anc(c: int, d: nat) -> int {
    c / (pow2(d) as int)
}

/// Which half (0 or 1) of its parent the ancestor `d` levels up lies in.
pub open spec fn digit(c: int, d: nat) -> int {
    anc(c, d) % 2
}

impl Bounds {
    pub fn new(x: i32, y: i32, z: i32, lg_size: i16) -> (r: Bounds)
        ensures
            r == (Bounds { x, y, z, lg_size }),
    {
        Bounds { x, y, z, lg_size }
    }

    /// The voxel sizes that the tree accepts.
    pub open spec fn valid(self) -> bool {
        MIN_LG_SIZE <= self.lg_size <= MAX_LG_SIZE
    }

    /// `self` is `other`, or a cube of the tree's grid that contains it.
    pub open spec fn encloses(self, other: Bounds) -> bool {
        &&& self.lg_size >= other.lg_size
        &&& anc(other.x as int, (self.lg_size - other.lg_size) as nat) == self.x
        &&& anc(other.y as int, (self.lg_size - other.lg_size) as nat) == self.y
        &&& anc(other.z as int, (self.lg_size - other.lg_size) as nat) == self.z
    }

    /// Neither cube holds the other; on the tree's grid that means they are
    /// disjoint.
    pub open spec fn apart(self, other: Bounds) -> bool {
        !self.encloses(other) && !other.encloses(self)
    }
}

/// One step up the grid: the ancestor `d + 1` levels up is half the one `d`
/// levels up, and the digit is what is left over.
pub proof fn lemma_anc_step(c: int, d: nat)
    ensures
        anc(c, d + 1) == anc(c, d) / 2,
        anc(c, d) == 2 * anc(c, d + 1) + digit(c, d),
        0 <= digit(c, d) <= 1,
{
    let p: int = pow2(d) as int;
    lemma_pow2_pos(d);
    lemma_pow2_unfold(d + 1);
    assert(pow2(d + 1) == 2 * p);
    let q = c / p;
    let r = c % p;
    lemma_fundamental_div_mod(c, p);
    lemma_fundamental_div_mod(q, 2);
    let q2 = q / 2;
    let r2 = q % 2;
    assert(c == q2 * (2 * p) + (p * r2 + r)) by (nonlinear_arith)
        requires
            c == p * q + r,
            q == 2 * q2 + r2,
    ;
    assert(0 <= p * r2 + r < 2 * p) by (nonlinear_arith)
        requires
            0 <= r < p,
            0 <= r2 < 2,
    ;
    lemma_fundamental_div_mod_converse(c, 2 * p, q2, p * r2 + r);
}

/// The ancestor zero levels up is the coordinate itself.
pub proof fn lemma_anc_zero(c: int)
    ensures
        anc(c, 0) == c,
{
    vstd::arithmetic::power2::lemma2_to64();
}

/// Ancestors compose: `d1` levels up from `d2` levels up is `d1 + d2` up.
pub proof fn lemma_anc_anc(c: int, d1: nat, d2: nat)
    ensures
        anc(anc(c, d2), d1) == anc(c, d1 + d2),
    decreases d1,
{
    if d1 == 0 {
        lemma_anc_zero(anc(c, d2));
    } else {
        let e = (d1 - 1) as nat;
        lemma_anc_anc(c, e, d2);
        lemma_anc_step(anc(c, d2), e);
        lemma_anc_step(c, e + d2);
    }
}

/// `c` lies in `[-2^d, 2^d)` exactly when its ancestor `d` levels up is one
/// of the two cubes that meet at the origin.
pub proof fn lemma_anc_near_origin(c: int, d: nat)
    ensures
        (-pow2(d) <= c < pow2(d)) <==> (-1 <= anc(c, d) <= 0),
{
    let p: int = pow2(d) as int;
    lemma_pow2_pos(d);
    lemma_fundamental_div_mod(c, p);
    let q = c / p;
    let r = c % p;
    assert((-p <= c < p) <==> (-1 <= q <= 0)) by (nonlinear_arith)
        requires
            c == p * q + r,
            0 <= r < p,
    ;
}

/// A 32-bit coordinate lies within `2^d` of the origin once `d >= 31`.
pub proof fn lemma_i32_near_origin(c: i32, d: nat)
    requires
        d >= 31,
    ensures
        -1 <= anc(c as int, d) <= 0,
{
    lemma2_to64();
    if d > 31 {
        lemma_pow2_strictly_increases(31, d);
    }
    lemma_anc_near_origin(c as int, d);
}

/// Powers of two up to the 61st fit comfortably in 64-bit signed integers.
pub proof fn lemma_pow2_le_61(d: nat)
    requires
        d <= 61,
    ensures
        pow2(d) <= 0x2000_0000_0000_0000,
{
    lemma2_to64();
    lemma_pow2_adds(d, (64 - d) as nat);
    lemma_pow2_strictly_increases(2, (64 - d) as nat);
    lemma_pow2_pos(d);
    assert(pow2(d) * pow2((64 - d) as nat) == 0x1_0000_0000_0000_0000);
    assert(pow2(d) <= 0x2000_0000_0000_0000) by (nonlinear_arith)
        requires
            pow2(d) * pow2((64 - d) as nat) == 0x1_0000_0000_0000_0000,
            pow2((64 - d) as nat) > 4,
            pow2(d) > 0,
    ;
}

/// With `c` shifted by `2^d` to be non-negative, its ancestor `d` levels up
/// is shifted by one.
pub proof fn lemma_offset_top(c: int, d: nat)
    ensures
        (c + pow2(d)) / (pow2(d) as int) == anc(c, d) + 1,
{
    lemma_pow2_pos(d);
    lemma_div_plus_one(c, pow2(d) as int);
}

/// Shifting `c` by `2^d` leaves the digits below `d` alone.
pub proof fn lemma_offset_digit(c: int, d: nat, j: nat)
    requires
        j < d,
    ensures
        ((c + pow2(d)) / (pow2(j) as int)) % 2 == digit(c, j),
{
    let e = (d - j) as nat;
    lemma_pow2_adds(j, e);
    assert(j + e == d);
    lemma_pow2_pos(j);
    lemma_pow2_unfold(e);
    let k: int = pow2(e) as int;
    let pj: int = pow2(j) as int;
    assert(pow2(d) == k * pj) by (nonlinear_arith)
        requires
            pow2(d) == pow2(j) * pow2(e),
            k == pow2(e),
            pj == pow2(j),
    ;
    lemma_hoist_over_denominator(c, k, pj as nat);
    assert((c + pow2(d)) / pj == anc(c, j) + k);
    lemma_mod_multiples_vanish(pow2((e - 1) as nat) as int, anc(c, j), 2);
}

/// An ancestor lies between the origin and the coordinate itself.
pub proof fn lemma_anc_between(c: int, d: nat)
    ensures
        c >= 0 ==> 0 <= anc(c, d) <= c,
        c < 0 ==> c <= anc(c, d) < 0,
{
    let p: int = pow2(d) as int;
    lemma_pow2_pos(d);
    lemma_fundamental_div_mod(c, p);
    let q = c / p;
    let r = c % p;
    assert(c >= 0 ==> 0 <= q <= c) by (nonlinear_arith)
        requires
            c == p * q + r,
            0 <= r < p,
    ;
    assert(c < 0 ==> c <= q < 0) by (nonlinear_arith)
        requires
            c == p * q + r,
            0 <= r < p,
    ;
}

/// The ancestors of a 32-bit coordinate, one level up or more, lie in
/// `[-2^30, 2^30)`.
pub proof fn lemma_anc_i32(c: i32, d: nat)
    ensures
        i32::MIN <= anc(c as int, d) <= i32::MAX,
        d >= 1 ==> -0x4000_0000 <= anc(c as int, d) < 0x4000_0000,
{
    lemma_anc_between(c as int, d);
    if d >= 1 {
        lemma_anc_anc(c as int, (d - 1) as nat, 1);
        lemma_anc_step(c as int, 0);
        lemma_anc_zero(c as int);
        lemma_anc_between(anc(c as int, 1), (d - 1) as nat);
    }
}

/// The cube `d` levels above `t` on its chain of enclosing cubes.
pub open spec fn node_bounds(t: Bounds, d: nat) -> Bounds {
    Bounds {
        x: anc(t.x as int, d) as i32,
        y: anc(t.y as int, d) as i32,
        z: anc(t.z as int, d) as i32,
        lg_size: (t.lg_size + d) as i16,
    }
}

/// Child `(i, j, k)` of the cube `b`.
pub open spec fn child_bounds(b: Bounds, i: int, j: int, k: int) -> Bounds {
    Bounds {
        x: (2 * b.x + i) as i32,
        y: (2 * b.y + j) as i32,
        z: (2 * b.z + k) as i32,
        lg_size: (b.lg_size - 1) as i16,
    }
}

/// Going one level down from the cube `d` levels above `t` towards `t`
/// reaches the cube `d - 1` levels above it.
pub proof fn lemma_child_of_node(t: Bounds, d: nat)
    requires
        d >= 1,
        t.valid(),
        d <= 61,
    ensures
        child_bounds(
            node_bounds(t, d),
            digit(t.x as int, (d - 1) as nat),
            digit(t.y as int, (d - 1) as nat),
            digit(t.z as int, (d - 1) as nat),
        ) == node_bounds(t, (d - 1) as nat),
{
    let e = (d - 1) as nat;
    lemma_anc_step(t.x as int, e);
    lemma_anc_step(t.y as int, e);
    lemma_anc_step(t.z as int, e);
    lemma_anc_i32(t.x, d);
    lemma_anc_i32(t.y, d);
    lemma_anc_i32(t.z, d);
    lemma_anc_i32(t.x, e);
    lemma_anc_i32(t.y, e);
    lemma_anc_i32(t.z, e);
}

/// Returns `2^k`.
pub fn pow2_u64(k: u32) -> (r: u64)
    requires
        k < 64,
    ensures
        r == pow2(k as nat),
{
    let mut r: u64 = 1;
    let mut i: u32 = 0;
    proof {
        vstd::arithmetic::power2::lemma2_to64();
    }
    while i < k
        invariant
            i <= k < 64,
            r == pow2(i as nat),
        decreases k - i,
    {
        proof {
            lemma_pow2_unfold((i + 1) as nat);
            vstd::arithmetic::power2::lemma_pow2_strictly_increases((i + 1) as nat, 64);
            vstd::arithmetic::power2::lemma2_to64();
        }
        r = r * 2;
        i = i + 1;
    }
    r
}

} // verus!
