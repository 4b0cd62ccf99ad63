//! Numeric helpers for the setup-header grammar and floor-curve synthesis.

use vstd::prelude::*;

verus! {

use vstd::arithmetic::power2::pow2;
use vstd::arithmetic::power::{pow, lemma_pow_increases, lemma_pow_positive};
use vstd::arithmetic::mul::{lemma_mul_inequality, lemma_mul_nonnegative, lemma_mul_is_commutative};
use vstd::arithmetic::div_mod::{
    lemma_div_is_ordered, lemma_div_multiples_vanish, lemma_fundamental_div_mod,
    lemma_fundamental_div_mod_converse_div, lemma_fundamental_div_mod_converse_mod,
    lemma_mod_bound, lemma_div_pos_is_pos,
};

/// The number of bits needed to write `x` in binary; 0 for 0.
pub open spec fn ilog_spec(x: nat) -> nat
    decreases x,
{
    if x == 0 {
        0
    } else {
        1 + ilog_spec(x / 2)
    }
}

/// `ilog_spec` pins its result between two powers of two.
pub proof fn lemma_ilog_bounds(x: nat)
    requires
        x > 0,
    ensures
        ilog_spec(x) > 0,
        pow2((ilog_spec(x) - 1) as nat) <= x < pow2(ilog_spec(x)),
    decreases x,
{
    assert(ilog_spec(x) == 1 + ilog_spec(x / 2));
    vstd::arithmetic::power2::lemma_pow2_unfold(ilog_spec(x));
    if x / 2 == 0 {
        assert(ilog_spec(x / 2) == 0);
        vstd::arithmetic::power2::lemma2_to64();
    } else {
        lemma_ilog_bounds(x / 2);
        vstd::arithmetic::power2::lemma_pow2_unfold((ilog_spec(x) - 1) as nat);
    }
}

/// A 32-bit value needs at most 32 bits.
pub proof fn lemma_ilog_le_32(x: u32)
    ensures
        ilog_spec(x as nat) <= 32,
{
    if x > 0 {
        lemma_ilog_bounds(x as nat);
        vstd::arithmetic::power2::lemma2_to64();
        if ilog_spec(x as nat) > 32 {
            vstd::arithmetic::power2::lemma_pow2_strictly_increases(
                32,
                (ilog_spec(x as nat) - 1) as nat,
            );
        }
    }
}

/// Bit length of `x`: how many bits a variable-width count field needs.
pub fn ilog(x: u32) -> (r: u32)
    ensures
        r == ilog_spec(x as nat),
        r <= 32,
{
    proof {
        lemma_ilog_le_32(x);
    }
    let mut v: u32 = x;
    let mut r: u32 = 0;
    while v > 0
        invariant
            ilog_spec(x as nat) == r + ilog_spec(v as nat),
            r + ilog_spec(v as nat) <= 32,
        decreases v,
    {
        assert(ilog_spec(v as nat) == 1 + ilog_spec((v / 2) as nat));
        v = v / 2;
        r = r + 1;
    }
    r
}

/// Whether `base^exp <= cap`, without ever overflowing.
fn pow_at_most(base: u32, exp: u32, cap: u32) -> (r: bool)
    requires
        base >= 1,
    ensures
        r == (pow(base as int, exp as nat) <= cap as int),
{
    proof {
        vstd::arithmetic::power::lemma_pow0(base as int);
    }
    let mut acc: u64 = 1;
    let mut i: u32 = 0;
    while i < exp
        invariant
            base >= 1,
            i <= exp,
            acc == pow(base as int, i as nat),
            acc <= u32::MAX,
        decreases exp - i,
    {
        proof {
            lemma_pow_positive(base as int, i as nat);
        }
        if acc > cap as u64 {
            proof {
                lemma_pow_increases(base as nat, i as nat, exp as nat);
            }
            return false;
        }
        assert(acc * (base as u64) <= 0xFFFF_FFFFu64 * 0xFFFF_FFFFu64) by (nonlinear_arith)
            requires
                acc <= 0xFFFF_FFFFu64,
                base <= 0xFFFF_FFFFu32,
        ;
        acc = acc * (base as u64);
        proof {
            assert(acc == pow(base as int, (i + 1) as nat)) by {
                vstd::arithmetic::power::lemma_pow1(base as int);
                vstd::arithmetic::power::lemma_pow_adds(base as int, i as nat, 1);
            }
        }
        if acc > cap as u64 {
            proof {
                lemma_pow_increases(base as nat, (i + 1) as nat, exp as nat);
            }
            return false;
        }
        i = i + 1;
    }
    acc <= cap as u64
}

/// The largest `n` with `(n+1)^dimensions <= entries`: how many distinct scalar
/// values a type-one lookup table distributes over `dimensions` vector slots.
/// With no entries the answer is 0 whatever `dimensions` is.
pub fn lookup1_values(entries: u32, dimensions: u32) -> (r: u32)
    requires
        dimensions > 0 || entries == 0,
    ensures
        pow((r + 1) as int, dimensions as nat) > entries as int,
        r > 0 ==> pow(r as int, dimensions as nat) <= entries as int,
{
    let mut retval: u32 = 0;
    while retval < entries && pow_at_most(retval + 1, dimensions, entries)
        invariant
            dimensions > 0 || entries == 0,
            retval <= entries,
            retval > 0 ==> pow(retval as int, dimensions as nat) <= entries as int,
        decreases entries - retval,
    {
        proof {
            if dimensions == 0 {
                vstd::arithmetic::power::lemma_pow0((retval + 1) as int);
                assert(false);
            }
            vstd::arithmetic::power::lemma_pow1((retval + 1) as int);
            lemma_pow_increases((retval + 1) as nat, 1, dimensions as nat);
        }
        retval = retval + 1;
    }
    proof {
        if retval == entries {
            if dimensions == 0 {
                vstd::arithmetic::power::lemma_pow0((retval + 1) as int);
            } else {
                vstd::arithmetic::power::lemma_pow1((retval + 1) as int);
                lemma_pow_increases((retval + 1) as nat, 1, dimensions as nat);
            }
        }
    }
    retval
}

/// The index before `x` holding the largest value strictly below `v[x]`;
/// on ties the latest such index wins.
pub fn low_neighbor(v: &[i32], x: usize) -> (r: usize)
    requires
        x < v@.len(),
        exists|i: int| 0 <= i < x && v@[i] < v@[x as int],
    ensures
        r < x,
        v@[r as int] < v@[x as int],
        forall|i: int|
            0 <= i < x && v@[i] < v@[x as int] ==> v@[i] <= v@[r as int]
                && (v@[i] == v@[r as int] ==> i <= r),
{
    let ghost w = choose|i: int| 0 <= i < x && v@[i] < v@[x as int];
    let mut best: usize = 0;
    let mut found = false;
    let mut j: usize = 0;
    while j < x
        invariant
            x < v@.len(),
            j <= x,
            0 <= w < x && v@[w] < v@[x as int],
            found ==> best < j && v@[best as int] < v@[x as int],
            !found ==> forall|i: int| 0 <= i < j ==> v@[i] >= v@[x as int],
            forall|i: int|
                0 <= i < j && v@[i] < v@[x as int] ==> found && v@[i] <= v@[best as int] && (v@[i]
                    == v@[best as int] ==> i <= best),
        decreases x - j,
    {
        if v[j] < v[x] {
            if !found || v[j] >= v[best] {
                best = j;
            }
            found = true;
        }
        j = j + 1;
    }
    best
}

/// The index before `x` holding the smallest value strictly above `v[x]`;
/// on ties the earliest such index wins.
pub fn high_neighbor(v: &[i32], x: usize) -> (r: usize)
    requires
        x < v@.len(),
        exists|i: int| 0 <= i < x && v@[i] > v@[x as int],
    ensures
        r < x,
        v@[r as int] > v@[x as int],
        forall|i: int|
            0 <= i < x && v@[i] > v@[x as int] ==> v@[i] >= v@[r as int]
                && (v@[i] == v@[r as int] ==> r <= i),
{
    let ghost w = choose|i: int| 0 <= i < x && v@[i] > v@[x as int];
    let mut best: usize = 0;
    let mut found = false;
    let mut j: usize = 0;
    while j < x
        invariant
            x < v@.len(),
            j <= x,
            0 <= w < x && v@[w] > v@[x as int],
            found ==> best < j && v@[best as int] > v@[x as int],
            !found ==> forall|i: int| 0 <= i < j ==> v@[i] <= v@[x as int],
            forall|i: int|
                0 <= i < j && v@[i] > v@[x as int] ==> found && v@[i] >= v@[best as int] && (v@[i]
                    == v@[best as int] ==> best <= i),
        decreases x - j,
    {
        if v[j] > v[x] {
            if !found || v[j] < v[best] {
                best = j;
            }
            found = true;
        }
        j = j + 1;
    }
    best
}

/// The y value at `x` of the rasterized integer line from `(x0, y0)` to
/// `(x1, y1)`: linear interpolation whose fractional part is dropped toward
/// `y0`.
pub open spec fn line_point(x0: int, y0: int, x1: int, y1: int, x: int) -> int {
    if y1 >= y0 {
        y0 + ((x - x0) * (y1 - y0)) / (x1 - x0)
    } else {
        y0 - ((x - x0) * (y0 - y1)) / (x1 - x0)
    }
}

/// Evaluate the line from `(x0, y0)` to `(x1, y1)` at one point `x`.
pub fn render_point(x0: i32, y0: i32, x1: i32, y1: i32, x: i32) -> (r: i32)
    requires
        x0 < x1,
        x0 <= x <= x1,
        x1 - x0 <= 0x7FFF_FFFF,
        y1 - y0 <= 0x7FFF_FFFF,
        y0 - y1 <= 0x7FFF_FFFF,
        (if y1 >= y0 {
            y1 - y0
        } else {
            y0 - y1
        }) * (x - x0) <= 0x7FFF_FFFF,
    ensures
        r == line_point(x0 as int, y0 as int, x1 as int, y1 as int, x as int),
{
    let dy = y1 - y0;
    let adx = x1 - x0;
    let ady = if dy < 0 {
        -dy
    } else {
        dy
    };
    proof {
        lemma_mul_nonnegative(ady as int, (x - x0) as int);
    }
    let err = ady * (x - x0);
    proof {
        let ei = err as int;
        let di = adx as int;
        let ai = ady as int;
        lemma_mul_is_commutative(ai, (x - x0) as int);
        lemma_mul_is_commutative((y1 - y0) as int, (x - x0) as int);
        lemma_mul_is_commutative((y0 - y1) as int, (x - x0) as int);
        lemma_div_pos_is_pos(ei, di);
        lemma_mul_inequality((x - x0) as int, di, ai);
        lemma_div_is_ordered(ei, di * ai, di);
        lemma_div_multiples_vanish(ai, di);
    }
    let off = ((err as u32) / (adx as u32)) as i32;
    if dy < 0 {
        y0 - off
    } else {
        y0 + off
    }
}

/// Fill `v[x0..x1]` with the rasterized line from `(x0, y0)` to `(x1, y1)`,
/// leaving every other element alone.
#[verifier::loop_isolation(false)]
pub fn render_line(x0: i32, y0: i32, x1: i32, y1: i32, v: &mut Vec<i32>)
    requires
        0 <= x0 < x1,
        x1 <= old(v)@.len(),
        x1 - x0 <= 0x3FFF_FFFF,
        y1 - y0 <= 0x7FFF_FFFE,
        y0 - y1 <= 0x7FFF_FFFE,
    ensures
        final(v)@.len() == old(v)@.len(),
        forall|i: int|
            x0 <= i < x1 ==> final(v)@[i] == line_point(
                x0 as int,
                y0 as int,
                x1 as int,
                y1 as int,
                i,
            ),
        forall|i: int|
            0 <= i < old(v)@.len() && !(x0 <= i < x1) ==> final(v)@[i] == old(v)@[i],
{
    let dy = y1 - y0;
    let adx = x1 - x0;
    let ady = if dy < 0 {
        -dy
    } else {
        dy
    };
    proof {
        let ai = ady as int;
        let di = adx as int;
        lemma_fundamental_div_mod(ai, di);
        lemma_mod_bound(ai, di);
        lemma_div_pos_is_pos(ai, di);
        lemma_mul_inequality(1, di, ai / di);
        lemma_mul_nonnegative(di, ai / di);
    }
    let babs = ((ady as u32) / (adx as u32)) as i32;
    proof {
        assert(babs == ady as int / adx as int);
        lemma_mul_is_commutative(babs as int, adx as int);
    }
    let base = if dy < 0 {
        -babs
    } else {
        babs
    };
    let sy = if dy < 0 {
        base - 1
    } else {
        base + 1
    };
    let rem = ady - babs * adx;
    let mut y = y0;
    let mut err: i32 = 0;
    v[x0 as usize] = y;
    proof {
        lemma_fundamental_div_mod_converse_div(0, adx as int, 0, 0);
        lemma_fundamental_div_mod_converse_mod(0, adx as int, 0, 0);
    }
    let mut x = x0 + 1;
    while x < x1
        invariant
            x0 < x <= x1,
            v@.len() == old(v)@.len(),
            babs == ady as int / adx as int,
            rem == ady as int % adx as int,
            y == line_point(x0 as int, y0 as int, x1 as int, y1 as int, x - 1),
            err == ((x - 1 - x0) * (ady as int)) % (adx as int),
            0 <= err < adx,
            forall|i: int|
                x0 <= i < x ==> v@[i] == line_point(x0 as int, y0 as int, x1 as int, y1 as int, i),
            forall|i: int|
                0 <= i < old(v)@.len() && !(x0 <= i < x) ==> v@[i] == old(v)@[i],
        decreases x1 - x,
    {
        let ghost k = (x - x0) as int;
        let ghost ai = ady as int;
        let ghost di = adx as int;
        let ghost q = ((k - 1) * ai) / di;
        let ghost e = ((k - 1) * ai) % di;
        proof {
            lemma_mul_nonnegative(k - 1, ai);
            lemma_fundamental_div_mod((k - 1) * ai, di);
            lemma_mod_bound((k - 1) * ai, di);
            lemma_fundamental_div_mod(ai, di);
            vstd::arithmetic::mul::lemma_mul_is_distributive_sub_other_way(ai, k, 1);
            vstd::arithmetic::mul::lemma_mul_is_distributive_add(di, q + babs as int, 1);
            vstd::arithmetic::mul::lemma_mul_is_distributive_add(di, q, babs as int);
            assert(k * ai == di * (q + babs) + (e + rem));
            if e + rem >= di {
                lemma_fundamental_div_mod_converse_div(k * ai, di, q + babs + 1, e + rem - di);
                lemma_fundamental_div_mod_converse_mod(k * ai, di, q + babs + 1, e + rem - di);
            } else {
                lemma_fundamental_div_mod_converse_div(k * ai, di, q + babs, e + rem);
                lemma_fundamental_div_mod_converse_mod(k * ai, di, q + babs, e + rem);
            }
            lemma_mul_nonnegative(k, ai);
            lemma_mul_inequality(k, di, ai);
            lemma_div_is_ordered(k * ai, di * ai, di);
            lemma_div_multiples_vanish(ai, di);
            lemma_div_pos_is_pos(k * ai, di);
        }
        err = err + rem;
        if err >= adx {
            err = err - adx;
            y = y + sy;
        } else {
            y = y + base;
        }
        v[x as usize] = y;
        x = x + 1;
    }
}

/// The three raw components of the packed 32-bit float format: bit 31 the
/// sign, bits 30 down to 21 the biased exponent, bits 20 down to 0 the
/// mantissa. The encoded value is `mantissa * 2^(exponent - 788)`, negated
/// when the sign bit is set.
#[derive(Debug, PartialEq, Eq, Clone, Copy)]
pub struct UnpackedFloat {
    pub sign: bool,
    pub mantissa: u32,
    pub exponent: u32,
}

impl UnpackedFloat {
    /// The field ranges an unpacking can produce.
    pub open spec fn wf(self) -> bool {
        self.mantissa < 0x200000 && self.exponent < 0x400
    }

    /// Whether the encoded value stays inside the binary32 range: it escapes
    /// exactly when its magnitude reaches `2^128`, i.e. when the mantissa's
    /// bit length plus the biased exponent passes 916; a zero mantissa under
    /// an exponent of 916 or more is the indeterminate zero times infinity.
    pub open spec fn finite_spec(self) -> bool {
        if self.mantissa == 0 {
            self.exponent <= 915
        } else {
            ilog_spec(self.mantissa as nat) + self.exponent <= 916
        }
    }

    pub fn is_finite(&self) -> (r: bool)
        requires
            self.wf(),
        ensures
            r == self.finite_spec(),
    {
        if self.mantissa == 0 {
            self.exponent <= 915
        } else {
            ilog(self.mantissa) + self.exponent <= 916
        }
    }
}

/// The components the packed float format holds.
pub open spec fn float32_unpack_spec(x: u32) -> UnpackedFloat {
    UnpackedFloat {
        sign: (x & 0x80000000) != 0,
        mantissa: x & 0x1FFFFF,
        exponent: (x & 0x7FE00000) >> 21u32,
    }
}

/// Split the packed float format into its sign, biased exponent and mantissa.
pub fn float32_unpack(x: u32) -> (r: UnpackedFloat)
    ensures
        r == float32_unpack_spec(x),
        r.mantissa == x & 0x1FFFFF,
        r.exponent == (x & 0x7FE00000) >> 21u32,
        r.sign == ((x & 0x80000000) != 0),
        r.wf(),
{
    let mantissa = x & 0x1FFFFF;
    let exponent = (x & 0x7FE00000) >> 21;
    let sign = (x & 0x80000000) != 0;
    proof {
        assert(x & 0x1FFFFF < 0x200000 && (x & 0x7FE00000) >> 21u32 < 0x400) by (bit_vector);
    }
    UnpackedFloat { sign, mantissa, exponent }
}

} // verus!
