//! Shared pieces of the allocation subsystem: the alignment arithmetic every
//! strategy uses, and the `Dummy` allocator that refuses every request.
//!
//! The allocators manage an arena given as a plain `(start, size)` address
//! range; they hand out addresses and never touch the bytes themselves.

use vstd::prelude::*;

pub mod bump;
pub mod fixed_size_block;
pub mod linked_list;

verus! {

/// Whether `n` is a power of two.
pub open spec fn is_power_of_two(n: int) -> bool
    decreases n,
{
    if n <= 0 {
        false
    } else if n == 1 {
        true
    } else {
        n % 2 == 0 && is_power_of_two(n / 2)
    }
}

/// The smallest value that is at least `addr` and a multiple of `align`.
pub open spec fn align_up_spec(addr: int, align: int) -> int {
    if addr % align == 0 {
        addr
    } else {
        addr + align - addr % align
    }
}

/// A power of two is positive.
pub proof fn lemma_pow2_pos(n: int)
    requires
        is_power_of_two(n),
    ensures
        n >= 1,
{
}

/// Powers of two divide each other: the smaller divides the larger.
pub proof fn lemma_pow2_le_divides(a: int, b: int)
    requires
        is_power_of_two(a),
        is_power_of_two(b),
        a <= b,
    ensures
        b % a == 0,
    decreases b,
{
    lemma_pow2_pos(a);
    lemma_pow2_pos(b);
    if a == 1 {
        assert(b % 1 == 0) by (nonlinear_arith);
    } else {
        // a and b are both even; divide the claim by two.
        lemma_pow2_le_divides(a / 2, b / 2);
        let a2 = a / 2;
        let b2 = b / 2;
        vstd::arithmetic::div_mod::lemma_fundamental_div_mod(a, 2);
        vstd::arithmetic::div_mod::lemma_fundamental_div_mod(b, 2);
        vstd::arithmetic::div_mod::lemma_fundamental_div_mod(b2, a2);
        let k = b2 / a2;
        assert(b2 == a2 * k);
        assert(b == 2 * (a2 * k) && a == 2 * a2);
        assert(2 * (a2 * k) == k * (2 * a2)) by (nonlinear_arith);
        vstd::arithmetic::div_mod::lemma_mod_multiples_basic(k, a);
    }
}

/// Divisibility is transitive: if `b` divides `x` and `a` divides `b`,
/// then `a` divides `x`.
pub proof fn lemma_divides_transitive(x: int, a: int, b: int)
    requires
        0 <= x,
        0 < a,
        0 < b,
        x % b == 0,
        b % a == 0,
    ensures
        x % a == 0,
{
    vstd::arithmetic::div_mod::lemma_fundamental_div_mod(x, b);
    vstd::arithmetic::div_mod::lemma_fundamental_div_mod(b, a);
    let m = x / b;
    let n = b / a;
    assert(x == (a * n) * m);
    assert((a * n) * m == (n * m) * a) by (nonlinear_arith);
    vstd::arithmetic::div_mod::lemma_mod_multiples_basic(n * m, a);
}

/// A sum of two multiples of `m` is a multiple of `m`.
pub proof fn lemma_mod_add_zero(a: int, b: int, m: int)
    requires
        0 <= a,
        0 <= b,
        0 < m,
        a % m == 0,
        b % m == 0,
    ensures
        (a + b) % m == 0,
{
    vstd::arithmetic::div_mod::lemma_add_mod_noop(a, b, m);
    assert(0int % m == 0) by (nonlinear_arith)
        requires
            0 < m,
    ;
}

/// A difference of two multiples of `m` is a multiple of `m`; being
/// nonnegative, it is zero or at least `m`.
pub proof fn lemma_mod_sub_zero(a: int, b: int, m: int)
    requires
        0 <= b <= a,
        0 < m,
        a % m == 0,
        b % m == 0,
    ensures
        (a - b) % m == 0,
        a - b == 0 || a - b >= m,
{
    vstd::arithmetic::div_mod::lemma_sub_mod_noop(a, b, m);
    assert(0int % m == 0) by (nonlinear_arith)
        requires
            0 < m,
    ;
    if 0 < a - b < m {
        vstd::arithmetic::div_mod::lemma_small_mod((a - b) as nat, m as nat);
    }
}

/// The small powers of two, up to the largest size class.
pub proof fn lemma_pow2_constants()
    ensures
        is_power_of_two(1),
        is_power_of_two(2),
        is_power_of_two(4),
        is_power_of_two(8),
        is_power_of_two(16),
        is_power_of_two(32),
        is_power_of_two(64),
        is_power_of_two(128),
        is_power_of_two(256),
        is_power_of_two(512),
        is_power_of_two(1024),
        is_power_of_two(2048),
        is_power_of_two(4096),
{
    reveal_with_fuel(is_power_of_two, 14);
}

/// The characteristic facts of `align_up_spec`: the result is a multiple of
/// the alignment and lies in `[addr, addr + align)`.
pub proof fn lemma_align_up(addr: int, align: int)
    requires
        0 <= addr,
        0 < align,
    ensures
        align_up_spec(addr, align) % align == 0,
        addr <= align_up_spec(addr, align) < addr + align,
{
    assert(0 <= addr % align < align) by (nonlinear_arith)
        requires
            0 <= addr && 0 < align,
    ;
    if addr % align != 0 {
        assert((addr + align - addr % align) % align == 0) by (nonlinear_arith)
            requires
                0 <= addr && 0 < align,
        ;
    }
}

/// `align_up_spec` is the least multiple of `align` at or above `addr`:
/// any other such multiple is at least as large.
pub proof fn lemma_align_up_least(addr: int, align: int, m: int)
    requires
        0 <= addr,
        0 < align,
        m % align == 0,
        addr <= m,
    ensures
        align_up_spec(addr, align) <= m,
{
    lemma_align_up(addr, align);
    assert(align_up_spec(addr, align) <= m) by (nonlinear_arith)
        requires
            0 <= addr && 0 < align && m % align == 0 && addr <= m && align_up_spec(addr, align)
                % align == 0 && addr <= align_up_spec(addr, align) < addr + align,
    ;
}

/// The smallest address at or above `addr` that satisfies the
/// power-of-two alignment `align`. The caller must ensure the result fits in
/// the address space.
pub fn align_up(addr: usize, align: usize) -> (r: usize)
    requires
        is_power_of_two(align as int),
        align_up_spec(addr as int, align as int) <= usize::MAX,
    ensures
        r == align_up_spec(addr as int, align as int),
        r as int % align as int == 0,
        addr <= r < addr + align,
{
    proof {
        lemma_pow2_pos(align as int);
        lemma_align_up(addr as int, align as int);
    }
    let rem: usize = addr % align;
    if rem == 0 {
        addr
    } else {
        addr + (align - rem)
    }
}

/// `align_up` that reports failure instead of assuming the result fits in the
/// address space (the overflow check the strategies apply before committing).
pub fn align_up_checked(addr: usize, align: usize) -> (r: Option<usize>)
    requires
        is_power_of_two(align as int),
    ensures
        r matches Some(v) ==> v == align_up_spec(addr as int, align as int),
        r is None <==> align_up_spec(addr as int, align as int) > usize::MAX,
{
    proof {
        lemma_pow2_pos(align as int);
        lemma_align_up(addr as int, align as int);
    }
    let rem: usize = addr % align;
    if rem == 0 {
        Some(addr)
    } else if align - rem <= usize::MAX - addr {
        Some(addr + (align - rem))
    } else {
        None
    }
}

/// The allocator that refuses every request: it owns no arena, so every
/// allocation fails.
pub struct Dummy;

impl Dummy {
    /// Always fails with the out-of-memory sentinel.
    pub fn allocate(&self, _size: usize, _align: usize) -> (r: Option<usize>)
        ensures
            r is None,
    {
        None
    }
}

} // verus!
