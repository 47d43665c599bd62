use vstd::prelude::*;

verus! {

/// `align` is a power of two of at least 2.
pub open spec fn valid_align(align: usize) -> bool {
    align >= 2 && align & ((align - 1) as usize) == 0
}

/// Whether `align` is a power of two of at least 2, the alignments that
/// `align_down` and `align_up` accept.
pub fn check_align(align: usize) -> (r: bool)
    ensures
        r == valid_align(align),
{
    align >= 2 && align & (align - 1) == 0
}

/// Aligns `addr` downwards to the nearest multiple of `align`.
pub fn align_down(addr: usize, align: usize) -> (r: usize)
    requires
        valid_align(align),
    ensures
        r == addr - addr % align,
        r <= addr,
        r % align == 0,
{
    proof {
        let a = addr as int;
        let m = align as int;
        vstd::arithmetic::div_mod::lemma_fundamental_div_mod(a, m);
        vstd::arithmetic::div_mod::lemma_mod_multiples_basic(a / m, m);
        vstd::arithmetic::mul::lemma_mul_is_commutative(m, a / m);
        assert(a - a % m == (a / m) * m);
    }
    addr - addr % align
}

/// Aligns `addr` upwards to the nearest multiple of `align`. The result must
/// fit in a `usize`.
pub fn align_up(addr: usize, align: usize) -> (r: usize)
    requires
        valid_align(align),
        addr % align == 0 || addr - addr % align + align <= usize::MAX,
    ensures
        r == if addr % align == 0 { addr as int } else { addr - addr % align + align },
        r >= addr,
        r % align == 0,
{
    if addr % align != 0 {
        let d = align_down(addr, align);
        proof {
            vstd::arithmetic::div_mod::lemma_add_mod_noop(d as int, align as int, align as int);
            vstd::arithmetic::div_mod::lemma_mod_self_0(align as int);
            vstd::arithmetic::div_mod::lemma_small_mod(0, align as nat);
        }
        d + align
    } else {
        addr
    }
}

} // verus!
