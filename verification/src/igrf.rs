use vstd::prelude::*;

verus! {

/// Flat position of the coefficient of degree `n` and order `m`.
pub open spec fn coeff_index(n: int, m: int) -> int {
    n * (n + 1) / 2 + m - 1
}

/// The coefficients of degree `n + 1` start right after the last one
/// (order `n`) of degree `n`: the packing leaves no gap.
pub proof fn lemma_coeff_index_packed(n: int)
    requires
        n >= 0,
    ensures
        coeff_index(n + 1, 0) == coeff_index(n, n) + 1,
{
    let a = n * (n + 1);
    assert((n + 1) * (n + 2) == a + 2 * (n + 1)) by (nonlinear_arith)
        requires
            a == n * (n + 1),
    ;
    vstd::arithmetic::div_mod::lemma_fundamental_div_mod(a, 2);
    vstd::arithmetic::div_mod::lemma_fundamental_div_mod_converse(a + 2 * (n + 1), 2, a / 2 + n + 1, a % 2);
}

/// Position of the Gauss coefficient of degree `n` and order `m` in the flat
/// coefficient tables (degree 1 order 0 first, then by degree and order).
pub fn idx(n: usize, m: usize) -> (i: usize)
    requires
        n * (n + 1) <= usize::MAX,
        n * (n + 1) / 2 + m >= 1,
        n * (n + 1) / 2 + m <= usize::MAX,
    ensures
        i == coeff_index(n as int, m as int),
{
    assert(n + 1 <= usize::MAX) by (nonlinear_arith)
        requires
            n * (n + 1) <= usize::MAX,
    ;
    let t = n * (n + 1) / 2;
    t + m - 1
}

} // verus!
