//! Flat row-major index arithmetic: decomposing a flat offset into
//! whole blocks and a remainder, for every operator that moves
//! sub-blocks around (axis reversal, rotation, windows).
use vstd::prelude::*;

verus! {

/// Division of a flat offset by a block size stays below the block
/// count.
pub proof fn lemma_div_block_bound(k: int, outer: int, block: int)
    requires
        0 <= k < outer * block,
        0 < block,
    ensures
        0 <= k / block < outer,
        0 <= k % block < block,
        k == (k / block) * block + k % block,
{
    vstd::arithmetic::div_mod::lemma_mod_bound(k, block);
    vstd::arithmetic::div_mod::lemma_fundamental_div_mod(k, block);
    assert(outer * block == block * outer) by (nonlinear_arith);
    assert((k / block) * block == block * (k / block)) by (nonlinear_arith);
    vstd::arithmetic::div_mod::lemma_multiply_divide_lt(k, block, outer);
    vstd::arithmetic::div_mod::lemma_div_pos_is_pos(k, block);
}

} // verus!
