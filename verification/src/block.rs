//! Blocks of a matrix that share one scale.

use vstd::arithmetic::div_mod::{lemma_fundamental_div_mod, lemma_fundamental_div_mod_converse};
use vstd::prelude::*;

verus! {

/// Block sizes for FP8 blockwise quantization.
#[derive(Debug)]
pub struct Fp8BlockSize {
    pub block_r: usize,
    pub block_c: usize,
}

impl Clone for Fp8BlockSize {
    fn clone(&self) -> (r: Self)
        ensures
            r == *self,
    {
        Self { block_r: self.block_r, block_c: self.block_c }
    }
}

impl Default for Fp8BlockSize {
    fn default() -> (r: Self)
        ensures
            r.block_r == 128,
            r.block_c == 128,
    {
        Self { block_r: 128, block_c: 128 }
    }
}

/// The number of blocks of length `block` that cover `len` places.
pub open spec fn blocks(len: int, block: int) -> int {
    (len + block - 1) / block
}

/// Which scale the element in row `r` and column `c` has, the scales of a row of
/// blocks lying one after the other.
pub open spec fn scale_index(r: int, c: int, block_r: int, block_c: int, cols: int) -> int {
    (r / block_r) * blocks(cols, block_c) + c / block_c
}

/// The number of blocks of length `block` that cover `len` places.
pub fn count_blocks(len: usize, block: usize) -> (r: usize)
    requires
        block > 0,
        len + block - 1 <= usize::MAX,
    ensures
        r == blocks(len as int, block as int),
{
    (len + (block - 1)) / block
}

/// Every place lies in exactly one block: in block `b` just where `b` is the
/// quotient of the place by the block length, and that block is one of those
/// that [`blocks`] counts.
pub proof fn law_blocks_partition(len: int, block: int, place: int, b: int)
    requires
        block > 0,
        0 <= place < len,
    ensures
        0 <= place / block < blocks(len, block),
        b * block <= place < b * block + block <==> b == place / block,
{
    let q = place / block;
    lemma_fundamental_div_mod(place, block);
    assert(q >= 0) by (nonlinear_arith)
        requires
            q == place / block,
            place >= 0,
            block > 0,
    ;
    assert(q < blocks(len, block)) by {
        let n = len + block - 1;
        lemma_fundamental_div_mod(n, block);
        assert(q < n / block) by (nonlinear_arith)
            requires
                n == block * (n / block) + n % block,
                0 <= n % block < block,
                place == block * q + place % block,
                0 <= place % block,
                place + block <= n,
                block > 0,
        ;
    }
    if b * block <= place < b * block + block {
        assert(b * block == block * b) by (nonlinear_arith);
        lemma_fundamental_div_mod_converse(place, block, b, place - b * block);
    }
    assert(q * block == block * q) by (nonlinear_arith);
}

/// The last block is not empty: one block fewer would not cover the length.
pub proof fn law_blocks_are_needed(len: int, block: int)
    requires
        block > 0,
        len >= 0,
    ensures
        blocks(len, block) >= 0,
        blocks(len, block) * block >= len,
        blocks(len, block) > 0 ==> (blocks(len, block) - 1) * block < len,
{
    let n = len + block - 1;
    let q = n / block;
    lemma_fundamental_div_mod(n, block);
    assert(q >= 0 && q * block >= len && (q - 1) * block < len) by (nonlinear_arith)
        requires
            n == block * q + n % block,
            0 <= n % block < block,
            n == len + block - 1,
            len >= 0,
            block > 0,
    ;
}

/// Two elements have the same scale just where they lie in the same block, and
/// the scales of a matrix are those below the number of its blocks.
pub proof fn law_one_scale_per_block(
    rows: int,
    cols: int,
    block_r: int,
    block_c: int,
    r: int,
    c: int,
    r2: int,
    c2: int,
)
    requires
        block_r > 0,
        block_c > 0,
        0 <= r < rows,
        0 <= r2 < rows,
        0 <= c < cols,
        0 <= c2 < cols,
    ensures
        0 <= scale_index(r, c, block_r, block_c, cols) < blocks(rows, block_r) * blocks(
            cols,
            block_c,
        ),
        scale_index(r, c, block_r, block_c, cols) == scale_index(r2, c2, block_r, block_c, cols)
            <==> r / block_r == r2 / block_r && c / block_c == c2 / block_c,
{
    law_blocks_partition(rows, block_r, r, 0);
    law_blocks_partition(rows, block_r, r2, 0);
    law_blocks_partition(cols, block_c, c, 0);
    law_blocks_partition(cols, block_c, c2, 0);
    let w = blocks(cols, block_c);
    let (a, b) = (r / block_r, c / block_c);
    let (a2, b2) = (r2 / block_r, c2 / block_c);
    let h = blocks(rows, block_r);
    assert(0 <= a * w + b < h * w) by (nonlinear_arith)
        requires
            0 <= a < h,
            0 <= b < w,
    ;
    if a * w + b == a2 * w + b2 {
        assert(a * w == w * a && a2 * w == w * a2) by (nonlinear_arith);
        lemma_fundamental_div_mod_converse(a * w + b, w, a, b);
        lemma_fundamental_div_mod_converse(a * w + b, w, a2, b2);
    }
}

} // verus!
