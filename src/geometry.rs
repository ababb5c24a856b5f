use vstd::arithmetic::div_mod::{
    lemma_fundamental_div_mod, lemma_fundamental_div_mod_converse, lemma_mod_pos_bound,
};
use vstd::prelude::*;

verus! {

/// The number of `bs`-byte blocks that `n` bytes occupy: `n / bs` rounded up.
pub open spec fn blocks_for(n: int, bs: int) -> int {
    (n + bs - 1) / bs
}

/// Splits `x` into quotient and remainder by `d`.
pub proof fn lemma_split(x: int, d: int)
    requires
        0 <= x,
        0 < d,
    ensures
        x == (x / d) * d + x % d,
        0 <= x % d < d,
        0 <= x / d,
{
    lemma_fundamental_div_mod(x, d);
    lemma_mod_pos_bound(x, d);
    assert((x / d) * d == d * (x / d)) by (nonlinear_arith);
    let q = x / d;
    if q < 0 {
        assert(q * d <= -d) by (nonlinear_arith)
            requires
                q <= -1,
                0 < d,
        ;
    }
}

/// Empty content takes no block.
pub proof fn lemma_blocks_for_zero(bs: int)
    requires
        0 < bs,
    ensures
        blocks_for(0, bs) == 0,
{
    lemma_fundamental_div_mod_converse(bs - 1, bs, 0, bs - 1);
}

/// Byte `p` of content of length `n` lies in one of its `blocks_for(n, bs)` blocks.
pub proof fn lemma_block_index_in_range(p: int, n: int, bs: int)
    requires
        0 <= p < n,
        0 < bs,
    ensures
        0 <= p / bs < blocks_for(n, bs),
{
    lemma_split(p, bs);
    lemma_split(n + bs - 1, bs);
    let q = p / bs;
    let m = (n + bs - 1) / bs;
    assert(q < m) by (nonlinear_arith)
        requires
            p == q * bs + p % bs,
            0 <= p % bs < bs,
            n + bs - 1 == m * bs + (n + bs - 1) % bs,
            0 <= (n + bs - 1) % bs < bs,
            p < n,
            0 < bs,
    ;
}

/// Appending one byte at position `n` needs a new block exactly when `n` is a
/// multiple of `bs`; the byte then lands in block `n / bs`, the last one.
pub proof fn lemma_blocks_for_grow(n: int, bs: int)
    requires
        0 <= n,
        0 < bs,
    ensures
        n % bs == 0 ==> blocks_for(n + 1, bs) == blocks_for(n, bs) + 1 && n / bs == blocks_for(
            n,
            bs,
        ),
        n % bs != 0 ==> blocks_for(n + 1, bs) == blocks_for(n, bs) && n / bs == blocks_for(n, bs)
            - 1,
{
    lemma_split(n, bs);
    let q = n / bs;
    let r = n % bs;
    if r == 0 {
        assert(n + bs - 1 == q * bs + (bs - 1));
        lemma_fundamental_div_mod_converse(n + bs - 1, bs, q, bs - 1);
        assert(n + bs == (q + 1) * bs + 0) by (nonlinear_arith)
            requires
                n == q * bs,
        ;
        lemma_fundamental_div_mod_converse(n + bs, bs, q + 1, 0);
    } else {
        assert(n + bs - 1 == (q + 1) * bs + (r - 1)) by (nonlinear_arith)
            requires
                n == q * bs + r,
        ;
        lemma_fundamental_div_mod_converse(n + bs - 1, bs, q + 1, r - 1);
        assert(n + bs == (q + 1) * bs + r) by (nonlinear_arith)
            requires
                n == q * bs + r,
        ;
        lemma_fundamental_div_mod_converse(n + bs, bs, q + 1, r);
    }
}

/// Two different positions in one block have different offsets in it.
pub proof fn lemma_position_unique(p: int, q: int, bs: int)
    requires
        0 <= p,
        0 <= q,
        0 < bs,
        p != q,
        p / bs == q / bs,
    ensures
        p % bs != q % bs,
{
    lemma_split(p, bs);
    lemma_split(q, bs);
}

/// More bytes never take fewer blocks, and at most `k * bs` bytes take at
/// most `k` blocks.
pub proof fn lemma_blocks_for_bounds(n: int, m: int, k: int, bs: int)
    requires
        0 <= n <= m,
        0 <= k,
        m <= k * bs,
        0 < bs,
    ensures
        0 <= blocks_for(n, bs) <= blocks_for(m, bs) <= k,
{
    lemma_split(n + bs - 1, bs);
    lemma_split(m + bs - 1, bs);
    let a = (n + bs - 1) / bs;
    let b = (m + bs - 1) / bs;
    assert(a <= b) by (nonlinear_arith)
        requires
            n + bs - 1 == a * bs + (n + bs - 1) % bs,
            0 <= (n + bs - 1) % bs < bs,
            m + bs - 1 == b * bs + (m + bs - 1) % bs,
            0 <= (m + bs - 1) % bs < bs,
            n <= m,
            0 < bs,
    ;
    assert(b <= k) by (nonlinear_arith)
        requires
            m + bs - 1 == b * bs + (m + bs - 1) % bs,
            0 <= (m + bs - 1) % bs < bs,
            m <= k * bs,
            0 < bs,
    ;
}

/// `blocks_for` as a quotient and a remainder test.
pub proof fn lemma_blocks_for_split(n: int, bs: int)
    requires
        0 <= n,
        0 < bs,
    ensures
        blocks_for(n, bs) == n / bs + if n % bs == 0 {
            0int
        } else {
            1int
        },
{
    lemma_split(n, bs);
    let q = n / bs;
    let r = n % bs;
    if r == 0 {
        assert(n + bs - 1 == q * bs + (bs - 1));
        lemma_fundamental_div_mod_converse(n + bs - 1, bs, q, bs - 1);
    } else {
        assert(n + bs - 1 == (q + 1) * bs + (r - 1)) by (nonlinear_arith)
            requires
                n == q * bs + r,
        ;
        lemma_fundamental_div_mod_converse(n + bs - 1, bs, q + 1, r - 1);
    }
}

} // verus!
