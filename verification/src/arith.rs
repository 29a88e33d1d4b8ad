//! Chunk arithmetic: how many chunks a transfer needs, how long each chunk
//! is, and where a chunk lands in the destination. All chunks but the last
//! hold exactly `chunk_size` bytes; the last holds the remainder.

use vstd::prelude::*;
use vstd::arithmetic::div_mod::{lemma_fundamental_div_mod, lemma_mod_division_less_than_divisor};

verus! {

/// The number of chunks a transfer of `size` bytes needs: `size / chunk_size`
/// rounded up.
pub open spec fn chunk_count_for(size: nat, chunk_size: nat) -> nat
    recommends
        chunk_size > 0,
{
    size / chunk_size + if size % chunk_size == 0 {
        0nat
    } else {
        1nat
    }
}

/// The byte length the chunk at `index` must have: `chunk_size` everywhere
/// except the last index, which takes what remains of `size`.
pub open spec fn chunk_len_at(size: nat, chunk_size: nat, index: nat) -> int
    recommends
        chunk_size > 0,
        index < chunk_count_for(size, chunk_size),
{
    if index + 1 == chunk_count_for(size, chunk_size) {
        size - chunk_size * (chunk_count_for(size, chunk_size) - 1)
    } else {
        chunk_size as int
    }
}

/// Where the chunk at `index` starts in the destination.
pub open spec fn chunk_offset(chunk_size: nat, index: nat) -> int {
    (chunk_size * index) as int
}

/// The chunk count is positive exactly for nonempty transfers, never exceeds
/// the size, and brackets the size between its last-but-one and last chunk
/// boundaries.
pub proof fn lemma_chunk_count_bounds(size: nat, chunk_size: nat)
    requires
        chunk_size > 0,
    ensures
        chunk_count_for(size, chunk_size) <= size,
        (chunk_count_for(size, chunk_size) == 0) <==> (size == 0),
        size > 0 ==> chunk_size * (chunk_count_for(size, chunk_size) - 1) < size,
        size <= chunk_size * chunk_count_for(size, chunk_size),
{
    let cs = chunk_size as int;
    let q = size as int / cs;
    let r = size as int % cs;
    let total = chunk_count_for(size, chunk_size) as int;
    lemma_fundamental_div_mod(size as int, cs);
    lemma_mod_division_less_than_divisor(size as int, cs);
    assert(size == cs * q + r);
    assert(0 <= r < cs);
    assert(q >= 0) by (nonlinear_arith)
        requires
            cs * q + r >= 0,
            cs >= 1,
            0 <= r < cs,
    ;
    if r == 0 {
        assert(total == q);
        assert(q <= cs * q) by (nonlinear_arith)
            requires
                cs >= 1,
                q >= 0,
        ;
        assert((cs * q == 0) <==> (q == 0)) by (nonlinear_arith)
            requires
                cs >= 1,
        ;
        if size > 0 {
            assert(cs * (q - 1) == cs * q - cs) by (nonlinear_arith);
        }
    } else {
        assert(total == q + 1);
        assert(q + 1 <= cs * q + r) by (nonlinear_arith)
            requires
                cs >= 1,
                q >= 0,
                r >= 1,
        ;
        assert(cs * (q + 1) == cs * q + cs) by (nonlinear_arith);
    }
}

/// Each chunk's byte range lies inside the destination, and each chunk is
/// nonempty and no longer than `chunk_size`.
pub proof fn lemma_chunk_len_at(size: nat, chunk_size: nat, index: nat)
    requires
        chunk_size > 0,
        index < chunk_count_for(size, chunk_size),
    ensures
        0 < chunk_len_at(size, chunk_size, index) <= chunk_size,
        chunk_offset(chunk_size, index) + chunk_len_at(size, chunk_size, index) <= size,
        0 <= chunk_offset(chunk_size, index),
        chunk_offset(chunk_size, index) < size,
{
    let cs = chunk_size as int;
    let total = chunk_count_for(size, chunk_size) as int;
    let i = index as int;
    lemma_chunk_count_bounds(size, chunk_size);
    assert(cs * (total - 1) < size);
    assert(cs * i >= 0) by (nonlinear_arith)
        requires
            cs >= 1,
            i >= 0,
    ;
    assert(cs * i <= cs * (total - 1)) by (nonlinear_arith)
        requires
            cs >= 1,
            0 <= i <= total - 1,
    ;
    if i + 1 == total {
        assert(chunk_len_at(size, chunk_size, index) == size - cs * (total - 1));
        assert(cs * total == cs * (total - 1) + cs) by (nonlinear_arith);
    } else {
        assert(cs * (i + 1) == cs * i + cs) by (nonlinear_arith);
        assert(cs * (i + 1) <= cs * (total - 1)) by (nonlinear_arith)
            requires
                cs >= 1,
                0 <= i + 1 <= total - 1,
        ;
    }
}

/// Each chunk starts exactly `chunk_size` bytes after the one before it.
pub proof fn lemma_chunk_offset_step(chunk_size: nat, index: nat)
    requires
        index >= 1,
    ensures
        chunk_offset(chunk_size, index) == chunk_offset(chunk_size, (index - 1) as nat)
            + chunk_size,
{
    let cs = chunk_size as int;
    let i = index as int;
    assert(cs * i == cs * (i - 1) + cs) by (nonlinear_arith);
}

/// Chunks at distinct indices occupy disjoint byte ranges: the lower-indexed
/// chunk ends at or before the higher-indexed one starts.
pub proof fn lemma_chunk_ranges_disjoint(size: nat, chunk_size: nat, i: nat, j: nat)
    requires
        chunk_size > 0,
        i < j,
        j < chunk_count_for(size, chunk_size),
    ensures
        chunk_offset(chunk_size, i) + chunk_len_at(size, chunk_size, i) <= chunk_offset(
            chunk_size,
            j,
        ),
{
    let cs = chunk_size as int;
    let total = chunk_count_for(size, chunk_size) as int;
    lemma_chunk_len_at(size, chunk_size, i);
    assert(i + 1 < total);
    assert(chunk_len_at(size, chunk_size, i) == cs);
    assert(cs * i + cs == cs * (i + 1)) by (nonlinear_arith);
    assert(cs * (i + 1) <= cs * j) by (nonlinear_arith)
        requires
            cs >= 1,
            0 <= i + 1 <= j,
    ;
}

} // verus!
