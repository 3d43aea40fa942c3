//! Cell-level model of a 128-bit board mask.
//!
//! A mask covers a grid of 16 columns and 8 rows; the cell with column `c`
//! and row `r` has index `k = c + 16 * r`, and occupies bit `127 - k` of the
//! word (index 0 is the most significant bit).  Everything the library proves
//! about bitboards is phrased over the predicate [`cell`]; the lemmas in this
//! module tie the word-level operations to that predicate once, by bit
//! blasting, so that the rest of the crate can reason purely in terms of
//! cells.

use vstd::prelude::*;

verus! {

/// Is the cell with index `k` set in the mask `b`?
pub open spec fn cell(b: u128, k: u128) -> bool {
    k < 128 && ((b << k) >> 127) == 1
}

/// Word-level subset: every cell of `a` is a cell of `b`.
pub open spec fn sub128(a: u128, b: u128) -> bool {
    a & !b == 0
}

/// One-cell shift towards the top of the grid (row r takes row r + 1).
pub open spec fn up(b: u128) -> u128 {
    b << 16
}

/// One-cell shift towards the bottom of the grid (row r takes row r - 1).
pub open spec fn down(b: u128) -> u128 {
    b >> 16
}

/// Mask of the leftmost column (column 0).
pub open spec fn left_col() -> u128 {
    0x8000_8000_8000_8000_8000_8000_8000_8000u128
}

/// Mask of the rightmost column (column 15).
pub open spec fn right_col() -> u128 {
    0x0001_0001_0001_0001_0001_0001_0001_0001u128
}

/// Mask of the top row (row 0).
pub open spec fn top_row() -> u128 {
    0xFFFF_0000_0000_0000_0000_0000_0000_0000u128
}

/// Mask of the bottom row (row 7).
pub open spec fn bottom_row() -> u128 {
    0x0000_0000_0000_0000_0000_0000_0000_FFFFu128
}

/// One-cell shift towards the left of the grid (column c takes column c + 1).
pub open spec fn left(b: u128) -> u128 {
    (b << 1) & !right_col()
}

/// One-cell shift towards the right of the grid (column c takes column c - 1).
pub open spec fn right(b: u128) -> u128 {
    (b >> 1) & !left_col()
}

/// The mask holding exactly the cell with index `k`.
pub open spec fn sing(k: u128) -> u128 {
    0x8000_0000_0000_0000_0000_0000_0000_0000u128 >> k
}

pub proof fn lemma_cell_or(a: u128, b: u128)
    ensures
        forall|k: u128| k < 128 ==> (#[trigger] cell(a | b, k) == (cell(a, k) || cell(b, k))),
{
    assert(forall|k: u128|
        k < 128 ==> (#[trigger] cell(a | b, k) == (cell(a, k) || cell(b, k)))) by (bit_vector);
}

pub proof fn lemma_cell_and(a: u128, b: u128)
    ensures
        forall|k: u128| k < 128 ==> (#[trigger] cell(a & b, k) == (cell(a, k) && cell(b, k))),
{
    assert(forall|k: u128|
        k < 128 ==> (#[trigger] cell(a & b, k) == (cell(a, k) && cell(b, k)))) by (bit_vector);
}

pub proof fn lemma_cell_xor(a: u128, b: u128)
    ensures
        forall|k: u128| k < 128 ==> (#[trigger] cell(a ^ b, k) == (cell(a, k) != cell(b, k))),
{
    assert(forall|k: u128|
        k < 128 ==> (#[trigger] cell(a ^ b, k) == (cell(a, k) != cell(b, k)))) by (bit_vector);
}

pub proof fn lemma_cell_not(a: u128)
    ensures
        forall|k: u128| k < 128 ==> (#[trigger] cell(!a, k) == !cell(a, k)),
{
    assert(forall|k: u128| k < 128 ==> (#[trigger] cell(!a, k) == !cell(a, k))) by (bit_vector);
}

/// The shift towards the top: cell (c, r) of the result is cell (c, r + 1)
/// of the argument, and the bottom row of the argument falls off.
pub proof fn lemma_cell_up(a: u128)
    ensures
        forall|k: u128| k < 128 ==> (#[trigger] cell(up(a), k) == (k + 16 < 128 && cell(a, (k + 16) as u128))),
{
    assert(forall|k: u128|
        k < 128 ==> (#[trigger] cell(a << 16, k) == (k + 16 < 128 && cell(a, (k + 16) as u128)))) by (bit_vector);
}

/// The shift towards the bottom: cell (c, r) of the result is cell (c, r - 1)
/// of the argument, and the top row of the argument falls off.
pub proof fn lemma_cell_down(a: u128)
    ensures
        forall|k: u128| k < 128 ==> (#[trigger] cell(down(a), k) == (k >= 16 && cell(a, (k - 16) as u128))),
{
    assert(forall|k: u128|
        k < 128 ==> (#[trigger] cell(a >> 16, k) == (k >= 16 && cell(a, (k - 16) as u128)))) by (bit_vector);
}

/// The shift towards the left: cell (c, r) of the result is cell (c + 1, r)
/// of the argument, and column 0 of the argument falls off.
pub proof fn lemma_cell_left(a: u128)
    ensures
        forall|k: u128| k < 128 ==> (#[trigger] cell(left(a), k) == (k % 16 < 15 && cell(a, (k + 1) as u128))),
{
    assert(forall|k: u128|
        k < 128 ==> (#[trigger] cell((a << 1) & !0x0001_0001_0001_0001_0001_0001_0001_0001u128, k)
            == (k % 16 < 15 && cell(a, (k + 1) as u128)))) by (bit_vector);
}

/// The shift towards the right: cell (c, r) of the result is cell (c - 1, r)
/// of the argument, and column 15 of the argument falls off.
pub proof fn lemma_cell_right(a: u128)
    ensures
        forall|k: u128| k < 128 ==> (#[trigger] cell(right(a), k) == (k % 16 > 0 && cell(a, (k - 1) as u128))),
{
    assert(forall|k: u128|
        k < 128 ==> (#[trigger] cell((a >> 1) & !0x8000_8000_8000_8000_8000_8000_8000_8000u128, k)
            == (k % 16 > 0 && cell(a, (k - 1) as u128)))) by (bit_vector);
}

pub proof fn lemma_cell_sing(p: u128)
    requires
        p < 128,
    ensures
        forall|k: u128| k < 128 ==> (#[trigger] cell(sing(p), k) == (k == p)),
{
    assert(forall|k: u128|
        k < 128 && p < 128 ==> (#[trigger] cell(0x8000_0000_0000_0000_0000_0000_0000_0000u128 >> p, k)
            == (k == p))) by (bit_vector);
}

pub proof fn lemma_cell_edges()
    ensures
        forall|k: u128| k < 128 ==> (#[trigger] cell(top_row(), k) == (k < 16)),
        forall|k: u128| k < 128 ==> (#[trigger] cell(bottom_row(), k) == (k >= 112)),
        forall|k: u128| k < 128 ==> (#[trigger] cell(left_col(), k) == (k % 16 == 0)),
        forall|k: u128| k < 128 ==> (#[trigger] cell(right_col(), k) == (k % 16 == 15)),
{
    assert(forall|k: u128|
        k < 128 ==> (#[trigger] cell(0xFFFF_0000_0000_0000_0000_0000_0000_0000u128, k) == (k < 16))) by (bit_vector);
    assert(forall|k: u128|
        k < 128 ==> (#[trigger] cell(0x0000_0000_0000_0000_0000_0000_0000_FFFFu128, k) == (k >= 112))) by (bit_vector);
    assert(forall|k: u128|
        k < 128 ==> (#[trigger] cell(0x8000_8000_8000_8000_8000_8000_8000_8000u128, k) == (k % 16 == 0))) by (bit_vector);
    assert(forall|k: u128|
        k < 128 ==> (#[trigger] cell(0x0001_0001_0001_0001_0001_0001_0001_0001u128, k) == (k % 16 == 15))) by (bit_vector);
}

/// If the first `n` cells of `x` are clear, the `n` highest bits of the word
/// are zero.  Stepping stone for [`lemma_empty`], by induction on `n`.
proof fn lemma_empty_below(x: u128, n: u128)
    requires
        n <= 128,
        forall|k: u128| k < n ==> !cell(x, k),
    ensures
        n > 0 ==> x >> ((128 - n) as u128) == 0,
    decreases n,
{
    if n == 1 {
        assert(!cell(x, 0));
        assert(!((x << 0) >> 127 == 1) ==> x >> 127 == 0) by (bit_vector);
    } else if n > 1 {
        lemma_empty_below(x, (n - 1) as u128);
        assert(!cell(x, (n - 1) as u128));
        let s: u128 = (129 - n) as u128;
        assert(x >> s == 0 && !((x << ((128 - s) as u128)) >> 127 == 1)
            ==> x >> ((s - 1) as u128) == 0) by (bit_vector)
            requires
                1 <= s && s <= 127,
        ;
    }
}

/// A mask is zero exactly when it has no set cell.
pub proof fn lemma_empty(a: u128)
    ensures
        (a == 0) <==> (forall|k: u128| k < 128 ==> !cell(a, k)),
{
    assert(forall|k: u128| k < 128 ==> !cell(0u128, k)) by (bit_vector);
    if forall|k: u128| k < 128 ==> !cell(a, k) {
        lemma_empty_below(a, 128);
        assert(a >> 0 == a) by (bit_vector);
    }
}

/// Two masks with the same cells are the same word.
pub proof fn lemma_cell_ext(a: u128, b: u128)
    requires
        forall|k: u128| k < 128 ==> (cell(a, k) == cell(b, k)),
    ensures
        a == b,
{
    lemma_cell_xor(a, b);
    assert(forall|k: u128| k < 128 ==> !cell(a ^ b, k));
    lemma_empty(a ^ b);
    assert(a ^ b == 0 ==> a == b) by (bit_vector);
}

/// Word-level subset agrees with cell-wise containment.
pub proof fn lemma_sub_cells(a: u128, b: u128)
    ensures
        sub128(a, b) <==> (forall|k: u128| k < 128 ==> (cell(a, k) ==> cell(b, k))),
{
    lemma_cell_and(a, !b);
    lemma_cell_not(b);
    lemma_empty(a & !b);
    if sub128(a, b) {
        assert forall|k: u128| k < 128 implies (cell(a, k) ==> cell(b, k)) by {
            assert(!cell(a & !b, k));
        }
    }
    if forall|k: u128| k < 128 ==> (cell(a, k) ==> cell(b, k)) {
        assert forall|k: u128| k < 128 implies !cell(a & !b, k) by {
            assert(cell(a, k) ==> cell(b, k));
        }
    }
}

/// The number of set cells with index below `n`.
pub open spec fn pcount_below(b: u128, n: nat) -> nat
    decreases n,
{
    if n == 0 {
        0
    } else {
        pcount_below(b, (n - 1) as nat) + if cell(b, (n - 1) as u128) { 1nat } else { 0nat }
    }
}

/// The number of set cells of a mask.
pub open spec fn pcount(b: u128) -> nat {
    pcount_below(b, 128)
}

pub proof fn lemma_pcount_below_le(b: u128, n: nat)
    ensures
        pcount_below(b, n) <= n,
    decreases n,
{
    if n > 0 {
        lemma_pcount_below_le(b, (n - 1) as nat);
    }
}

/// Cell-wise containment bounds the count, and a missing cell makes the
/// bound strict.
pub proof fn lemma_pcount_below_mono(a: u128, b: u128, n: nat)
    requires
        forall|k: u128| k < 128 ==> (cell(a, k) ==> cell(b, k)),
    ensures
        pcount_below(a, n) <= pcount_below(b, n),
        forall|w: u128| w < n && w < 128 && cell(b, w) && !cell(a, w)
            ==> pcount_below(a, n) < pcount_below(b, n),
    decreases n,
{
    if n > 0 {
        lemma_pcount_below_mono(a, b, (n - 1) as nat);
    }
}

/// A strict cell-wise subset has strictly fewer set cells.
pub proof fn lemma_pcount_strict(a: u128, b: u128)
    requires
        forall|k: u128| k < 128 ==> (cell(a, k) ==> cell(b, k)),
        a != b,
    ensures
        pcount(a) < pcount(b),
{
    lemma_empty(a);
    lemma_empty(b);
    if forall|k: u128| k < 128 ==> (cell(a, k) == cell(b, k)) {
        lemma_cell_ext(a, b);
    }
    let w = choose|w: u128| w < 128 && cell(b, w) && !cell(a, w);
    lemma_pcount_below_mono(a, b, 128);
    assert(w < 128 && cell(b, w) && !cell(a, w));
}

pub proof fn lemma_pcount_le(a: u128, b: u128)
    requires
        forall|k: u128| k < 128 ==> (cell(a, k) ==> cell(b, k)),
    ensures
        pcount(a) <= pcount(b),
{
    lemma_pcount_below_mono(a, b, 128);
}

/// The mask together with its four one-cell shifts: every cell of `b` and
/// every 4-neighbour of a cell of `b`.
pub open spec fn expand(b: u128) -> u128 {
    b | up(b) | down(b) | left(b) | right(b)
}

/// Are the cells with indices `j` and `k` 4-adjacent on the grid?
pub open spec fn adj(j: u128, k: u128) -> bool {
    j < 128 && k < 128 && ((j + 16 == k) || (k + 16 == j) || (j % 16 < 15 && j + 1 == k) || (
    k % 16 < 15 && k + 1 == j))
}

/// Cell description of [`expand`]: a cell of the expansion is a cell of `b`
/// or a 4-neighbour of one.
pub proof fn lemma_expand_cells(b: u128)
    ensures
        forall|k: u128|
            k < 128 ==> (#[trigger] cell(expand(b), k) == (cell(b, k) || exists|j: u128|
                adj(j, k) && #[trigger] cell(b, j))),
{
    lemma_cell_or(b, up(b));
    lemma_cell_or(b | up(b), down(b));
    lemma_cell_or(b | up(b) | down(b), left(b));
    lemma_cell_or(b | up(b) | down(b) | left(b), right(b));
    lemma_cell_up(b);
    lemma_cell_down(b);
    lemma_cell_left(b);
    lemma_cell_right(b);
    assert forall|k: u128| k < 128 implies (#[trigger] cell(expand(b), k) == (cell(b, k)
        || exists|j: u128| adj(j, k) && #[trigger] cell(b, j))) by {
        if cell(expand(b), k) && !cell(b, k) {
            if cell(up(b), k) {
                assert(adj((k + 16) as u128, k) && cell(b, (k + 16) as u128));
            } else if cell(down(b), k) {
                assert(adj((k - 16) as u128, k) && cell(b, (k - 16) as u128));
            } else if cell(left(b), k) {
                assert(adj((k + 1) as u128, k) && cell(b, (k + 1) as u128));
            } else if cell(right(b), k) {
                assert(adj((k - 1) as u128, k) && cell(b, (k - 1) as u128));
            }
        }
        if !cell(expand(b), k) {
            assert forall|j: u128| adj(j, k) implies !#[trigger] cell(b, j) by {
                if j + 16 == k {
                    assert(!cell(down(b), k));
                } else if k + 16 == j {
                    assert(!cell(up(b), k));
                } else if j % 16 < 15 && j + 1 == k {
                    assert(!cell(right(b), k));
                } else if k % 16 < 15 && k + 1 == j {
                    assert(!cell(left(b), k));
                }
            }
        }
    }
}

/// Expansion keeps every cell of the argument.
pub proof fn lemma_expand_contains(b: u128)
    ensures
        forall|k: u128| k < 128 ==> (#[trigger] cell(b, k) ==> cell(expand(b), k)),
{
    lemma_cell_or(b, up(b));
    lemma_cell_or(b | up(b), down(b));
    lemma_cell_or(b | up(b) | down(b), left(b));
    lemma_cell_or(b | up(b) | down(b) | left(b), right(b));
}

/// Expansion is monotone with respect to cell-wise containment.
pub proof fn lemma_expand_mono(a: u128, b: u128)
    requires
        forall|k: u128| k < 128 ==> (cell(a, k) ==> cell(b, k)),
    ensures
        forall|k: u128| k < 128 ==> (cell(expand(a), k) ==> cell(expand(b), k)),
{
    lemma_expand_cells(a);
    lemma_expand_cells(b);
    assert forall|k: u128| k < 128 && cell(expand(a), k) implies cell(expand(b), k) by {
        if !cell(a, k) {
            let j = choose|j: u128| adj(j, k) && cell(a, j);
            assert(adj(j, k) && cell(b, j));
        }
    }
}

/// One step of the flood-fill fixed-point iteration.
pub open spec fn ff_step(x: u128, mask: u128) -> u128 {
    expand(x) & mask
}

/// The least fixed point of [`ff_step`] above `x`, for `x` within `mask`.
pub open spec fn ff_from(x: u128, mask: u128) -> u128
    decreases 128 - pcount(x)
        via ff_from_decreases
{
    if !sub128(x, mask) {
        x
    } else if ff_step(x, mask) == x {
        x
    } else {
        ff_from(ff_step(x, mask), mask)
    }
}

/// Within the mask, one fill step keeps every cell it already had.
pub proof fn lemma_step_grows(x: u128, mask: u128)
    requires
        sub128(x, mask),
    ensures
        forall|k: u128| k < 128 ==> (cell(x, k) ==> cell(ff_step(x, mask), k)),
{
    lemma_expand_contains(x);
    lemma_sub_cells(x, mask);
    lemma_cell_and(expand(x), mask);
}

#[via_fn]
proof fn ff_from_decreases(x: u128, mask: u128) {
    if sub128(x, mask) && ff_step(x, mask) != x {
        lemma_step_grows(x, mask);
        lemma_pcount_strict(x, ff_step(x, mask));
        lemma_pcount_below_le(ff_step(x, mask), 128);
    }
}

/// Flood fill: the connected cells of `mask` reachable from `seed ∩ mask`.
pub open spec fn ff(seed: u128, mask: u128) -> u128 {
    ff_from(seed & mask, mask)
}

/// The fixed-point properties of `ff_from`: it contains its seed, stays
/// within the mask, and one more step adds nothing.
pub proof fn lemma_ff_from_props(x: u128, mask: u128)
    requires
        sub128(x, mask),
    ensures
        sub128(ff_from(x, mask), mask),
        forall|k: u128| k < 128 ==> (cell(x, k) ==> #[trigger] cell(ff_from(x, mask), k)),
        ff_step(ff_from(x, mask), mask) == ff_from(x, mask),
    decreases 128 - pcount(x),
{
    lemma_sub_cells(x, mask);
    if ff_step(x, mask) == x {
    } else {
        lemma_step_grows(x, mask);
        lemma_cell_and(expand(x), mask);
        lemma_sub_cells(ff_step(x, mask), mask);
        lemma_pcount_strict(x, ff_step(x, mask));
        lemma_pcount_below_le(ff_step(x, mask), 128);
        lemma_ff_from_props(ff_step(x, mask), mask);
    }
}

/// `ff_from` is the least set above `x` that is closed under the fill step:
/// any closed superset `s` of `x` within the mask contains it.
pub proof fn lemma_ff_from_least(x: u128, mask: u128, s: u128)
    requires
        sub128(x, mask),
        forall|k: u128| k < 128 ==> (cell(x, k) ==> cell(s, k)),
        forall|k: u128| k < 128 ==> (cell(ff_step(s, mask), k) ==> cell(s, k)),
    ensures
        forall|k: u128| k < 128 ==> (#[trigger] cell(ff_from(x, mask), k) ==> cell(s, k)),
    decreases 128 - pcount(x),
{
    lemma_sub_cells(x, mask);
    if ff_step(x, mask) == x {
        assert(ff_from(x, mask) == x);
    } else {
        assert(ff_from(x, mask) == ff_from(ff_step(x, mask), mask));
        lemma_step_grows(x, mask);
        lemma_cell_and(expand(x), mask);
        lemma_sub_cells(ff_step(x, mask), mask);
        lemma_pcount_strict(x, ff_step(x, mask));
        lemma_pcount_below_le(ff_step(x, mask), 128);
        // the step from x stays inside s because s is closed
        lemma_expand_mono(x, s);
        lemma_cell_and(expand(s), mask);
        assert forall|k: u128| k < 128 && cell(ff_step(x, mask), k) implies cell(s, k) by {
            assert(cell(expand(s) & mask, k));
        }
        lemma_ff_from_least(ff_step(x, mask), mask, s);
    }
}

/// Unfolding law used by the iterative implementation: filling from `x` and
/// from one step beyond `x` reach the same fixed point.
pub proof fn lemma_ff_from_unfold(x: u128, mask: u128)
    requires
        sub128(x, mask),
    ensures
        ff_from(x, mask) == ff_from(ff_step(x, mask), mask),
{
    if ff_step(x, mask) == x {
    }
}

/// The fixed-point properties of [`ff`]: the fill contains the seed cells
/// that lie on the mask, stays within the mask, and is stable.
pub proof fn lemma_ff_props(seed: u128, mask: u128)
    ensures
        sub128(ff(seed, mask), mask),
        forall|k: u128|
            k < 128 ==> ((cell(seed, k) && cell(mask, k)) ==> #[trigger] cell(ff(seed, mask), k)),
        ff_step(ff(seed, mask), mask) == ff(seed, mask),
{
    lemma_cell_and(seed, mask);
    lemma_sub_cells((seed & mask) as u128, mask);
    lemma_ff_from_props((seed & mask) as u128, mask);
}

/// Flood fill is idempotent: filling an already-filled set changes nothing.
pub proof fn lemma_ff_idempotent(seed: u128, mask: u128)
    ensures
        ff(ff(seed, mask), mask) == ff(seed, mask),
{
    lemma_cell_and(seed, mask);
    lemma_sub_cells(seed & mask, mask);
    lemma_ff_from_props(seed & mask, mask);
    let y = ff(seed, mask);
    lemma_sub_cells(y, mask);
    assert(y & mask == y) by {
        lemma_cell_and(y, mask);
        lemma_cell_ext(y & mask, y);
    }
}

/// The smallest index of a set cell (row-major order).
pub open spec fn first_cell(b: u128) -> u128 {
    choose|f: u128| cell(b, f) && (forall|i: u128| i < f ==> !cell(b, i))
}

proof fn lemma_has_min(b: u128, j: u128)
    requires
        cell(b, j),
    ensures
        exists|f: u128| #[trigger] cell(b, f) && (forall|i: u128| i < f ==> !cell(b, i)),
    decreases j,
{
    if forall|i: u128| i < j ==> !cell(b, i) {
        assert(cell(b, j) && (forall|i: u128| i < j ==> !cell(b, i)));
    } else {
        let i0 = choose|i: u128| i < j && cell(b, i);
        lemma_has_min(b, i0);
    }
}

/// For a non-zero mask, `first_cell` really is the least set cell.
pub proof fn lemma_first_cell(b: u128)
    requires
        b != 0,
    ensures
        first_cell(b) < 128,
        cell(b, first_cell(b)),
        forall|i: u128| i < first_cell(b) ==> !cell(b, i),
{
    lemma_empty(b);
    let j = choose|j: u128| j < 128 && cell(b, j);
    lemma_has_min(b, j);
}

/// The connected components of a mask, in order of their least cells: the
/// component of the least set cell, then the components of the rest.
pub open spec fn mask_groups(b: u128) -> Seq<u128>
    decreases pcount(b)
        via mask_groups_decreases
{
    if b == 0 {
        Seq::empty()
    } else {
        let g = ff(sing(first_cell(b)), b);
        seq![g] + mask_groups(b & !g)
    }
}

/// The first group of a non-zero mask is non-empty, lies within the mask,
/// and removing it strictly shrinks the mask.
pub proof fn lemma_first_group(b: u128)
    requires
        b != 0,
    ensures
        ({
            let g = ff(sing(first_cell(b)), b);
            &&& g != 0
            &&& sub128(g, b)
            &&& cell(g, first_cell(b))
            &&& forall|k: u128| k < 128 ==> (cell((b & !g) as u128, k) == (cell(b, k) && !cell(g, k)))
            &&& pcount((b & !g) as u128) < pcount(b)
        }),
{
    lemma_first_cell(b);
    let f = first_cell(b);
    lemma_cell_sing(f);
    lemma_cell_and(sing(f), b);
    lemma_sub_cells((sing(f) & b) as u128, b);
    lemma_ff_from_props((sing(f) & b) as u128, b);
    let g = ff(sing(f), b);
    assert(cell((sing(f) & b) as u128, f));
    assert(cell(g, f));
    lemma_empty(g);
    lemma_sub_cells(g, b);
    lemma_cell_and(b, !g);
    lemma_cell_not(g);
    lemma_pcount_strict((b & !g) as u128, b);
}

#[via_fn]
proof fn mask_groups_decreases(b: u128) {
    if b != 0 {
        lemma_first_group(b);
        lemma_pcount_below_le(b, 128);
    }
}

/// The union of a sequence of masks.
pub open spec fn seq_or(s: Seq<u128>) -> u128
    decreases s.len(),
{
    if s.len() == 0 {
        0
    } else {
        s[0] | seq_or(s.drop_first())
    }
}

/// The groups of a mask are non-empty, pairwise disjoint, their union is the
/// mask, and each is a flood-fill-closed connected piece of the mask.
pub proof fn lemma_groups_partition(b: u128)
    ensures
        seq_or(mask_groups(b)) == b,
        forall|i: int, j: int|
            0 <= i < j < mask_groups(b).len() ==> mask_groups(b)[i] & mask_groups(b)[j] == 0,
        forall|i: int|
            0 <= i < mask_groups(b).len() ==> mask_groups(b)[i] != 0 && sub128(
                #[trigger] mask_groups(b)[i],
                b,
            ),
    decreases pcount(b),
{
    if b == 0 {
        assert(mask_groups(b) =~= Seq::<u128>::empty());
    } else {
        lemma_first_group(b);
        let g = ff(sing(first_cell(b)), b);
        let rest = (b & !g) as u128;
        lemma_pcount_below_le(b, 128);
        lemma_groups_partition(rest);
        let s = mask_groups(b);
        assert(s[0] == g);
        assert(s.drop_first() =~= mask_groups(rest));
        // union: g | seq_or(groups(rest)) == g | rest == b
        lemma_cell_or(g, rest);
        lemma_sub_cells(g, b);
        assert(g | rest == b) by {
            lemma_cell_ext((g | rest) as u128, b);
        }
        // disjointness of g against every later group
        assert forall|j: int| 1 <= j < s.len() implies s[0] & #[trigger] s[j] == 0 by {
            assert(s[j] == mask_groups(rest)[j - 1]);
            lemma_sub_cells(s[j], rest);
            lemma_cell_and(g, s[j]);
            lemma_empty((g & s[j]) as u128);
            assert forall|k: u128| k < 128 implies !(#[trigger] cell((g & s[j]) as u128, k)) by {
                if cell(s[j], k) {
                    assert(cell(rest, k));
                }
            }
        }
        assert forall|i: int| 0 <= i < s.len() implies s[i] != 0 && sub128(#[trigger] s[i], b) by {
            if i >= 1 {
                assert(s[i] == mask_groups(rest)[i - 1]);
                lemma_sub_cells(s[i], rest);
                lemma_sub_cells(s[i], b);
            }
        }
    }
}

/// Unions with zero and associativity of union, for rearranging unions of
/// opaque mask values.
pub proof fn lemma_or_zero(x: u128)
    ensures
        0u128 | x == x,
        x | 0u128 == x,
{
    assert(0u128 | x == x && x | 0u128 == x) by (bit_vector);
}

pub proof fn lemma_or_assoc(a: u128, b: u128, c: u128)
    ensures
        (a | b) | c == a | (b | c),
{
    assert((a | b) | c == a | (b | c)) by (bit_vector);
}

/// The set cells of a mask that have no set 4-neighbour.
pub open spec fn singletons_of(b: u128) -> u128 {
    b & !up(b) & !down(b) & !left(b) & !right(b)
}

/// The interior of a mask: the cells all four of whose neighbours (counting
/// off-grid neighbours as present) lie on the mask.
pub open spec fn interior_of(b: u128) -> u128 {
    b & (up(b) | bottom_row()) & (down(b) | top_row()) & (left(b) | right_col()) & (right(b)
        | left_col())
}

/// The mask of the cells with index below `n` that satisfy `f`.
pub open spec fn mask_of_below(f: spec_fn(u128) -> bool, n: nat) -> u128
    decreases n,
{
    if n == 0 {
        0
    } else {
        mask_of_below(f, (n - 1) as nat) | (if f((n - 1) as u128) {
            sing((n - 1) as u128)
        } else {
            0
        })
    }
}

/// The mask of the cells that satisfy `f`.
pub open spec fn mask_of(f: spec_fn(u128) -> bool) -> u128 {
    mask_of_below(f, 128)
}

proof fn lemma_mask_of_below(f: spec_fn(u128) -> bool, n: nat)
    requires
        n <= 128,
    ensures
        forall|k: u128| k < 128 ==> (#[trigger] cell(mask_of_below(f, n), k) == (k < n && f(k))),
    decreases n,
{
    lemma_empty(0);
    if n > 0 {
        lemma_mask_of_below(f, (n - 1) as nat);
        let prev = mask_of_below(f, (n - 1) as nat);
        let head = if f((n - 1) as u128) {
            sing((n - 1) as u128)
        } else {
            0u128
        };
        lemma_cell_or(prev, head);
        lemma_cell_sing((n - 1) as u128);
    }
}

/// The defining property of [`mask_of`]: exactly the cells satisfying `f`.
pub proof fn lemma_mask_of(f: spec_fn(u128) -> bool)
    ensures
        forall|k: u128| k < 128 ==> (#[trigger] cell(mask_of(f), k) == f(k)),
{
    lemma_mask_of_below(f, 128);
}

/// A cell of the mask that is a neighbour of (or equal to) a filled cell is
/// itself filled.
pub proof fn lemma_ff_absorbs(seed: u128, mask: u128, c: u128, s: u128)
    requires
        cell(ff(seed, mask), c),
        cell(mask, s),
        s == c || adj(c, s) || adj(s, c),
    ensures
        cell(ff(seed, mask), s),
{
    lemma_ff_props(seed, mask);
    let fill = ff(seed, mask);
    lemma_expand_cells(fill);
    lemma_cell_and(expand(fill), mask);
    if s != c {
        if adj(c, s) {
            assert(cell(expand(fill), s)) by {
                assert(adj(c, s) && cell(fill, c));
            }
        } else {
            assert(adj(c, s)) by {
                assert(adj(s, c));
            }
            assert(cell(expand(fill), s)) by {
                assert(adj(c, s) && cell(fill, c));
            }
        }
        assert(cell((expand(fill) & mask) as u128, s));
        assert(cell(ff_step(fill, mask), s));
    }
}

/// The fill from a cell of a fill stays within it: reachability composes.
pub proof fn lemma_ff_trans(x: u128, seed: u128, mask: u128)
    requires
        x < 128,
        cell(ff(seed, mask), x),
    ensures
        forall|k: u128| k < 128 ==> (#[trigger] cell(ff(sing(x), mask), k) ==> cell(ff(seed, mask), k)),
{
    lemma_ff_props(seed, mask);
    let fill = ff(seed, mask);
    lemma_sub_cells(fill, mask);
    lemma_cell_sing(x);
    lemma_cell_and(sing(x), mask);
    lemma_sub_cells((sing(x) & mask) as u128, mask);
    assert forall|k: u128| k < 128 && cell((sing(x) & mask) as u128, k) implies cell(fill, k) by {
        assert(k == x);
    }
    lemma_cell_and(expand(fill), mask);
    assert forall|k: u128| k < 128 && cell(ff_step(fill, mask), k) implies cell(fill, k) by {}
    lemma_ff_from_least((sing(x) & mask) as u128, mask, fill);
}

/// Reachability within a mask is symmetric: if `b` is in the fill from `a`,
/// then `a` is in the fill from `b`.
pub proof fn lemma_ff_sym(a: u128, b: u128, mask: u128)
    requires
        a < 128,
        b < 128,
        cell(ff(sing(a), mask), b),
    ensures
        cell(ff(sing(b), mask), a),
{
    lemma_cell_sing(a);
    lemma_cell_and(sing(a), mask);
    lemma_sub_cells((sing(a) & mask) as u128, mask);
    lemma_ff_props(sing(a), mask);
    lemma_sub_cells(ff(sing(a), mask), mask);
    // the seed cell lies on the mask, else the fill is empty
    assert(cell(mask, a)) by {
        if !cell(mask, a) {
            lemma_empty((sing(a) & mask) as u128);
            assert((sing(a) & mask) as u128 == 0) by {
                assert(forall|k: u128| k < 128 ==> !(#[trigger] cell((sing(a) & mask) as u128, k)));
            }
            lemma_shifts_of_zero();
            assert(0u128 & mask == 0) by (bit_vector);
            assert(ff_step(0, mask) == 0);
            assert(ff(sing(a), mask) == 0);
            lemma_empty(0);
        }
    }
    // the set of cells whose fill reaches back to `a`
    let f = |x: u128| cell(mask, x) && cell(ff(sing(x), mask), a);
    let s = mask_of(f);
    lemma_mask_of(f);
    // `a` itself is in it
    assert(cell(ff(sing(a), mask), a)) by {
        assert(cell((sing(a) & mask) as u128, a));
    }
    assert(cell(s, a));
    // it is closed under one fill step
    lemma_expand_cells(s);
    lemma_cell_and(expand(s), mask);
    assert forall|k: u128| k < 128 && cell(ff_step(s, mask), k) implies cell(s, k) by {
        if !cell(s, k) {
            assert(cell(expand(s), k) && cell(mask, k));
            assert(!f(k));
            let j = choose|j: u128| adj(j, k) && cell(s, j);
            assert(cell(mask, j) && cell(ff(sing(j), mask), a));
            // j is one step from k, so j lies in the fill from k
            lemma_cell_sing(k);
            lemma_cell_and(sing(k), mask);
            lemma_ff_props(sing(k), mask);
            assert(cell(ff(sing(k), mask), k)) by {
                assert(cell((sing(k) & mask) as u128, k));
            }
            lemma_ff_absorbs(sing(k), mask, k, j);
            lemma_ff_trans(j, sing(k), mask);
            assert(cell(ff(sing(j), mask), a) ==> cell(ff(sing(k), mask), a));
            assert(f(k));
        }
    }
    assert forall|k: u128| k < 128 && cell((sing(a) & mask) as u128, k) implies cell(s, k) by {
        assert(k == a);
    }
    lemma_ff_from_least((sing(a) & mask) as u128, mask, s);
    assert(cell(s, b));
}

/// All four shifts of the empty mask are empty.
pub proof fn lemma_shifts_of_zero()
    ensures
        up(0) == 0,
        down(0) == 0,
        left(0) == 0,
        right(0) == 0,
        expand(0) == 0,
{
    assert((0u128 << 16u128) == 0 && (0u128 >> 16u128) == 0 && ((0u128 << 1u128)
        & !0x0001_0001_0001_0001_0001_0001_0001_0001u128) == 0 && ((0u128 >> 1u128)
        & !0x8000_8000_8000_8000_8000_8000_8000_8000u128) == 0 && (0u128 | 0u128 | 0u128 | 0u128
        | 0u128) == 0) by (bit_vector);
}

/// Filling within a larger mask reaches at least as much.
pub proof fn lemma_ff_mask_mono(seed: u128, m1: u128, m2: u128)
    requires
        forall|k: u128| k < 128 ==> (cell(m1, k) ==> cell(m2, k)),
    ensures
        forall|k: u128| k < 128 ==> (#[trigger] cell(ff(seed, m1), k) ==> cell(ff(seed, m2), k)),
{
    let big = ff(seed, m2);
    lemma_ff_props(seed, m2);
    lemma_cell_and(seed, m1);
    lemma_cell_and(seed, m2);
    lemma_sub_cells((seed & m1) as u128, m1);
    lemma_cell_and(expand(big), m1);
    lemma_cell_and(expand(big), m2);
    assert forall|k: u128| k < 128 && cell((seed & m1) as u128, k) implies cell(big, k) by {
        assert(cell((seed & m2) as u128, k));
    }
    assert forall|k: u128| k < 128 && cell(ff_step(big, m1), k) implies cell(big, k) by {
        assert(cell(ff_step(big, m2), k));
    }
    lemma_ff_from_least((seed & m1) as u128, m1, big);
}

/// A fill is self-supporting: filling from its seed cell within the fill
/// itself recovers all of it.
pub proof fn lemma_component_self(p: u128, mask: u128)
    requires
        p < 128,
        cell(mask, p),
    ensures
        ff(sing(p), ff(sing(p), mask)) == ff(sing(p), mask),
{
    let g = ff(sing(p), mask);
    let inner = ff(sing(p), g);
    lemma_ff_props(sing(p), mask);
    lemma_ff_props(sing(p), g);
    lemma_sub_cells(g, mask);
    lemma_sub_cells(inner, g);
    lemma_cell_sing(p);
    lemma_cell_and(sing(p), mask);
    lemma_cell_and(sing(p), g);
    assert(cell(g, p)) by {
        assert(cell((sing(p) & mask) as u128, p));
    }
    assert(cell(inner, p)) by {
        assert(cell((sing(p) & g) as u128, p));
    }
    let f = |x: u128| cell(inner, x) || (cell(mask, x) && !cell(g, x));
    let s = mask_of(f);
    lemma_mask_of(f);
    lemma_expand_cells(s);
    lemma_cell_and(expand(s), mask);
    assert forall|c: u128| c < 128 && cell(ff_step(s, mask), c) implies cell(s, c) by {
        if !cell(s, c) {
            assert(cell(g, c));
            let j = choose|j: u128| adj(j, c) && cell(s, j);
            if cell(inner, j) {
                lemma_ff_absorbs(sing(p), g, j, c);
            } else {
                assert(cell(mask, j) && !cell(g, j));
                lemma_ff_absorbs(sing(p), mask, c, j);
            }
        }
    }
    assert forall|k: u128| k < 128 && cell((sing(p) & mask) as u128, k) implies cell(s, k) by {
        assert(k == p);
    }
    lemma_ff_from_least((sing(p) & mask) as u128, mask, s);
    assert forall|k: u128| k < 128 implies (cell(inner, k) == cell(g, k)) by {
        if cell(g, k) {
            assert(cell(s, k));
        }
    }
    lemma_cell_ext(inner, g);
}

/// A fill is exactly one connected group.
pub proof fn lemma_single_group(p: u128, mask: u128)
    requires
        p < 128,
        cell(mask, p),
    ensures
        mask_groups(ff(sing(p), mask)) == seq![ff(sing(p), mask)],
        ff(sing(p), mask) != 0,
{
    let g = ff(sing(p), mask);
    lemma_ff_props(sing(p), mask);
    lemma_cell_sing(p);
    lemma_cell_and(sing(p), mask);
    assert(cell(g, p)) by {
        assert(cell((sing(p) & mask) as u128, p));
    }
    lemma_empty(g);
    lemma_first_cell(g);
    let q = first_cell(g);
    lemma_sub_cells(g, mask);
    // the component looks the same from any of its cells
    lemma_ff_sym(p, q, mask);
    lemma_ff_trans(q, sing(p), mask);
    lemma_ff_trans(p, sing(q), mask);
    lemma_ff_props(sing(q), mask);
    assert forall|k: u128| k < 128 implies (cell(ff(sing(q), mask), k) == cell(g, k)) by {}
    lemma_cell_ext(ff(sing(q), mask), g);
    lemma_component_self(q, mask);
    assert(ff(sing(q), g) == g);
    // removing the one group leaves nothing
    lemma_cell_not(g);
    lemma_cell_and(g, !g);
    lemma_empty((g & !g) as u128);
    assert((g & !g) as u128 == 0) by {
        assert(forall|k: u128| k < 128 ==> !(#[trigger] cell((g & !g) as u128, k)));
    }
    assert(mask_groups((g & !g) as u128) =~= Seq::<u128>::empty());
    assert(mask_groups(g) =~= seq![g]);
}

/// Is `x` closed under one expansion step within `m`: no cell of `m`
/// adjacent to `x` lies outside `x`?
pub open spec fn closed_in(x: u128, m: u128) -> bool {
    forall|k: u128| k < 128 ==> (cell(expand(x), k) && cell(m, k) ==> cell(x, k))
}

/// A filled cell is reachable from a single seed cell.
pub proof fn lemma_ff_seed_split(seed: u128, mask: u128, k: u128)
    requires
        k < 128,
        cell(ff(seed, mask), k),
    ensures
        exists|p: u128|
            p < 128 && cell(seed, p) && cell(mask, p) && #[trigger] cell(ff(sing(p), mask), k),
{
    let f = |x: u128|
        exists|p: u128|
            p < 128 && cell(seed, p) && cell(mask, p) && #[trigger] cell(ff(sing(p), mask), x);
    let s = mask_of(f);
    lemma_mask_of(f);
    lemma_cell_and(seed, mask);
    lemma_sub_cells((seed & mask) as u128, mask);
    assert forall|x: u128| x < 128 && cell((seed & mask) as u128, x) implies cell(s, x) by {
        lemma_cell_sing(x);
        lemma_cell_and(sing(x), mask);
        lemma_ff_props(sing(x), mask);
        assert(cell(ff(sing(x), mask), x)) by {
            assert(cell((sing(x) & mask) as u128, x));
        }
        assert(f(x));
    }
    lemma_expand_cells(s);
    lemma_cell_and(expand(s), mask);
    assert forall|c: u128| c < 128 && cell(ff_step(s, mask), c) implies cell(s, c) by {
        if !cell(s, c) {
            let j = choose|j: u128| adj(j, c) && cell(s, j);
            assert(f(j));
            let p = choose|p: u128|
                p < 128 && cell(seed, p) && cell(mask, p) && cell(ff(sing(p), mask), j);
            lemma_ff_absorbs(sing(p), mask, j, c);
            assert(f(c));
        }
    }
    lemma_ff_from_least((seed & mask) as u128, mask, s);
    assert(cell(s, k));
}

/// Adjacency is symmetric.
pub proof fn lemma_adj_sym(j: u128, k: u128)
    ensures
        adj(j, k) == adj(k, j),
{
}

/// Every group of a mask is closed within the whole mask: distinct groups
/// are never adjacent.
#[verifier::rlimit(100)]
pub proof fn lemma_groups_closed(m: u128)
    ensures
        forall|i: int|
            0 <= i < mask_groups(m).len() ==> closed_in(#[trigger] mask_groups(m)[i], m),
    decreases pcount(m),
{
    if m != 0 {
        lemma_first_group(m);
        lemma_pcount_below_le(m, 128);
        let g = ff(sing(first_cell(m)), m);
        let rest = (m & !g) as u128;
        lemma_groups_closed(rest);
        lemma_ff_props(sing(first_cell(m)), m);
        lemma_cell_and(expand(g), m);
        let s = mask_groups(m);
        assert(s[0] == g);
        assert(s.drop_first() =~= mask_groups(rest));
        assert(closed_in(g, m)) by {
            assert forall|k: u128| k < 128 && cell(expand(g), k) && cell(m, k) implies cell(
                g,
                k,
            ) by {
                assert(cell(ff_step(g, m), k));
            }
        }
        assert forall|i: int|
            0 <= i < s.len() implies closed_in(#[trigger] s[i], m) by {
            if i >= 1 {
                let e = s[i];
                assert(e == mask_groups(rest)[i - 1]);
                assert(closed_in(e, rest));
                lemma_groups_partition(rest);
                lemma_sub_cells(e, rest);
                lemma_expand_cells(e);
                lemma_expand_cells(g);
                assert forall|k: u128| k < 128 && cell(expand(e), k) && cell(m, k) implies cell(
                    e,
                    k,
                ) by {
                    if !cell(e, k) {
                        let c = choose|c: u128| adj(c, k) && cell(e, c);
                        if cell(g, k) {
                            // a cell of the first group adjacent to a later
                            // one would merge them
                            assert(cell(expand(g), c)) by {
                                lemma_adj_sym(c, k);
                                assert(adj(k, c) && cell(g, k));
                            }
                            assert(cell(rest, c));
                            assert(cell(ff_step(g, m), c));
                        } else {
                            assert(cell(rest, k));
                        }
                    }
                }
            }
        }
    }
}

/// Every group of a mask is its own single connected component: filling
/// from its least cell within the group recovers it.
pub proof fn lemma_groups_self(m: u128)
    ensures
        forall|i: int|
            0 <= i < mask_groups(m).len() ==> {
                let e = #[trigger] mask_groups(m)[i];
                e != 0 && e == ff(sing(first_cell(e)), e)
            },
    decreases pcount(m),
{
    if m != 0 {
        lemma_first_group(m);
        lemma_pcount_below_le(m, 128);
        lemma_first_cell(m);
        let fc = first_cell(m);
        let g = ff(sing(fc), m);
        let rest = (m & !g) as u128;
        lemma_groups_self(rest);
        let s = mask_groups(m);
        assert(s[0] == g);
        assert(s.drop_first() =~= mask_groups(rest));
        lemma_ff_props(sing(fc), m);
        lemma_cell_sing(fc);
        lemma_cell_and(sing(fc), m);
        assert(cell(g, fc)) by {
            assert(cell((sing(fc) & m) as u128, fc));
        }
        lemma_empty(g);
        lemma_sub_cells(g, m);
        assert(first_cell(g) == fc) by {
            lemma_first_cell(g);
            let f2 = first_cell(g);
            if f2 < fc {
                assert(!cell(m, f2));
            }
            if f2 > fc {
                assert(!cell(g, fc));
            }
        }
        lemma_component_self(fc, m);
        assert forall|i: int|
            0 <= i < s.len() implies {
            let e = #[trigger] s[i];
            e != 0 && e == ff(sing(first_cell(e)), e)
        } by {
            if i >= 1 {
                assert(s[i] == mask_groups(rest)[i - 1]);
            }
        }
    }
}

} // verus!
