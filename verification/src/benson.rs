//! Benson's test for unconditional life.
//!
//! A block of stones is unconditionally alive when it belongs to the
//! greatest family of blocks that each border at least two *healthy* small
//! enclosed regions — regions all of whose empty cells touch the block.
//! Such stones can never be captured, however the opponent plays, even if
//! the defender always passes.  The computation here removes blocks with
//! fewer than two healthy regions, prunes the regions that bordered only
//! removed blocks, and repeats until nothing changes; the spec functions
//! below state that iteration exactly, and the executable code is proved to
//! compute it.

use vstd::prelude::*;

use crate::bit_board::BitBoard;
use crate::bits;
use crate::bits::{cell, ff, first_cell, mask_groups, pcount, seq_or, sing, sub128};
use crate::board::{GoBoard, GoPlayer};

verus! {

/// The small `x`-enclosed candidate regions: the non-`x` cells, minus every
/// region with an empty cell in its interior (such a region is too open for
/// its empty cells to be all adjacent to one block).
pub open spec fn spec_small_enclosed(b: GoBoard, x: GoPlayer) -> u128 {
    let regions = !b.stones_mask(x);
    let regions_with_empty_interiors = ff(
        bits::interior_of(regions) & b.empty_mask(),
        regions,
    );
    regions & !regions_with_empty_interiors
}

/// Has `block` at least two distinct healthy regions within `regions`?  A
/// region is healthy for the block when every empty cell of it touches the
/// block; the two-distinct test removes the connected region of the least
/// healthy cell and asks whether anything remains.
pub open spec fn healthy_two(b: GoBoard, block: u128, regions: u128) -> bool {
    let empties = regions & b.empty_mask();
    let unhealthy = ff(empties & !(bits::expand(block) & !block), regions);
    let healthy = regions & !unhealthy;
    healthy != 0 && (healthy & !ff(sing(first_cell(healthy)), healthy)) != 0
}

/// The union of the listed blocks that pass the two-healthy-regions test.
pub open spec fn keep_healthy(b: GoBoard, gs: Seq<u128>, regions: u128) -> u128
    decreases gs.len(),
{
    if gs.len() == 0 {
        0
    } else {
        (if healthy_two(b, gs[0], regions) {
            gs[0]
        } else {
            0
        }) | keep_healthy(b, gs.drop_first(), regions)
    }
}

/// One pass of Benson's pruning: the blocks of `blocks` that keep at least
/// two healthy regions.
pub open spec fn benson_pass(b: GoBoard, blocks: u128, regions: u128) -> u128 {
    keep_healthy(b, mask_groups(blocks), regions)
}

/// What is kept is a union of whole blocks, hence contained in them.
pub proof fn lemma_keep_healthy_sub(b: GoBoard, gs: Seq<u128>, regions: u128)
    ensures
        forall|k: u128|
            k < 128 ==> (#[trigger] cell(keep_healthy(b, gs, regions), k) ==> cell(
                seq_or(gs),
                k,
            )),
    decreases gs.len(),
{
    if gs.len() != 0 {
        lemma_keep_healthy_sub(b, gs.drop_first(), regions);
        let head = if healthy_two(b, gs[0], regions) {
            gs[0]
        } else {
            0u128
        };
        bits::lemma_cell_or(head, keep_healthy(b, gs.drop_first(), regions));
        bits::lemma_cell_or(gs[0], seq_or(gs.drop_first()));
        bits::lemma_empty(0);
        assert forall|k: u128|
            k < 128 && #[trigger] cell(keep_healthy(b, gs, regions), k) implies cell(
            seq_or(gs),
            k,
        ) by {
            if cell(head, k) {
                assert(cell(gs[0], k));
            } else {
                assert(cell(keep_healthy(b, gs.drop_first(), regions), k));
            }
        }
    }
}

/// A pass keeps a subset of the blocks it was given.
pub proof fn lemma_pass_sub(b: GoBoard, blocks: u128, regions: u128)
    ensures
        forall|k: u128|
            k < 128 ==> (#[trigger] cell(benson_pass(b, blocks, regions), k) ==> cell(blocks, k)),
{
    lemma_keep_healthy_sub(b, mask_groups(blocks), regions);
    bits::lemma_groups_partition(blocks);
}

/// The fixed point of Benson's pruning: repeat the pass, after each
/// shrinking pass removing the regions that are only reachable from removed
/// blocks, until a pass removes nothing.
pub open spec fn benson_fix(b: GoBoard, blocks: u128, regions: u128) -> u128
    decreases pcount(blocks)
        via benson_fix_decreases
{
    let kept = benson_pass(b, blocks, regions);
    if kept == blocks {
        blocks
    } else {
        let removed = blocks & !kept;
        let regions2 = regions & !ff(bits::expand(removed) & regions, regions);
        benson_fix(b, kept, regions2)
    }
}

#[via_fn]
proof fn benson_fix_decreases(b: GoBoard, blocks: u128, regions: u128) {
    let kept = benson_pass(b, blocks, regions);
    if kept != blocks {
        lemma_pass_sub(b, blocks, regions);
        bits::lemma_pcount_strict(kept, blocks);
        bits::lemma_pcount_below_le(blocks, 128);
    }
}

/// The unconditionally alive stones of `player` on `board`.
pub open spec fn spec_benson(board: GoBoard, player: GoPlayer) -> u128 {
    benson_fix(board, board.stones_mask(player), spec_small_enclosed(board, player))
}

/// The fixed point keeps a subset of the blocks it starts from.
pub proof fn lemma_benson_fix_sub(b: GoBoard, blocks: u128, regions: u128)
    ensures
        forall|k: u128|
            k < 128 ==> (#[trigger] cell(benson_fix(b, blocks, regions), k) ==> cell(blocks, k)),
    decreases pcount(blocks),
{
    let kept = benson_pass(b, blocks, regions);
    if kept == blocks {
    } else {
        lemma_pass_sub(b, blocks, regions);
        bits::lemma_pcount_strict(kept, blocks);
        bits::lemma_pcount_below_le(blocks, 128);
        let removed = blocks & !kept;
        let regions2 = regions & !ff(bits::expand(removed) & regions, regions);
        lemma_benson_fix_sub(b, kept, regions2);
        assert(benson_fix(b, blocks, regions) == benson_fix(b, kept, regions2));
        assert forall|k: u128|
            k < 128 && #[trigger] cell(benson_fix(b, blocks, regions), k) implies cell(
            blocks,
            k,
        ) by {
            assert(cell(kept, k));
        }
    }
}

/// Both directions of membership in a healthy-filtered union: a kept cell
/// lies in a healthy listed block, and every healthy listed block is kept
/// whole.
pub proof fn lemma_keep_healthy_member(b: GoBoard, gs: Seq<u128>, regions: u128)
    ensures
        forall|k: u128|
            k < 128 ==> (#[trigger] cell(keep_healthy(b, gs, regions), k) <==> exists|i: int|
                0 <= i < gs.len() && healthy_two(b, #[trigger] gs[i], regions) && cell(gs[i], k)),
    decreases gs.len(),
{
    bits::lemma_empty(0);
    if gs.len() > 0 {
        lemma_keep_healthy_member(b, gs.drop_first(), regions);
        let head = if healthy_two(b, gs[0], regions) {
            gs[0]
        } else {
            0u128
        };
        let tail = keep_healthy(b, gs.drop_first(), regions);
        bits::lemma_cell_or(head, tail);
        assert forall|k: u128|
            k < 128 implies (#[trigger] cell(keep_healthy(b, gs, regions), k) <==> exists|i: int|
            0 <= i < gs.len() && healthy_two(b, #[trigger] gs[i], regions) && cell(gs[i], k)) by {
            if cell(keep_healthy(b, gs, regions), k) {
                if cell(head, k) {
                    assert(healthy_two(b, gs[0], regions) && cell(gs[0], k));
                } else {
                    let i = choose|i: int|
                        0 <= i < gs.drop_first().len() && healthy_two(
                            b,
                            gs.drop_first()[i],
                            regions,
                        ) && cell(gs.drop_first()[i], k);
                    assert(gs[i + 1] == gs.drop_first()[i]);
                    assert(healthy_two(b, gs[i + 1], regions) && cell(gs[i + 1], k));
                }
            }
            if exists|i: int|
                0 <= i < gs.len() && healthy_two(b, #[trigger] gs[i], regions) && cell(gs[i], k) {
                let i = choose|i: int|
                    0 <= i < gs.len() && healthy_two(b, #[trigger] gs[i], regions) && cell(
                        gs[i],
                        k,
                    );
                if i == 0 {
                    assert(cell(head, k));
                } else {
                    assert(gs.drop_first()[i - 1] == gs[i]);
                    assert(cell(tail, k));
                }
            }
        }
    }
}

/// The complement of a fill within its base is closed within the base: a
/// base cell adjacent to the complement lies in the complement.
pub proof fn lemma_complement_of_fill_closed(seed: u128, base: u128)
    ensures
        forall|k: u128|
            k < 128 ==> (cell(bits::expand((base & !ff(seed, base)) as u128), k) && cell(base, k)
                ==> #[trigger] cell((base & !ff(seed, base)) as u128, k)),
{
    let fill = ff(seed, base);
    let comp = (base & !fill) as u128;
    bits::lemma_ff_props(seed, base);
    bits::lemma_cell_not(fill);
    bits::lemma_cell_and(base, !fill);
    bits::lemma_expand_cells(comp);
    bits::lemma_expand_cells(fill);
    bits::lemma_cell_and(bits::expand(fill), base);
    assert forall|k: u128|
        k < 128 && cell(bits::expand(comp), k) && cell(base, k) implies #[trigger] cell(
        comp,
        k,
    ) by {
        if !cell(comp, k) {
            assert(cell(fill, k));
            let c = choose|c: u128| bits::adj(c, k) && cell(comp, c);
            assert(cell(bits::expand(fill), c)) by {
                bits::lemma_adj_sym(c, k);
                assert(bits::adj(k, c) && cell(fill, k));
            }
            assert(cell(bits::ff_step(fill, base), c));
        }
    }
}

/// A self-justifying pruning state: the blocks are whole groups of the
/// player's stones, the regions are unions of whole components of the
/// stone-free space, and one more pruning pass removes nothing — every
/// block keeps at least two healthy regions.
pub open spec fn benson_stable_for(
    b: GoBoard,
    player: GoPlayer,
    blocks: u128,
    regions: u128,
) -> bool {
    &&& benson_pass(b, blocks, regions) == blocks
    &&& forall|k: u128|
        k < 128 ==> (#[trigger] cell(blocks, k) ==> cell(b.stones_mask(player), k))
    &&& forall|k: u128|
        k < 128 ==> (#[trigger] cell(regions, k) ==> !cell(b.stones_mask(player), k))
    &&& bits::closed_in(blocks, b.stones_mask(player))
    &&& forall|k: u128|
        k < 128 ==> (cell(bits::expand(regions), k) && !cell(b.stones_mask(player), k)
            ==> #[trigger] cell(regions, k))
}

/// The fixed point of Benson's pruning reaches a self-justifying state.
proof fn lemma_benson_fix_stable(b: GoBoard, player: GoPlayer, blocks: u128, regions: u128)
    requires
        forall|k: u128|
            k < 128 ==> (#[trigger] cell(blocks, k) ==> cell(b.stones_mask(player), k)),
        forall|k: u128|
            k < 128 ==> (#[trigger] cell(regions, k) ==> !cell(b.stones_mask(player), k)),
        bits::closed_in(blocks, b.stones_mask(player)),
        forall|k: u128|
            k < 128 ==> (cell(bits::expand(regions), k) && !cell(b.stones_mask(player), k)
                ==> #[trigger] cell(regions, k)),
    ensures
        exists|rf: u128|
            benson_stable_for(b, player, benson_fix(b, blocks, regions), #[trigger] (rf | 0)),
    decreases pcount(blocks),
{
    let stones = b.stones_mask(player);
    let kept = benson_pass(b, blocks, regions);
    bits::lemma_or_zero(regions);
    if kept == blocks {
        assert(benson_stable_for(b, player, benson_fix(b, blocks, regions), (regions | 0) as u128));
    } else {
        lemma_pass_sub(b, blocks, regions);
        bits::lemma_pcount_strict(kept, blocks);
        bits::lemma_pcount_below_le(blocks, 128);
        let removed = blocks & !kept;
        let regions2 = (regions & !ff(bits::expand(removed) & regions, regions)) as u128;
        // the kept blocks stay closed within the stones
        bits::lemma_groups_closed(blocks);
        bits::lemma_groups_partition(blocks);
        lemma_keep_healthy_member(b, mask_groups(blocks), regions);
        bits::lemma_expand_cells(kept);
        bits::lemma_expand_cells(blocks);
        assert(bits::closed_in(kept, stones)) by {
            assert forall|k: u128|
                k < 128 && cell(bits::expand(kept), k) && cell(stones, k) implies cell(
                kept,
                k,
            ) by {
                if !cell(kept, k) {
                    let c = choose|c: u128| bits::adj(c, k) && cell(kept, c);
                    let i = choose|i: int|
                        0 <= i < mask_groups(blocks).len() && healthy_two(
                            b,
                            mask_groups(blocks)[i],
                            regions,
                        ) && cell(mask_groups(blocks)[i], c);
                    let e = mask_groups(blocks)[i];
                    bits::lemma_sub_cells(e, blocks);
                    // k is a stone adjacent to the block, so it joins it
                    assert(cell(bits::expand(blocks), k)) by {
                        assert(bits::adj(c, k) && cell(blocks, c));
                    }
                    assert(cell(blocks, k));
                    bits::lemma_expand_cells(e);
                    assert(cell(bits::expand(e), k)) by {
                        assert(bits::adj(c, k) && cell(e, c));
                    }
                    assert(cell(e, k));
                }
            }
        }
        // the pruned regions stay closed within the stone-free space
        lemma_complement_of_fill_closed((bits::expand(removed) & regions) as u128, regions);
        bits::lemma_cell_not(ff(bits::expand(removed) & regions, regions));
        bits::lemma_cell_and(regions, !ff(bits::expand(removed) & regions, regions));
        bits::lemma_expand_cells(regions2);
        bits::lemma_expand_cells(regions);
        assert forall|k: u128|
            k < 128 && cell(bits::expand(regions2), k) && !cell(stones, k) implies #[trigger] cell(
            regions2,
            k,
        ) by {
            if !cell(regions2, k) {
                assert(cell(bits::expand(regions), k)) by {
                    if !cell(regions2, k) && cell(bits::expand(regions2), k) {
                        if exists|j: u128| bits::adj(j, k) && cell(regions2, j) {
                            let j = choose|j: u128| bits::adj(j, k) && cell(regions2, j);
                            assert(bits::adj(j, k) && cell(regions, j));
                        }
                    }
                }
                assert(cell(regions, k));
            }
        }
        lemma_benson_fix_stable(b, player, kept, regions2);
        assert(benson_fix(b, blocks, regions) == benson_fix(b, kept, regions2));
    }
}

/// The unconditionally alive stones come with a self-justifying region set:
/// every block of them keeps at least two healthy regions even after the
/// pruning settles.
pub proof fn lemma_benson_stable(b: GoBoard, player: GoPlayer)
    ensures
        exists|rf: u128|
            benson_stable_for(b, player, spec_benson(b, player), #[trigger] (rf | 0)),
{
    let stones = b.stones_mask(player);
    let base = !stones;
    let seed = (bits::interior_of(base) & b.empty_mask()) as u128;
    let regions0 = spec_small_enclosed(b, player);
    bits::lemma_cell_not(stones);
    bits::lemma_cell_not(ff(seed, base));
    bits::lemma_cell_and(base, !ff(seed, base));
    assert(regions0 == (base & !ff(seed, base)) as u128);
    lemma_complement_of_fill_closed(seed, base);
    assert(bits::closed_in(stones, stones)) by {
        assert forall|k: u128|
            k < 128 && cell(bits::expand(stones), k) && cell(stones, k) implies cell(
            stones,
            k,
        ) by {}
    }
    lemma_benson_fix_stable(b, player, stones, regions0);
}

impl GoBoard {
    /// The candidate regions for Benson's test: every maximal region of
    /// non-`x` cells all of whose empty cells lie on the region's border.
    pub fn small_x_enclosed_regions(&self, x: GoPlayer) -> (r: BitBoard)
        ensures
            r.0 == spec_small_enclosed(*self, x),
    {
        let regions = self.get_bitboard_for_player(x).invert();
        let regions_with_empty_interiors = regions.interior().and(self.empty_cells()).flood_fill(
            regions,
        );
        regions.and_not(regions_with_empty_interiors)
    }

    /// The unconditionally alive stones of `player`: the stones of the
    /// blocks that survive Benson's pruning.  They are always a subset of
    /// the player's stones, and on a board with no liberty-less group no
    /// single opposing move can capture any of them — the one-step safety
    /// law in the laws module proves it, and applies inductively along any
    /// sequence of opposing moves.
    pub fn unconditionally_alive_blocks_for_player(&self, player: GoPlayer) -> (r: BitBoard)
        ensures
            r.0 == spec_benson(*self, player),
            sub128(r.0, self.stones_mask(player)),
    {
        let mut regions = self.small_x_enclosed_regions(player);
        let blocks = self.get_bitboard_for_player(player);
        let mut remaining_blocks = blocks;

        proof {
            lemma_benson_fix_sub(*self, remaining_blocks.0, regions.0);
            bits::lemma_sub_cells(spec_benson(*self, player), self.stones_mask(player));
        }

        loop
            invariant
                spec_benson(*self, player) == benson_fix(*self, remaining_blocks.0, regions.0),
                sub128(spec_benson(*self, player), self.stones_mask(player)),
            decreases pcount(remaining_blocks.0),
        {
            let group_list = remaining_blocks.groups();
            let ghost gs = mask_groups(remaining_blocks.0);
            let mut kept = BitBoard::empty();
            let mut i: usize = 0;
            proof {
                assert(group_list@.map_values(|g: BitBoard| g.0) == gs);
                assert(gs.skip(0) =~= gs);
                bits::lemma_or_zero(keep_healthy(*self, gs, regions.0));
            }
            while i < group_list.len()
                invariant
                    i <= group_list@.len(),
                    group_list@.map_values(|g: BitBoard| g.0) == gs,
                    kept.0 | keep_healthy(*self, gs.skip(i as int), regions.0) == benson_pass(
                        *self,
                        remaining_blocks.0,
                        regions.0,
                    ),
                decreases group_list@.len() - i,
            {
                let block = group_list[i];
                let empty_intersections_in_regions = regions.and(self.empty_cells());
                let unhealthy_regions = empty_intersections_in_regions.and_not(
                    block.immediate_exterior(),
                ).flood_fill(regions);
                let healthy_regions = regions.and_not(unhealthy_regions);
                let more_than_one_healthy_region = !healthy_regions.is_empty() && !(
                healthy_regions.and_not(
                    BitBoard::singleton(healthy_regions.some_cell()).flood_fill(healthy_regions),
                )).is_empty();
                proof {
                    assert(more_than_one_healthy_region == healthy_two(*self, block.0, regions.0));
                    assert(gs.skip(i as int)[0] == gs[i as int]);
                    assert(gs.skip(i as int).drop_first() =~= gs.skip(i as int + 1));
                }
                let ghost kept_pre = kept.0;
                if more_than_one_healthy_region {
                    kept = kept.or(block);
                }
                proof {
                    let head = if healthy_two(*self, gs[i as int], regions.0) {
                        gs[i as int]
                    } else {
                        0u128
                    };
                    let tail = keep_healthy(*self, gs.skip(i as int + 1), regions.0);
                    bits::lemma_or_zero(kept_pre);
                    assert(kept.0 == kept_pre | head);
                    assert(keep_healthy(*self, gs.skip(i as int), regions.0) == head | tail);
                    bits::lemma_or_assoc(kept_pre, head, tail);
                }
                i = i + 1;
            }
            proof {
                assert(gs.skip(group_list@.len() as int) =~= Seq::<u128>::empty());
                bits::lemma_or_zero(kept.0);
                assert(kept.0 == benson_pass(*self, remaining_blocks.0, regions.0));
            }
            if kept == remaining_blocks {
                return kept;
            }
            proof {
                lemma_pass_sub(*self, remaining_blocks.0, regions.0);
                bits::lemma_pcount_strict(kept.0, remaining_blocks.0);
                bits::lemma_pcount_below_le(remaining_blocks.0, 128);
            }
            let removed_blocks = remaining_blocks.and_not(kept);
            regions = regions.and_not(removed_blocks.expand_one().and(regions).flood_fill(regions));
            remaining_blocks = kept;
        }
    }

    /// The unconditionally alive stones of both colours, as a board.
    pub fn unconditionally_alive_blocks(&self) -> (r: GoBoard)
        ensures
            r.white.0 == spec_benson(*self, GoPlayer::White),
            r.black.0 == spec_benson(*self, GoPlayer::Black),
    {
        GoBoard {
            white: self.unconditionally_alive_blocks_for_player(GoPlayer::White),
            black: self.unconditionally_alive_blocks_for_player(GoPlayer::Black),
        }
    }
}

} // verus!
