//! Chunk storage: a 16×16×384 column of 15-bit block ids packed four to a
//! 64-bit word, with a per-16×16×16-layer count of non-air blocks.
//!
//! The count array is the invariant the wire format depends on: a layer
//! whose count is zero is sent as an empty section. Every block mutation
//! adjusts the affected layer's count so that it always equals the number
//! of non-zero block ids in that layer's packed words.

use vstd::prelude::*;

verus! {

/// Blocks in one 16×16×16 layer.
pub const LAYER_BLOCKS: usize = 4096;

/// Blocks in one whole column: 24 layers.
pub const COLUMN_BLOCKS: usize = 98304;

/// 64-bit words in one whole column: four blocks to a word.
pub const COLUMN_WORDS: usize = 24576;

/// The block id stored at flat index `idx`: 15 bits within word `idx / 4`.
pub open spec fn spec_block_at(blocks: Seq<u64>, idx: int) -> u64 {
    (blocks[idx / 4] >> ((15 * (idx % 4)) as u64)) & 0x7FFF
}

/// How many of the blocks in `[from, to)` are non-air.
pub open spec fn spec_nonair_in(blocks: Seq<u64>, from: int, to: int) -> int
    decreases to - from,
{
    if from >= to {
        0
    } else {
        spec_nonair_in(blocks, from, to - 1) + if spec_block_at(blocks, to - 1) != 0 {
            1int
        } else {
            0int
        }
    }
}

proof fn lemma_nonair_bounds(blocks: Seq<u64>, from: int, to: int)
    ensures
        0 <= spec_nonair_in(blocks, from, to),
        spec_nonair_in(blocks, from, to) <= (if to >= from {
            to - from
        } else {
            0
        }),
    decreases to - from,
{
    if from < to {
        lemma_nonair_bounds(blocks, from, to - 1);
    }
}

proof fn lemma_nonair_update(b1: Seq<u64>, b2: Seq<u64>, from: int, to: int, idx: int)
    requires
        forall|k: int| from <= k < to && k != idx ==> spec_block_at(b1, k) == spec_block_at(b2, k),
    ensures
        from <= idx < to ==> spec_nonair_in(b2, from, to) == spec_nonair_in(b1, from, to) - (
        if spec_block_at(b1, idx) != 0 {
            1int
        } else {
            0int
        }) + (if spec_block_at(b2, idx) != 0 {
            1int
        } else {
            0int
        }),
        !(from <= idx < to) ==> spec_nonair_in(b2, from, to) == spec_nonair_in(b1, from, to),
    decreases to - from,
{
    if from < to {
        lemma_nonair_update(b1, b2, from, to - 1, idx);
    }
}

proof fn lemma_nonair_full(blocks: Seq<u64>, from: int, to: int)
    requires
        from <= to,
        forall|k: int| from <= k < to ==> spec_block_at(blocks, k) != 0,
    ensures
        spec_nonair_in(blocks, from, to) == to - from,
    decreases to - from,
{
    if from < to {
        lemma_nonair_full(blocks, from, to - 1);
    }
}

proof fn lemma_nonair_empty(blocks: Seq<u64>, from: int, to: int)
    requires
        forall|k: int| from <= k < to ==> spec_block_at(blocks, k) == 0,
    ensures
        spec_nonair_in(blocks, from, to) == 0,
    decreases to - from,
{
    if from < to {
        lemma_nonair_empty(blocks, from, to - 1);
    }
}

proof fn lemma_word_update(w: u64, w2: u64, s: u64, j: u64, id: u64)
    by (bit_vector)
    requires
        s < 4,
        j < 4,
        id < 0x8000,
        w2 == (w & !(0x7FFFu64 << (15 * s))) | (id << (15 * s)),
    ensures
        (w2 >> (15 * s)) & 0x7FFF == id,
        j != s ==> (w2 >> (15 * j)) & 0x7FFF == (w >> (15 * j)) & 0x7FFF,
        (w >> (15 * s)) & 0x7FFF < 0x8000,
{
}

/// The block data of one chunk column.
pub enum ChunkContent {
    /// One packed 15-bit id per block.
    OneToOne { nonaircounts: Vec<u16>, blocks: Vec<u64> },
}

impl ChunkContent {
    /// Each layer's stored count equals the true number of non-air blocks
    /// in that layer's packed words.
    pub open spec fn wf(&self) -> bool {
        match self {
            ChunkContent::OneToOne { nonaircounts, blocks } => {
                &&& nonaircounts@.len() == 24
                &&& blocks@.len() == COLUMN_WORDS
                &&& forall|l: int|
                    0 <= l < 24 ==> (#[trigger] nonaircounts@[l]) as int == spec_nonair_in(
                        blocks@,
                        4096 * l,
                        4096 * (l + 1),
                    )
            },
        }
    }

    /// The block id at flat index `idx`.
    pub open spec fn spec_block(&self, idx: int) -> u64 {
        match self {
            ChunkContent::OneToOne { blocks, .. } => spec_block_at(blocks@, idx),
        }
    }

    /// The stored non-air count of a layer.
    pub open spec fn spec_count(&self, l: int) -> int {
        match self {
            ChunkContent::OneToOne { nonaircounts, .. } => nonaircounts@[l] as int,
        }
    }

    /// Write block id `id` at flat index `idx`, adjusting the layer's
    /// non-air count; hands back the id that was there.
    pub fn set_block_at(&mut self, idx: usize, id: u16) -> (old_id: u64)
        requires
            old(self).wf(),
            idx < COLUMN_BLOCKS,
            id < 0x8000,
        ensures
            final(self).wf(),
            old_id == old(self).spec_block(idx as int),
            old_id < 0x8000,
            final(self).spec_block(idx as int) == id,
            forall|k: int|
                0 <= k < COLUMN_BLOCKS && k != idx ==> final(self).spec_block(k) == old(
                    self,
                ).spec_block(k),
    {
        match self {
            ChunkContent::OneToOne { nonaircounts, blocks } => {
                let w: u64 = blocks[idx / 4];
                let s: u64 = (idx % 4) as u64;
                let sh: u64 = 15 * s;
                let old_id: u64 = (w >> sh) & 0x7FFF;
                let w2: u64 = (w & !(0x7FFFu64 << sh)) | ((id as u64) << sh);
                proof {
                    lemma_word_update(w, w2, s, 0, id as u64);
                    lemma_word_update(w, w2, s, 1, id as u64);
                    lemma_word_update(w, w2, s, 2, id as u64);
                    lemma_word_update(w, w2, s, 3, id as u64);
                }
                let e = &mut blocks[idx / 4];
                *e = w2;
                let ghost b1 = old(self)->OneToOne_blocks@;
                let ghost b2 = blocks@;
                proof {
                    assert forall|k: int|
                        0 <= k < COLUMN_BLOCKS && k != idx implies spec_block_at(b2, k)
                        == spec_block_at(b1, k) by {
                        if k / 4 == idx as int / 4 {
                            assert(k % 4 != idx as int % 4);
                        }
                    }
                    assert(spec_block_at(b2, idx as int) == id);
                }
                let layer: usize = idx / 4096;
                proof {
                    assert(4096 * (layer as int) <= idx < 4096 * (layer as int + 1));
                    assert forall|l: int| 0 <= l < 24 implies #[trigger] spec_nonair_in(
                        b2,
                        4096 * l,
                        4096 * (l + 1),
                    ) == spec_nonair_in(b1, 4096 * l, 4096 * (l + 1)) - (if l == layer as int
                        && old_id != 0 {
                        1int
                    } else {
                        0int
                    }) + (if l == layer as int && id != 0 {
                        1int
                    } else {
                        0int
                    }) by {
                        lemma_nonair_update(b1, b2, 4096 * l, 4096 * (l + 1), idx as int);
                    }
                    lemma_nonair_bounds(b2, 4096 * (layer as int), 4096 * (layer as int + 1));
                    lemma_nonair_bounds(b1, 4096 * (layer as int), 4096 * (layer as int + 1));
                }
                if old_id == 0 && id != 0 {
                    let c: u16 = nonaircounts[layer];
                    let e2 = &mut nonaircounts[layer];
                    *e2 = c + 1;
                } else if old_id != 0 && id == 0 {
                    let c: u16 = nonaircounts[layer];
                    let e2 = &mut nonaircounts[layer];
                    *e2 = c - 1;
                }
                old_id
            },
        }
    }

    /// A fresh demo column: the bottom four layers solid stone, the very
    /// top word of them a marker block, everything above air.
    pub fn demo() -> (c: ChunkContent)
        ensures
            c.wf(),
    {
        let mut blocks: Vec<u64> = vec![0x2000_4000_8001u64; 4096];
        let e = &mut blocks[4095];
        *e = 0x6000_C001_8003u64;
        let mut rest: Vec<u64> = vec![0u64; 20480];
        blocks.append(&mut rest);
        let mut nonaircounts: Vec<u16> = vec![4096u16; 4];
        let mut crest: Vec<u16> = vec![0u16; 20];
        nonaircounts.append(&mut crest);
        proof {
            let b = blocks@;
            assert(b.len() == COLUMN_WORDS);
            assert forall|k: int| 0 <= k < 16384 implies spec_block_at(b, k) != 0 by {
                let w = b[k / 4];
                let j = (k % 4) as u64;
                assert(w == 0x2000_4000_8001u64 || w == 0x6000_C001_8003u64);
                assert(j < 4 ==> (0x2000_4000_8001u64 >> (15 * j)) & 0x7FFF != 0) by (bit_vector);
                assert(j < 4 ==> (0x6000_C001_8003u64 >> (15 * j)) & 0x7FFF != 0) by (bit_vector);
            }
            assert forall|k: int| 16384 <= k < COLUMN_BLOCKS implies spec_block_at(b, k) == 0 by {
                assert(b[k / 4] == 0);
                let j = (k % 4) as u64;
                assert(j < 4 ==> (0u64 >> (15 * j)) & 0x7FFF == 0) by (bit_vector);
            }
            assert forall|l: int| 0 <= l < 24 implies nonaircounts@[l] as int == spec_nonair_in(
                b,
                4096 * l,
                4096 * (l + 1),
            ) by {
                if l < 4 {
                    lemma_nonair_full(b, 4096 * l, 4096 * (l + 1));
                } else {
                    lemma_nonair_empty(b, 4096 * l, 4096 * (l + 1));
                }
            }
        }
        ChunkContent::OneToOne { nonaircounts, blocks }
    }
}

/// One chunk column slot: who sees it, where it stands, and its blocks.
/// A column nobody sees is logically free and may be reused for another
/// position without an explicit release.
pub struct Chunk {
    /// One bit per player slot currently observing this column; the bit
    /// width caps concurrent viewers at 32.
    pub visible_to: u32,
    /// The packed chunk coordinates this column currently serves.
    pub coords: u64,
    pub content: ChunkContent,
}

} // verus!
