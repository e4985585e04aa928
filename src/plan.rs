//! What a build does, block by block: which blocks are generated and written,
//! which are skipped, and where in the generator's sequence each one starts.
use vstd::prelude::*;

use vstd::arithmetic::div_mod::lemma_fundamental_div_mod_converse;

use crate::manifest::{decoded_manifest, holds_manifest, lemma_manifest_round_trip, manifest_bytes};
use crate::layout::{
    block_len_of, full_blocks, layout_block_count, lemma_layout_covers, small_block_len,
    AcademyDatasetConfig,
};

verus! {

/// Position in the generator's sequence of the first item of block `b`.
/// Block 0 comes first, then the remainder block, then the full blocks in order.
pub open spec fn gen_start(length: nat, block_size: nat, b: nat) -> nat {
    let f = full_blocks(length, block_size);
    let s = small_block_len(length, block_size);
    if b == 0 {
        0
    } else if s > 0 && b == f + 1 {
        block_size
    } else {
        block_size + s + ((b - 1) * block_size) as nat
    }
}

/// The block that a build handles `j`-th.
pub open spec fn build_order(length: nat, block_size: nat, j: nat) -> nat {
    let f = full_blocks(length, block_size);
    let s = small_block_len(length, block_size);
    if j == 0 {
        0
    } else if s > 0 {
        if j == 1 {
            f + 1
        } else {
            (j - 1) as nat
        }
    } else {
        j
    }
}

/// Position in the generator's sequence of the item stored at `index`.
pub open spec fn gen_position(length: nat, block_size: nat, index: nat) -> nat {
    gen_start(length, block_size, index / block_size) + index % block_size
}

/// Blocks handled one after the other take consecutive runs of the generator's sequence.
pub proof fn lemma_build_order_contiguous(length: nat, block_size: nat, j: nat)
    requires
        1 <= block_size <= length,
        j + 1 < layout_block_count(length, block_size),
    ensures
        gen_start(length, block_size, build_order(length, block_size, j + 1)) == gen_start(
            length,
            block_size,
            build_order(length, block_size, j),
        ) + block_len_of(length, block_size, build_order(length, block_size, j)),
        build_order(length, block_size, j) < layout_block_count(length, block_size),
        build_order(length, block_size, j + 1) < layout_block_count(length, block_size),
{
    let f = full_blocks(length, block_size);
    let s = small_block_len(length, block_size);
    let c = layout_block_count(length, block_size);
    let b0 = build_order(length, block_size, j);
    let b1 = build_order(length, block_size, j + 1);
    if j == 0 {
        assert(b0 == 0);
        assert(block_len_of(length, block_size, 0) == block_size);
        if s > 0 {
            assert(b1 == f + 1);
        } else {
            assert(b1 == 1);
            assert(gen_start(length, block_size, 1) == block_size);
        }
    } else if s > 0 {
        assert(c == f + 2);
        if j == 1 {
            assert(b0 == f + 1);
            assert(b1 == 1);
            assert(f >= 1);
            assert((1 - 1) * block_size == 0);
            assert(gen_start(length, block_size, 1) == block_size + s);
        } else {
            assert(b0 == j - 1);
            assert(b1 == j);
            assert(j <= f);
            assert(((j - 1) * block_size) as nat == ((j - 2) * block_size) as nat + block_size)
                by (nonlinear_arith)
                requires
                    j >= 2,
            ;
        }
    } else {
        assert(c == f + 1);
        assert(b0 == j);
        assert(b1 == j + 1);
        assert(((j) * block_size) as nat == ((j - 1) * block_size) as nat + block_size)
            by (nonlinear_arith)
            requires
                j >= 1,
        ;
    }
}

/// The last block handled ends the generator's sequence at `length`.
pub proof fn lemma_build_order_last(length: nat, block_size: nat)
    requires
        1 <= block_size <= length,
    ensures
        ({
            let last = build_order(
                length,
                block_size,
                (layout_block_count(length, block_size) - 1) as nat,
            );
            gen_start(length, block_size, last) + block_len_of(length, block_size, last) == length
        }),
{
    lemma_layout_covers(length, block_size);
    let f = full_blocks(length, block_size);
    let s = small_block_len(length, block_size);
    let r = length - block_size;
    assert(r == f * block_size + s) by (nonlinear_arith)
        requires
            f == r / (block_size as int),
            s == r % (block_size as int),
            block_size >= 1,
            r >= 0,
    ;
    assert(length == (f + 1) * block_size + s) by (nonlinear_arith)
        requires
            r == f * block_size + s,
            r == length - block_size,
    ;
    if f >= 1 {
        assert(((f - 1) * block_size) as nat + block_size == f * block_size) by (nonlinear_arith)
            requires
                f >= 1,
        ;
    }
    assert(f * block_size + block_size == (f + 1) * block_size) by (nonlinear_arith);
    if s > 0 {
        if f == 0 {
            assert(build_order(length, block_size, 1) == 1);
        } else {
            assert(build_order(length, block_size, f + 1) == f);
        }
    } else if f >= 1 {
        assert(build_order(length, block_size, f) == f);
    }
}

/// Every block's run of the generator's sequence lies below `length`.
pub proof fn lemma_block_span(length: nat, block_size: nat, b: nat)
    requires
        1 <= block_size <= length,
        b < layout_block_count(length, block_size),
    ensures
        gen_start(length, block_size, b) + block_len_of(length, block_size, b) <= length,
{
    let f = full_blocks(length, block_size);
    let s = small_block_len(length, block_size);
    let r = length - block_size;
    assert(r == f * block_size + s) by (nonlinear_arith)
        requires
            f == r / (block_size as int),
            s == r % (block_size as int),
            block_size >= 1,
            r >= 0,
    ;
    if b >= 1 && !(s > 0 && b == f + 1) {
        assert(b <= f);
        assert(block_size + s + ((b - 1) * block_size) as nat + block_size <= length)
            by (nonlinear_arith)
            requires
                1 <= b <= f,
                length == block_size + f * block_size + s,
        ;
    }
}

/// The dataset index whose item the generator produced at position `p`.
pub open spec fn index_at_position(length: nat, block_size: nat, p: nat) -> nat {
    let f = full_blocks(length, block_size);
    let s = small_block_len(length, block_size);
    if p < block_size {
        p
    } else if p < block_size + s {
        ((f + 1) * block_size + (p - block_size)) as nat
    } else {
        (p - s) as nat
    }
}

proof fn lemma_position_of_index(length: nat, block_size: nat, i: nat)
    requires
        1 <= block_size <= length,
        i < length,
    ensures
        gen_position(length, block_size, i) < length,
        index_at_position(length, block_size, gen_position(length, block_size, i)) == i,
{
    let f = full_blocks(length, block_size);
    let s = small_block_len(length, block_size);
    let r = length - block_size;
    let b = i / block_size;
    let o = i % block_size;
    assert(r == f * block_size + s && s < block_size) by (nonlinear_arith)
        requires
            f == r / (block_size as int),
            s == r % (block_size as int),
            block_size >= 1,
            r >= 0,
    ;
    assert(length == (f + 1) * block_size + s) by (nonlinear_arith)
        requires
            r == f * block_size + s,
            r == length - block_size,
    ;
    assert(i == b * block_size + o && o < block_size) by (nonlinear_arith)
        requires
            b == i as int / (block_size as int),
            o == i as int % (block_size as int),
            block_size >= 1,
    ;
    crate::layout::lemma_locate(length, block_size, i);
    if b == 0 {
        assert(i == o) by (nonlinear_arith)
            requires
                i == b * block_size + o,
                b == 0,
        ;
    } else if s > 0 && b == f + 1 {
        assert(o < s);
        assert(i == (f + 1) * block_size + o);
    } else {
        assert(1 <= b <= f);
        assert((b - 1) * block_size + block_size == b * block_size) by (nonlinear_arith);
        assert(gen_position(length, block_size, i) == i + s);
        assert(i + s < length) by (nonlinear_arith)
            requires
                i == b * block_size + o,
                o < block_size,
                b <= f,
                length == (f + 1) * block_size + s,
        ;
        assert(i >= block_size) by (nonlinear_arith)
            requires
                i == b * block_size + o,
                b >= 1,
                o >= 0,
        ;
    }
}

proof fn lemma_index_of_position(length: nat, block_size: nat, p: nat)
    requires
        1 <= block_size <= length,
        p < length,
    ensures
        index_at_position(length, block_size, p) < length,
        gen_position(length, block_size, index_at_position(length, block_size, p)) == p,
{
    let f = full_blocks(length, block_size);
    let s = small_block_len(length, block_size);
    let r = length - block_size;
    assert(r == f * block_size + s && s < block_size) by (nonlinear_arith)
        requires
            f == r / (block_size as int),
            s == r % (block_size as int),
            block_size >= 1,
            r >= 0,
    ;
    assert(length == (f + 1) * block_size + s) by (nonlinear_arith)
        requires
            r == f * block_size + s,
            r == length - block_size,
    ;
    let i = index_at_position(length, block_size, p);
    if p < block_size {
        lemma_fundamental_div_mod_converse(i as int, block_size as int, 0, i as int);
    } else if p < block_size + s {
        lemma_fundamental_div_mod_converse(
            i as int,
            block_size as int,
            (f + 1) as int,
            (p - block_size) as int,
        );
    } else {
        let q = i as int / (block_size as int);
        let o = i as int % (block_size as int);
        assert(i == q * block_size + o && 0 <= o < block_size) by (nonlinear_arith)
            requires
                q == i as int / (block_size as int),
                o == i as int % (block_size as int),
                block_size >= 1,
        ;
        assert(i < (f + 1) * block_size);
        assert(1 <= q <= f) by (nonlinear_arith)
            requires
                i == q * block_size + o,
                0 <= o < block_size,
                i >= block_size,
                i < (f + 1) * block_size,
        ;
        assert(block_size + s + (q - 1) * block_size + o == i + s) by (nonlinear_arith)
            requires
                i == q * block_size + o,
        ;
    }
}

/// Reading indices `0..length` back gives every item the generator produced
/// exactly once: the position map is a bijection of `0..length`, with
/// `index_at_position` as its inverse.
pub proof fn lemma_round_trip(length: nat, block_size: nat)
    requires
        1 <= block_size <= length,
    ensures
        forall|i: nat|
            i < length ==> #[trigger] gen_position(length, block_size, i) < length
                && index_at_position(length, block_size, gen_position(length, block_size, i)) == i,
        forall|p: nat|
            p < length ==> #[trigger] index_at_position(length, block_size, p) < length
                && gen_position(length, block_size, index_at_position(length, block_size, p)) == p,
{
    assert forall|i: nat| i < length implies #[trigger] gen_position(length, block_size, i) < length
        && index_at_position(length, block_size, gen_position(length, block_size, i)) == i by {
        lemma_position_of_index(length, block_size, i);
    }
    assert forall|p: nat| p < length implies #[trigger] index_at_position(length, block_size, p)
        < length && gen_position(length, block_size, index_at_position(length, block_size, p))
        == p by {
        lemma_index_of_position(length, block_size, p);
    }
}

/// `step` is the `j`-th block of a build of `cfg`: the block's number, size,
/// generator position, and whether it is written.
pub open spec fn step_matches(
    cfg: AcademyDatasetConfig,
    resume: bool,
    present: Seq<bool>,
    j: nat,
    step: BlockStep,
) -> bool {
    let b = build_order(cfg.length as nat, cfg.block_size as nat, j);
    &&& step.block == b
    &&& b < cfg.block_count
    &&& step.count == cfg.block_len(b)
    &&& step.start == gen_start(cfg.length as nat, cfg.block_size as nat, b)
    &&& step.write == (b != 0 && !(resume && present[b as int]))
}

/// One block of a build: `count` items taken from generator position `start`
/// for block `block`; `write` tells whether they are generated and written, or
/// only skipped over because the block is already in place.
#[derive(Clone, Copy, Debug, PartialEq, Eq, Structural)]
pub struct BlockStep {
    pub block: usize,
    pub count: usize,
    pub start: usize,
    pub write: bool,
}

/// The manifest found on disk is kept, and the build resumes, exactly when it
/// describes a consistent layout of the requested `length`.
pub fn resume_config(length: usize, loaded: Option<AcademyDatasetConfig>) -> (r: Option<
    AcademyDatasetConfig,
>)
    ensures
        r is Some <==> (loaded matches Some(c) && c.length == length && c.wf()),
        r is Some ==> r == loaded,
{
    match loaded {
        Some(c) => {
            if c.length == length && c.block_size >= 1 && c.block_size <= c.length {
                let expected = AcademyDatasetConfig::from_layout(c.length, c.block_size, 0);
                if expected.block_count == c.block_count {
                    return Some(c);
                }
            }
            None
        },
        None => None,
    }
}

/// While sizing the first block of a fresh build: the block is complete once
/// it holds `length` items or its encoded size has reached the byte budget.
pub fn first_block_complete(count: usize, length: usize, staged_size: u64, budget: usize) -> (r:
    bool)
    ensures
        r == (count >= length || staged_size >= budget as u64),
{
    count >= length || staged_size >= budget as u64
}

/// The blocks a build goes through after the first block has been sized.
/// On a resume (`resume`) block 0 is skipped over first; on a fresh build the
/// generator already stands after block 0 and the plan starts after it.
/// `present[b]` tells whether block `b`'s file exists; a block is rewritten
/// unless the build resumes and its file is present.
pub fn build_steps(cfg: &AcademyDatasetConfig, resume: bool, present: &Vec<bool>) -> (r: Vec<
    BlockStep,
>)
    requires
        cfg.wf(),
        present@.len() == cfg.block_count,
    ensures
        r@.len() == if resume {
            cfg.block_count as int
        } else {
            cfg.block_count - 1
        },
        forall|k: int|
            0 <= k < r@.len() ==> step_matches(
                *cfg,
                resume,
                present@,
                (if resume {
                    k
                } else {
                    k + 1
                }) as nat,
                #[trigger] r@[k],
            ),
        r@.len() > 0 ==> r@[0].start == if resume {
            0
        } else {
            cfg.block_size as int
        },
        forall|k: int|
            0 <= k < r@.len() - 1 ==> #[trigger] r@[k + 1].start == r@[k].start + r@[k].count,
        r@.len() > 0 ==> r@[r@.len() - 1].start + r@[r@.len() - 1].count == cfg.length,
{
    let ghost length = cfg.length as nat;
    let ghost bs = cfg.block_size as nat;
    proof {
        lemma_layout_covers(length, bs);
        lemma_build_order_last(length, bs);
    }
    let full = cfg.full_block_count();
    let small = cfg.small_block_count();
    let mut steps: Vec<BlockStep> = Vec::new();
    let mut j: usize = if resume {
        0
    } else {
        1
    };
    let mut pos: usize = if resume {
        0
    } else {
        cfg.block_size
    };
    let first: usize = j;
    while j < cfg.block_count
        invariant
            cfg.wf(),
            present@.len() == cfg.block_count,
            length == cfg.length,
            bs == cfg.block_size,
            full == full_blocks(length, bs),
            small == small_block_len(length, bs),
            layout_block_count(length, bs) == cfg.block_count,
            forall|b: nat| b < cfg.block_count ==> 1 <= #[trigger] block_len_of(length, bs, b) <= bs,
            first == if resume {
                0usize
            } else {
                1usize
            },
            first <= j <= cfg.block_count,
            steps@.len() == j - first,
            j < cfg.block_count ==> pos == gen_start(length, bs, build_order(length, bs, j as nat)),
            j == cfg.block_count ==> pos == length,
            forall|k: int|
                0 <= k < steps@.len() ==> step_matches(
                    *cfg,
                    resume,
                    present@,
                    (k + first) as nat,
                    #[trigger] steps@[k],
                ),
            forall|k: int|
                0 <= k < steps@.len() - 1 ==> #[trigger] steps@[k + 1].start == steps@[k].start
                    + steps@[k].count,
            steps@.len() > 0 ==> steps@[steps@.len() - 1].start + steps@[steps@.len() - 1].count
                == pos,
        decreases cfg.block_count - j,
    {
        let block: usize = if j == 0 {
            0
        } else if small > 0 {
            if j == 1 {
                full + 1
            } else {
                j - 1
            }
        } else {
            j
        };
        assert(block == build_order(length, bs, j as nat));
        if j + 1 < cfg.block_count {
            proof {
                lemma_build_order_contiguous(length, bs, j as nat);
            }
        } else if j > 0 {
            proof {
                lemma_build_order_contiguous(length, bs, (j - 1) as nat);
            }
        }
        assert(block < cfg.block_count);
        let count = cfg.block_items(block);
        let write = block != 0 && !(resume && present[block]);
        let ghost old_steps = steps@;
        steps.push(BlockStep { block, count, start: pos, write });
        proof {
            lemma_block_span(length, bs, block as nat);
        }
        assert(pos + count <= length);
        pos = pos + count;
        j = j + 1;
        proof {
            assert forall|k: int| 0 <= k < steps@.len() implies step_matches(
                *cfg,
                resume,
                present@,
                (k + first) as nat,
                #[trigger] steps@[k],
            ) by {
                if k < steps@.len() - 1 {
                    assert(steps@[k] == old_steps[k]);
                } else {
                    assert((k + first) as nat == (j - 1) as nat);
                }
            }
            if j < cfg.block_count {
                lemma_build_order_contiguous(length, bs, (j - 1) as nat);
            } else {
                lemma_build_order_last(length, bs);
                assert((layout_block_count(length, bs) - 1) as nat == (j - 1) as nat);
                assert(pos == length);
            }
            assert forall|k: int| 0 <= k < steps@.len() - 1 implies #[trigger] steps@[k + 1].start
                == steps@[k].start + steps@[k].count by {
                if k + 1 < steps@.len() - 1 {
                    assert(steps@[k + 1] == old_steps[k + 1]);
                }
            }
        }
    }
    proof {
        if steps@.len() > 0 {
            assert(step_matches(*cfg, resume, present@, first as nat, steps@[0]));
            if small == 0 {
                assert((1 - 1) * bs == 0);
                assert(gen_start(length, bs, 1) == bs);
            }
        }
    }
    steps
}

/// Building again with the same length over a directory whose build
/// completed is a no-op: the manifest read back is the one written, so the
/// build resumes on the same layout, and with every block file present no
/// block is written.
pub proof fn lemma_rebuild_writes_nothing(
    cfg: AcademyDatasetConfig,
    present: Seq<bool>,
    steps: Seq<BlockStep>,
)
    requires
        cfg.wf(),
        present.len() == cfg.block_count,
        forall|b: int| 0 <= b < present.len() ==> #[trigger] present[b],
        forall|k: int| 0 <= k < steps.len() ==> step_matches(cfg, true, present, k as nat, #[trigger] steps[k]),
    ensures
        holds_manifest(manifest_bytes(cfg)),
        decoded_manifest(manifest_bytes(cfg)) == cfg,
        forall|k: int| 0 <= k < steps.len() ==> !(#[trigger] steps[k]).write,
{
    lemma_manifest_round_trip(cfg);
    assert forall|k: int| 0 <= k < steps.len() implies !(#[trigger] steps[k]).write by {
        assert(step_matches(cfg, true, present, k as nat, steps[k]));
        let b = steps[k].block;
        assert(present[b as int]);
    }
}

} // verus!
