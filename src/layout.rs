//! How a dataset of `length` items is cut into blocks of `block_size` items.
use vstd::prelude::*;

verus! {

/// Number of full blocks that follow block 0.
pub open spec fn full_blocks(length: nat, block_size: nat) -> nat
    recommends
        1 <= block_size <= length,
{
    ((length - block_size) / (block_size as int)) as nat
}

/// Number of items in the trailing remainder block (0 when there is none).
pub open spec fn small_block_len(length: nat, block_size: nat) -> nat
    recommends
        1 <= block_size <= length,
{
    ((length - block_size) % (block_size as int)) as nat
}

/// Total number of block files of the layout.
pub open spec fn layout_block_count(length: nat, block_size: nat) -> nat {
    if small_block_len(length, block_size) > 0 {
        full_blocks(length, block_size) + 2
    } else {
        full_blocks(length, block_size) + 1
    }
}

/// Number of items stored in block `b`.
pub open spec fn block_len_of(length: nat, block_size: nat, b: nat) -> nat {
    if small_block_len(length, block_size) > 0 && b == full_blocks(length, block_size) + 1 {
        small_block_len(length, block_size)
    } else {
        block_size
    }
}

/// The layout covers exactly `length` items: every block but the last is full,
/// the last one holds what is left, and the block count is `ceil(length / block_size)`.
pub proof fn lemma_layout_covers(length: nat, block_size: nat)
    requires
        1 <= block_size <= length,
    ensures
        layout_block_count(length, block_size) == (length + block_size - 1) / (block_size as int),
        (layout_block_count(length, block_size) - 1) * block_size < length,
        length <= layout_block_count(length, block_size) * block_size,
        ((layout_block_count(length, block_size) - 1) * block_size + block_len_of(
            length,
            block_size,
            (layout_block_count(length, block_size) - 1) as nat,
        )) as int == length,
        forall|b: nat|
            b < layout_block_count(length, block_size) ==> 1 <= #[trigger] block_len_of(
                length,
                block_size,
                b,
            ) <= block_size,
{
    let f = full_blocks(length, block_size);
    let s = small_block_len(length, block_size);
    let r = length - block_size;
    assert(r == f * block_size + s && s < block_size) by (nonlinear_arith)
        requires
            f == r / (block_size as int),
            s == r % (block_size as int),
            block_size >= 1,
            r >= 0,
    ;
    let c = layout_block_count(length, block_size);
    if s > 0 {
        assert(length == (f + 1) * block_size + s) by (nonlinear_arith)
            requires
                r == f * block_size + s,
                r == length - block_size,
        ;
        assert(c == f + 2);
        assert((length + block_size - 1) / (block_size as int) == f + 2) by (nonlinear_arith)
            requires
                length == (f + 1) * block_size + s,
                0 < s < block_size,
        ;
        assert((c - 1) * block_size < length <= c * block_size) by (nonlinear_arith)
            requires
                length == (f + 1) * block_size + s,
                0 < s < block_size,
                c == f + 2,
        ;
    } else {
        assert(length == (f + 1) * block_size) by (nonlinear_arith)
            requires
                r == f * block_size + s,
                r == length - block_size,
                s == 0,
        ;
        assert((length + block_size - 1) / (block_size as int) == f + 1) by (nonlinear_arith)
            requires
                length == (f + 1) * block_size,
                block_size >= 1,
        ;
        assert((c - 1) * block_size < length <= c * block_size) by (nonlinear_arith)
            requires
                length == (f + 1) * block_size,
                c == f + 1,
                block_size >= 1,
        ;
    }
}

/// The block and the offset inside it where item `index` is stored.
pub proof fn lemma_locate(length: nat, block_size: nat, index: nat)
    requires
        1 <= block_size <= length,
        index < length,
    ensures
        index / block_size < layout_block_count(length, block_size),
        index % block_size < block_len_of(length, block_size, index / block_size),
        index == (index / block_size) * block_size + index % block_size,
{
    let f = full_blocks(length, block_size);
    let s = small_block_len(length, block_size);
    let r = length - block_size;
    let b = index / block_size;
    let o = index % block_size;
    assert(r == f * block_size + s && s < block_size) by (nonlinear_arith)
        requires
            f == r / (block_size as int),
            s == r % (block_size as int),
            block_size >= 1,
            r >= 0,
    ;
    assert(index == b * block_size + o && o < block_size) by (nonlinear_arith)
        requires
            b == index as int / (block_size as int),
            o == index as int % (block_size as int),
            block_size >= 1,
    ;
    assert(length == (f + 1) * block_size + s) by (nonlinear_arith)
        requires
            r == f * block_size + s,
            r == length - block_size,
    ;
    if b > f + 1 {
        assert(false) by (nonlinear_arith)
            requires
                b >= f + 2,
                block_size >= 1,
                index == b * block_size + o,
                o >= 0,
                index < length,
                length == (f + 1) * block_size + s,
                s < block_size,
        ;
    }
    if b == f + 1 {
        assert(b * block_size == (f + 1) * block_size);
        assert(o < s);
    }
    assert(b <= f + 1);
    if b == f + 1 {
        assert(s > 0);
    } else {
        assert(b < f + 1);
    }
}

/// The persisted layout record of one dataset directory.
#[derive(Clone, Copy, Debug, PartialEq, Eq, Structural)]
pub struct AcademyDatasetConfig {
    /// Byte budget the first block was sized against.
    pub block_memory_size: usize,
    /// Number of block files.
    pub block_count: usize,
    /// Items per block, except possibly the last one.
    pub block_size: usize,
    /// Total number of items.
    pub length: usize,
}

impl AcademyDatasetConfig {
    /// `length`, `block_size` and `block_count` agree with each other.
    pub open spec fn wf(&self) -> bool {
        &&& 1 <= self.block_size <= self.length
        &&& self.block_count == layout_block_count(self.length as nat, self.block_size as nat)
    }

    /// Number of items in block `b`.
    pub open spec fn block_len(&self, b: nat) -> nat {
        block_len_of(self.length as nat, self.block_size as nat, b)
    }

    /// Number of full blocks after block 0.
    pub open spec fn full_blocks(&self) -> nat {
        full_blocks(self.length as nat, self.block_size as nat)
    }

    /// Size of the remainder block (0 when there is none).
    pub open spec fn small_len(&self) -> nat {
        small_block_len(self.length as nat, self.block_size as nat)
    }

    /// The layout of `length` items cut into blocks of `block_size`.
    pub fn from_layout(length: usize, block_size: usize, block_memory_size: usize) -> (r: Self)
        requires
            1 <= block_size <= length,
        ensures
            r.wf(),
            r.length == length,
            r.block_size == block_size,
            r.block_memory_size == block_memory_size,
    {
        let rest = length - block_size;
        let full = rest / block_size;
        let small = rest % block_size;
        let block_count = if small > 0 {
            assert(full + 2 <= length) by (nonlinear_arith)
                requires
                    full == rest as int / (block_size as int),
                    small == rest as int % (block_size as int),
                    small > 0,
                    1 <= block_size,
                    rest == length - block_size,
            ;
            full + 2
        } else {
            assert(full + 1 <= length) by (nonlinear_arith)
                requires
                    full == rest as int / (block_size as int),
                    1 <= block_size,
                    rest == length - block_size,
            ;
            full + 1
        };
        AcademyDatasetConfig { block_memory_size, block_count, block_size, length }
    }

    /// Number of full blocks after block 0.
    pub fn full_block_count(&self) -> (r: usize)
        requires
            self.wf(),
        ensures
            r == self.full_blocks(),
    {
        (self.length - self.block_size) / self.block_size
    }

    /// Size of the remainder block (0 when there is none).
    pub fn small_block_count(&self) -> (r: usize)
        requires
            self.wf(),
        ensures
            r == self.small_len(),
    {
        (self.length - self.block_size) % self.block_size
    }

    /// Number of items stored in block `b`.
    pub fn block_items(&self, b: usize) -> (r: usize)
        requires
            self.wf(),
        ensures
            r == self.block_len(b as nat),
    {
        let small = self.small_block_count();
        let full = self.full_block_count();
        if small > 0 && b > 0 && b - 1 == full {
            small
        } else {
            self.block_size
        }
    }

    /// Where item `index` is stored: its block and its offset in the block;
    /// `None` when `index` is past the end.
    pub fn locate(&self, index: usize) -> (r: Option<(usize, usize)>)
        requires
            self.wf(),
        ensures
            index >= self.length ==> r is None,
            index < self.length ==> r == Some(
                ((index / self.block_size) as usize, (index % self.block_size) as usize),
            ),
            r matches Some((b, o)) ==> b < self.block_count && o < self.block_len(b as nat),
    {
        if index >= self.length {
            None
        } else {
            proof {
                lemma_locate(self.length as nat, self.block_size as nat, index as nat);
            }
            Some((index / self.block_size, index % self.block_size))
        }
    }
}

} // verus!
