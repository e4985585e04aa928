//! The manifest file: four fixed-width little-endian words, in the order
//! `block_memory_size`, `block_count`, `block_size`, `length`.
use vstd::prelude::*;

use crate::layout::AcademyDatasetConfig;

verus! {

#[verifier::external_type_specification]
#[verifier::external_body]
pub struct ExBincodeErrorKind(bincode::ErrorKind);

/// The `n` least significant bytes of `x`, least significant first.
pub open spec fn le_bytes(x: nat, n: nat) -> Seq<u8>
    decreases n,
{
    if n == 0 {
        seq![]
    } else {
        seq![(x % 256) as u8] + le_bytes(x / 256, (n - 1) as nat)
    }
}

/// The number that bytes `s` spell, least significant first.
pub open spec fn le_value(s: Seq<u8>) -> nat
    decreases s.len(),
{
    if s.len() == 0 {
        0
    } else {
        s[0] as nat + 256 * le_value(s.drop_first())
    }
}

/// `256` to the power `n`.
pub open spec fn pow256(n: nat) -> nat
    decreases n,
{
    if n == 0 {
        1
    } else {
        256 * pow256((n - 1) as nat)
    }
}

/// The bytes `s` spell a number below `256^|s|`.
pub proof fn lemma_le_value_bound(s: Seq<u8>)
    ensures
        le_value(s) < pow256(s.len()),
    decreases s.len(),
{
    if s.len() > 0 {
        lemma_le_value_bound(s.drop_first());
        assert(le_value(s) < pow256(s.len())) by (nonlinear_arith)
            requires
                le_value(s) == s[0] as nat + 256 * le_value(s.drop_first()),
                le_value(s.drop_first()) < pow256(s.drop_first().len()),
                pow256(s.len()) == 256 * pow256(s.drop_first().len()),
                s[0] < 256,
        ;
    }
}

/// A word fits `u64`.
pub proof fn lemma_word_fits(s: Seq<u8>, i: int)
    requires
        0 <= i,
        8 * i + 8 <= s.len(),
    ensures
        word_at(s, i) <= u64::MAX,
{
    lemma_le_value_bound(s.subrange(8 * i, 8 * i + 8));
    reveal_with_fuel(pow256, 9);
    assert(pow256(8) == 0x1_0000_0000_0000_0000);
}

/// The four words, eight bytes each.
pub open spec fn words_bytes(a: u64, b: u64, c: u64, d: u64) -> Seq<u8> {
    le_bytes(a as nat, 8) + le_bytes(b as nat, 8) + le_bytes(c as nat, 8) + le_bytes(d as nat, 8)
}

/// Word `i` (from 0) of `s`.
pub open spec fn word_at(s: Seq<u8>, i: int) -> nat {
    le_value(s.subrange(8 * i, 8 * i + 8))
}

/// The bytes a manifest is stored as.
pub open spec fn manifest_bytes(c: AcademyDatasetConfig) -> Seq<u8> {
    words_bytes(c.block_memory_size as u64, c.block_count as u64, c.block_size as u64, c.length as u64)
}

/// Whether `s` holds a manifest: four words that fit `usize` and form a consistent layout.
pub open spec fn holds_manifest(s: Seq<u8>) -> bool {
    &&& s.len() >= 32
    &&& forall|i: int| 0 <= i < 4 ==> #[trigger] word_at(s, i) <= usize::MAX
    &&& decoded_manifest(s).wf()
}

/// The manifest that the first 32 bytes of `s` spell.
pub open spec fn decoded_manifest(s: Seq<u8>) -> AcademyDatasetConfig {
    AcademyDatasetConfig {
        block_memory_size: word_at(s, 0) as usize,
        block_count: word_at(s, 1) as usize,
        block_size: word_at(s, 2) as usize,
        length: word_at(s, 3) as usize,
    }
}

/// Relies on bincode::serialize with its default options: a tuple of `u64`
/// becomes its fields in order, each as eight little-endian bytes, and writing
/// into a `Vec` with no size limit does not fail.
#[verifier::external_body]
fn serialize_words(w: (u64, u64, u64, u64)) -> (r: Result<Vec<u8>, Box<bincode::ErrorKind>>)
    ensures
        r is Ok,
        r is Ok ==> r->Ok_0@ == words_bytes(w.0, w.1, w.2, w.3),
{
    bincode::serialize(&w)
}

/// Relies on bincode::deserialize with its default options: four eight-byte
/// little-endian words are read from the front, trailing bytes are allowed,
/// and fewer than 32 bytes is an error.
#[verifier::external_body]
fn deserialize_words(bytes: &Vec<u8>) -> (r: Result<(u64, u64, u64, u64), Box<bincode::ErrorKind>>)
    ensures
        r is Ok <==> bytes@.len() >= 32,
        r is Ok ==> r->Ok_0 == (
            word_at(bytes@, 0) as u64,
            word_at(bytes@, 1) as u64,
            word_at(bytes@, 2) as u64,
            word_at(bytes@, 3) as u64,
        ),
{
    bincode::deserialize(bytes.as_slice())
}

impl AcademyDatasetConfig {
    /// The bytes this manifest is stored as.
    pub fn encode(&self) -> (r: Vec<u8>)
        ensures
            r@ == manifest_bytes(*self),
    {
        let w = (
            self.block_memory_size as u64,
            self.block_count as u64,
            self.block_size as u64,
            self.length as u64,
        );
        match serialize_words(w) {
            Ok(v) => v,
            Err(_) => {
                proof {
                    assert(false);
                }
                Vec::new()
            },
        }
    }

    /// The manifest stored in `bytes`, or `None` when they are too short or
    /// describe an inconsistent layout.
    pub fn decode(bytes: &Vec<u8>) -> (r: Option<Self>)
        ensures
            r is Some <==> holds_manifest(bytes@),
            r matches Some(c) ==> c == decoded_manifest(bytes@) && c.wf(),
    {
        match deserialize_words(bytes) {
            Err(_) => None,
            Ok(w) => {
                proof {
                    lemma_word_fits(bytes@, 0);
                    lemma_word_fits(bytes@, 1);
                    lemma_word_fits(bytes@, 2);
                    lemma_word_fits(bytes@, 3);
                }
                let max = usize::MAX as u64;
                if w.0 > max || w.1 > max || w.2 > max || w.3 > max {
                    assert(!(word_at(bytes@, 0) <= usize::MAX && word_at(bytes@, 1) <= usize::MAX
                        && word_at(bytes@, 2) <= usize::MAX && word_at(bytes@, 3) <= usize::MAX));
                    return None;
                }
                let c = AcademyDatasetConfig {
                    block_memory_size: w.0 as usize,
                    block_count: w.1 as usize,
                    block_size: w.2 as usize,
                    length: w.3 as usize,
                };
                assert(c == decoded_manifest(bytes@));
                if c.block_size >= 1 && c.block_size <= c.length {
                    let expected = AcademyDatasetConfig::from_layout(c.length, c.block_size, 0);
                    if expected.block_count == c.block_count {
                        return Some(c);
                    }
                }
                None
            },
        }
    }
}

/// Spelling `x` in `n` bytes and reading them back gives `x`.
proof fn lemma_le_round_trip(x: nat, n: nat)
    requires
        x < pow256(n),
    ensures
        le_bytes(x, n).len() == n,
        le_value(le_bytes(x, n)) == x,
    decreases n,
{
    if n > 0 {
        let q = x / 256;
        assert(q < pow256((n - 1) as nat)) by (nonlinear_arith)
            requires
                q == x / 256,
                x < pow256(n),
                pow256(n) == 256 * pow256((n - 1) as nat),
        ;
        lemma_le_round_trip(q, (n - 1) as nat);
        let s = le_bytes(x, n);
        assert(s.drop_first() =~= le_bytes(q, (n - 1) as nat));
        assert(x == x % 256 + 256 * q) by (nonlinear_arith)
            requires
                q == x / 256,
        ;
    }
}

proof fn lemma_word_round_trip(x: nat)
    requires
        x <= u64::MAX,
    ensures
        le_bytes(x, 8).len() == 8,
        le_value(le_bytes(x, 8)) == x,
{
    reveal_with_fuel(pow256, 9);
    assert(pow256(8) == 0x1_0000_0000_0000_0000);
    lemma_le_round_trip(x, 8);
}

/// A stored manifest reads back as the same manifest: a later build or a
/// reader sees exactly the layout that was written.
pub proof fn lemma_manifest_round_trip(c: AcademyDatasetConfig)
    requires
        c.wf(),
    ensures
        holds_manifest(manifest_bytes(c)),
        decoded_manifest(manifest_bytes(c)) == c,
{
    let a = c.block_memory_size as u64 as nat;
    let b = c.block_count as u64 as nat;
    let d = c.block_size as u64 as nat;
    let e = c.length as u64 as nat;
    lemma_word_round_trip(a);
    lemma_word_round_trip(b);
    lemma_word_round_trip(d);
    lemma_word_round_trip(e);
    let s = manifest_bytes(c);
    assert(s.len() == 32);
    assert(s.subrange(0, 8) =~= le_bytes(a, 8));
    assert(s.subrange(8, 16) =~= le_bytes(b, 8));
    assert(s.subrange(16, 24) =~= le_bytes(d, 8));
    assert(s.subrange(24, 32) =~= le_bytes(e, 8));
    assert(word_at(s, 0) == c.block_memory_size);
    assert(word_at(s, 1) == c.block_count);
    assert(word_at(s, 2) == c.block_size);
    assert(word_at(s, 3) == c.length);
    assert(decoded_manifest(s) == c);
}

} // verus!
