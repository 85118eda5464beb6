use vstd::layout::size_of;
use vstd::prelude::*;

verus! {

broadcast use vstd::layout::layout_of_primitives;

/// A value that a sequence on the second stack can hold: it is stored as
/// `size_of::<Self>()` bytes, written in place and read back unchanged.
/// Such a value owns no other resource, so discarding its bytes discards it.
pub trait Element: Sized + Copy {
    /// The bytes that stand for `v`.
    spec fn encode(v: Self) -> Seq<u8>;

    /// The value that `b` stands for.
    spec fn decode(b: Seq<u8>) -> Self;

    /// An encoding fills exactly the value's size, which is not zero, and
    /// decodes back to the value.
    /// The type takes up at least one byte.
    proof fn lemma_size()
        ensures
            size_of::<Self>() > 0,
    ;

    /// An encoding fills exactly the value's size and decodes back to the value.
    proof fn lemma_encoding(v: Self)
        ensures
            Self::encode(v).len() == size_of::<Self>(),
            Self::decode(Self::encode(v)) == v,
    ;

    fn to_bytes(&self) -> (r: Vec<u8>)
        ensures
            r@ == Self::encode(*self),
    ;

    fn from_bytes(b: &[u8], at: usize) -> (r: Self)
        requires
            at + size_of::<Self>() <= b@.len(),
        ensures
            r == Self::decode(b@.subrange(at as int, at + size_of::<Self>())),
    ;
}

impl Element for u8 {
    open spec fn encode(v: u8) -> Seq<u8> {
        seq![v]
    }

    open spec fn decode(b: Seq<u8>) -> u8 {
        b[0]
    }

    proof fn lemma_size() {
    }

    proof fn lemma_encoding(v: u8) {
    }

    fn to_bytes(&self) -> (r: Vec<u8>) {
        vec![*self]
    }

    fn from_bytes(b: &[u8], at: usize) -> (r: u8) {
        b[at]
    }
}

impl Element for u16 {
    open spec fn encode(v: u16) -> Seq<u8> {
        seq![v as u8, (v >> 8u16) as u8]
    }

    open spec fn decode(b: Seq<u8>) -> u16 {
        b[0] as u16 | (b[1] as u16) << 8u16
    }

    proof fn lemma_size() {
    }

    proof fn lemma_encoding(v: u16) {
        assert((v as u8) as u16 | (((v >> 8u16) as u8) as u16) << 8u16 == v) by (bit_vector);
    }

    fn to_bytes(&self) -> (r: Vec<u8>) {
        let v = *self;
        vec![v as u8, (v >> 8u16) as u8]
    }

    fn from_bytes(b: &[u8], at: usize) -> (r: u16) {
        b[at] as u16 | (b[at + 1] as u16) << 8u16
    }
}

impl Element for u32 {
    open spec fn encode(v: u32) -> Seq<u8> {
        seq![v as u8, (v >> 8u32) as u8, (v >> 16u32) as u8, (v >> 24u32) as u8]
    }

    open spec fn decode(b: Seq<u8>) -> u32 {
        b[0] as u32 | (b[1] as u32) << 8u32 | (b[2] as u32) << 16u32 | (b[3] as u32) << 24u32
    }

    proof fn lemma_size() {
    }

    proof fn lemma_encoding(v: u32) {
        assert((v as u8) as u32 | (((v >> 8u32) as u8) as u32) << 8u32 | (((v >> 16u32) as u8) as u32)
            << 16u32 | (((v >> 24u32) as u8) as u32) << 24u32 == v) by (bit_vector);
    }

    fn to_bytes(&self) -> (r: Vec<u8>) {
        let v = *self;
        vec![v as u8, (v >> 8u32) as u8, (v >> 16u32) as u8, (v >> 24u32) as u8]
    }

    fn from_bytes(b: &[u8], at: usize) -> (r: u32) {
        b[at] as u32 | (b[at + 1] as u32) << 8u32 | (b[at + 2] as u32) << 16u32 | (b[at + 3] as u32)
            << 24u32
    }
}

impl Element for u64 {
    open spec fn encode(v: u64) -> Seq<u8> {
        seq![
            v as u8,
            (v >> 8u64) as u8,
            (v >> 16u64) as u8,
            (v >> 24u64) as u8,
            (v >> 32u64) as u8,
            (v >> 40u64) as u8,
            (v >> 48u64) as u8,
            (v >> 56u64) as u8,
        ]
    }

    open spec fn decode(b: Seq<u8>) -> u64 {
        b[0] as u64 | (b[1] as u64) << 8u64 | (b[2] as u64) << 16u64 | (b[3] as u64) << 24u64 | (
        b[4] as u64) << 32u64 | (b[5] as u64) << 40u64 | (b[6] as u64) << 48u64 | (b[7] as u64)
            << 56u64
    }

    proof fn lemma_size() {
    }

    proof fn lemma_encoding(v: u64) {
        assert((v as u8) as u64 | (((v >> 8u64) as u8) as u64) << 8u64 | (((v >> 16u64) as u8) as u64)
            << 16u64 | (((v >> 24u64) as u8) as u64) << 24u64 | (((v >> 32u64) as u8) as u64) << 32u64
            | (((v >> 40u64) as u8) as u64) << 40u64 | (((v >> 48u64) as u8) as u64) << 48u64 | (((v
            >> 56u64) as u8) as u64) << 56u64 == v) by (bit_vector);
    }

    fn to_bytes(&self) -> (r: Vec<u8>) {
        let v = *self;
        vec![
            v as u8,
            (v >> 8u64) as u8,
            (v >> 16u64) as u8,
            (v >> 24u64) as u8,
            (v >> 32u64) as u8,
            (v >> 40u64) as u8,
            (v >> 48u64) as u8,
            (v >> 56u64) as u8,
        ]
    }

    fn from_bytes(b: &[u8], at: usize) -> (r: u64) {
        b[at] as u64 | (b[at + 1] as u64) << 8u64 | (b[at + 2] as u64) << 16u64 | (b[at + 3] as u64)
            << 24u64 | (b[at + 4] as u64) << 32u64 | (b[at + 5] as u64) << 40u64 | (b[at + 6] as u64)
            << 48u64 | (b[at + 7] as u64) << 56u64
    }
}

} // verus!
