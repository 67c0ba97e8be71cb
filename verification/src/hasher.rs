//! The multiplicative hasher of the hash map, and the keys it can hash.

use core::hash::Hasher;
use vstd::prelude::*;
use vstd::string::StringSliceAdditionalSpecFns;
use vstd::utf8::encode_utf8;

verus! {

/// One step of the hasher: the accumulator times 31 plus the byte, modulo 2^64.
pub open spec fn mix_byte(acc: u64, byte: u8) -> u64 {
    ((acc * 31 + byte) % 0x1_0000_0000_0000_0000) as u64
}

/// The accumulator after the bytes were mixed in, first to last.
pub open spec fn mix(acc: u64, bytes: Seq<u8>) -> u64
    decreases bytes.len(),
{
    if bytes.len() == 0 {
        acc
    } else {
        mix_byte(mix(acc, bytes.drop_last()), bytes.last())
    }
}

/// Mixing in two runs of bytes one after the other is mixing in their concatenation.
pub proof fn lemma_mix_concat(acc: u64, first: Seq<u8>, second: Seq<u8>)
    ensures
        mix(mix(acc, first), second) == mix(acc, first + second),
    decreases second.len(),
{
    if second.len() == 0 {
        assert(first + second =~= first);
    } else {
        lemma_mix_concat(acc, first, second.drop_last());
        assert((first + second).drop_last() =~= first + second.drop_last());
        assert((first + second).last() == second.last());
    }
}

/// A fast hasher: a 64-bit accumulator that takes in one byte at a time.
pub struct QuickHasher {
    value: u64,
}

impl View for QuickHasher {
    type V = u64;

    closed spec fn view(&self) -> u64 {
        self.value
    }
}

impl QuickHasher {
    /// A hasher whose accumulator is 0.
    pub fn new() -> (h: Self)
        ensures
            h@ == 0,
    {
        Self { value: 0 }
    }

    /// Mixes in one byte.
    pub fn write_u8(&mut self, byte: u8)
        ensures
            final(self)@ == mix_byte(old(self)@, byte),
    {
        let widened: u64 = byte as u64;
        self.value = self.value.wrapping_mul(31).wrapping_add(widened);
        assert(self@ == mix_byte(old(self)@, byte)) by {
            let a = old(self)@;
            assert(((a * 31) % 0x1_0000_0000_0000_0000 + byte) % 0x1_0000_0000_0000_0000 == (a * 31
                + byte) % 0x1_0000_0000_0000_0000) by (nonlinear_arith);
        }
    }
}

/// A key of the hash map: a value with a byte representation to hash, and a test that tells
/// whether two keys are the same.
///
/// Two keys are the same key when their views are equal. The bytes depend on the view
/// alone, so the same key always has the same hash.
pub trait HashKey: View + Sized {
    /// The bytes that the hasher takes in for the key with view `id`.
    spec fn key_bytes(id: Self::V) -> Seq<u8>;

    /// Mixes the key's bytes into `state`.
    fn feed(&self, state: &mut QuickHasher)
        ensures
            final(state)@ == mix(old(state)@, Self::key_bytes(self@)),
    ;

    /// Whether `other` is the same key.
    fn same_key(&self, other: &Self) -> (b: bool)
        ensures
            b == (self@ == other@),
    ;
}

/// The `width` low bytes of `x`, lowest first.
pub open spec fn le_bytes(x: u64, width: nat) -> Seq<u8> {
    Seq::new(width, |i: int| ((x >> ((8 * i) as u64)) & 0xff) as u8)
}

/// Mixes the `width` low bytes of `x` into `state`, lowest first.
fn write_le(state: &mut QuickHasher, x: u64, width: u64)
    requires
        width <= 8,
    ensures
        final(state)@ == mix(old(state)@, le_bytes(x, width as nat)),
{
    let mut i: u64 = 0;
    while i < width
        invariant
            i <= width <= 8,
            state@ == mix(old(state)@, le_bytes(x, i as nat)),
        decreases width - i,
    {
        let shift: u64 = 8 * i;
        let low: u64 = (x >> shift) & 0xff;
        assert(low < 256) by (bit_vector)
            requires
                low == (x >> shift) & 0xff,
        ;
        state.write_u8(low as u8);
        assert(le_bytes(x, (i + 1) as nat).drop_last() =~= le_bytes(x, i as nat));
        i = i + 1;
    }
}

impl HashKey for u8 {
    open spec fn key_bytes(id: u8) -> Seq<u8> {
        le_bytes(id as u64, 1)
    }

    fn feed(&self, state: &mut QuickHasher) {
        write_le(state, *self as u64, 1);
    }

    fn same_key(&self, other: &Self) -> (b: bool) {
        *self == *other
    }
}

impl HashKey for u16 {
    open spec fn key_bytes(id: u16) -> Seq<u8> {
        le_bytes(id as u64, 2)
    }

    fn feed(&self, state: &mut QuickHasher) {
        write_le(state, *self as u64, 2);
    }

    fn same_key(&self, other: &Self) -> (b: bool) {
        *self == *other
    }
}

impl HashKey for u32 {
    open spec fn key_bytes(id: u32) -> Seq<u8> {
        le_bytes(id as u64, 4)
    }

    fn feed(&self, state: &mut QuickHasher) {
        write_le(state, *self as u64, 4);
    }

    fn same_key(&self, other: &Self) -> (b: bool) {
        *self == *other
    }
}

impl HashKey for u64 {
    open spec fn key_bytes(id: u64) -> Seq<u8> {
        le_bytes(id, 8)
    }

    fn feed(&self, state: &mut QuickHasher) {
        write_le(state, *self, 8);
    }

    fn same_key(&self, other: &Self) -> (b: bool) {
        *self == *other
    }
}

impl HashKey for usize {
    open spec fn key_bytes(id: usize) -> Seq<u8> {
        le_bytes(id as u64, 8)
    }

    fn feed(&self, state: &mut QuickHasher) {
        write_le(state, *self as u64, 8);
    }

    fn same_key(&self, other: &Self) -> (b: bool) {
        *self == *other
    }
}

/// The bytes of a string key: its UTF-8 encoding, then one byte 0xff.
pub open spec fn str_key_bytes(chars: Seq<char>) -> Seq<u8> {
    encode_utf8(chars).push(0xff)
}

/// Mixes the bytes of a string key into `state`.
fn write_str(state: &mut QuickHasher, s: &str)
    ensures
        final(state)@ == mix(old(state)@, str_key_bytes(s@)),
{
    state.write(s.as_bytes());
    state.write_u8(0xff);
    assert(str_key_bytes(s@).drop_last() =~= encode_utf8(s@));
}

/// Whether the two strings hold the same characters.
fn same_str(a: &str, b: &str) -> (r: bool)
    ensures
        r == (a@ == b@),
{
    let x = a.as_bytes();
    let y = b.as_bytes();
    proof {
        vstd::utf8::encode_utf8_decode_utf8(a@);
        vstd::utf8::encode_utf8_decode_utf8(b@);
    }
    if x.len() != y.len() {
        return false;
    }
    let n: usize = x.len();
    let mut i: usize = 0;
    while i < n
        invariant
            i <= n,
            n == x@.len(),
            n == y@.len(),
            x@ == encode_utf8(a@),
            y@ == encode_utf8(b@),
            vstd::utf8::decode_utf8(encode_utf8(a@)) == a@,
            vstd::utf8::decode_utf8(encode_utf8(b@)) == b@,
            x@.take(i as int) == y@.take(i as int),
        decreases n - i,
    {
        if x[i] != y[i] {
            return false;
        }
        assert(x@.take(i + 1) =~= x@.take(i as int).push(x@[i as int]));
        assert(y@.take(i + 1) =~= y@.take(i as int).push(y@[i as int]));
        i = i + 1;
    }
    assert(x@ =~= x@.take(n as int));
    assert(y@ =~= y@.take(n as int));
    true
}

impl HashKey for String {
    open spec fn key_bytes(id: Seq<char>) -> Seq<u8> {
        str_key_bytes(id)
    }

    fn feed(&self, state: &mut QuickHasher) {
        write_str(state, self.as_str());
    }

    fn same_key(&self, other: &Self) -> (b: bool) {
        same_str(self.as_str(), other.as_str())
    }
}

impl<'a> HashKey for &'a str {
    open spec fn key_bytes(id: Seq<char>) -> Seq<u8> {
        str_key_bytes(id)
    }

    fn feed(&self, state: &mut QuickHasher) {
        write_str(state, *self);
    }

    fn same_key(&self, other: &Self) -> (b: bool) {
        same_str(*self, *other)
    }
}

impl core::hash::Hasher for QuickHasher {
    /// The accumulator.
    fn finish(&self) -> (v: u64)
        ensures
            v == self@,
    {
        self.value
    }

    /// Mixes in the bytes, first to last.
    fn write(&mut self, bytes: &[u8])
        ensures
            final(self)@ == mix(old(self)@, bytes@),
    {
        let n: usize = bytes.len();
        let mut i: usize = 0;
        while i < n
            invariant
                i <= n,
                n == bytes@.len(),
                self@ == mix(old(self)@, bytes@.take(i as int)),
            decreases n - i,
        {
            self.write_u8(bytes[i]);
            assert(bytes@.take(i + 1).drop_last() =~= bytes@.take(i as int));
            i = i + 1;
        }
        assert(bytes@.take(n as int) =~= bytes@);
    }
}

impl Default for QuickHasher {
    fn default() -> (h: Self)
        ensures
            h@ == 0,
    {
        QuickHasher::new()
    }
}

} // verus!
