use std::collections::hash_map::DefaultHasher;
use std::hash::Hasher;
use vstd::prelude::*;
use vstd::std_specs::hash::DefaultHasherAdditionalSpecFns;

verus! {

/// A value that can feed a canonical byte encoding of itself into a hasher.
///
/// The bytes written are a function of the value alone, so the resulting
/// 64-bit fingerprint is stable for equal values.
pub trait Fingerprint {
    /// The byte chunks that `write_to` hands to the hasher.
    spec fn chunks(&self) -> Seq<Seq<u8>>;

    /// Writes this value's chunks into `hasher`.
    fn write_to(&self, hasher: &mut DefaultHasher)
        ensures
            final(hasher)@ == old(hasher)@ + self.chunks(),
    ;
}

/// The fingerprint of a value: the hasher's digest of its chunks.
pub open spec fn spec_hash<T: Fingerprint>(item: &T) -> u64 {
    DefaultHasher::spec_finish(item.chunks())
}

/// Calculates the hash for an item.
pub fn hash<T: Fingerprint>(item: &T) -> (r: u64)
    ensures
        r == spec_hash(item),
{
    let mut hasher = DefaultHasher::new();
    item.write_to(&mut hasher);
    assert(hasher@ =~= item.chunks());
    hasher.finish()
}

/// The four little-endian bytes of a 32-bit value.
pub open spec fn le_bytes(x: u32) -> Seq<u8> {
    seq![
        (x % 256) as u8,
        ((x / 256) % 256) as u8,
        ((x / 65536) % 256) as u8,
        ((x / 16777216) % 256) as u8,
    ]
}

impl Fingerprint for char {
    open spec fn chunks(&self) -> Seq<Seq<u8>> {
        seq![le_bytes(*self as u32)]
    }

    fn write_to(&self, hasher: &mut DefaultHasher) {
        let x: u32 = *self as u32;
        let bytes: [u8; 4] = [
            (x % 256) as u8,
            ((x / 256) % 256) as u8,
            ((x / 65536) % 256) as u8,
            ((x / 16777216) % 256) as u8,
        ];
        hasher.write(&bytes);
        assert(bytes@ =~= le_bytes(x));
        assert(hasher@ =~= old(hasher)@ + self.chunks());
    }
}

impl Fingerprint for u32 {
    open spec fn chunks(&self) -> Seq<Seq<u8>> {
        seq![le_bytes(*self)]
    }

    fn write_to(&self, hasher: &mut DefaultHasher) {
        let x: u32 = *self;
        let bytes: [u8; 4] = [
            (x % 256) as u8,
            ((x / 256) % 256) as u8,
            ((x / 65536) % 256) as u8,
            ((x / 16777216) % 256) as u8,
        ];
        hasher.write(&bytes);
        assert(bytes@ =~= le_bytes(x));
        assert(hasher@ =~= old(hasher)@ + self.chunks());
    }
}

} // verus!
