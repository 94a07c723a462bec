use vstd::prelude::*;

use crate::error::Error;
use crate::heap::{heap_add_result, lemma_heap_add_extends, Heap};

verus! {

/// Byte `i` of `b`, or zero past its end.
pub open spec fn padded_byte(b: Seq<u8>, i: int) -> u8 {
    if 0 <= i < b.len() {
        b[i]
    } else {
        0
    }
}

/// The first eight bytes of `b`, padded with zeros, read as a big-endian
/// integer: so prefixes order as the byte strings do.
pub open spec fn bin_prefix_of(b: Seq<u8>) -> u64 {
    ((padded_byte(b, 0) as u64) << 56u64) | ((padded_byte(b, 1) as u64) << 48u64) | ((
    padded_byte(b, 2) as u64) << 40u64) | ((padded_byte(b, 3) as u64) << 32u64) | ((padded_byte(
        b,
        4,
    ) as u64) << 24u64) | ((padded_byte(b, 5) as u64) << 16u64) | ((padded_byte(b, 6) as u64)
        << 8u64) | (padded_byte(b, 7) as u64)
}

/// The name of what rapidhash (version 1) gives for `b`.
pub uninterp spec fn rapidhash_v1_of(b: Seq<u8>) -> u64;

/// Relies on rapidhash::v1::rapidhash_v1: a hash of the bytes, which depends
/// on them alone.
#[verifier::external_body]
fn rapidhash_bytes(b: &[u8]) -> (r: u64)
    ensures
        r == rapidhash_v1_of(b@),
{
    rapidhash::v1::rapidhash_v1(b)
}

/// A bin longer than this many bytes is large: it is stored in the heap and
/// described by a hash and an offset besides its prefix and length.
pub const BIN_SMALL_MAX: usize = 8;

fn byte_or_zero(b: &[u8], i: usize) -> (r: u8)
    ensures
        r == padded_byte(b@, i as int),
{
    if i < b.len() {
        b[i]
    } else {
        0
    }
}

/// The prefix component of a bin.
pub fn bin_prefix(b: &[u8]) -> (r: i64)
    ensures
        r as u64 == bin_prefix_of(b@),
{
    let p: u64 = ((byte_or_zero(b, 0) as u64) << 56u64) | ((byte_or_zero(b, 1) as u64) << 48u64)
        | ((byte_or_zero(b, 2) as u64) << 40u64) | ((byte_or_zero(b, 3) as u64) << 32u64) | ((
    byte_or_zero(b, 4) as u64) << 24u64) | ((byte_or_zero(b, 5) as u64) << 16u64) | ((
    byte_or_zero(b, 6) as u64) << 8u64) | (byte_or_zero(b, 7) as u64);
    proof {
        assert((p as i64) as u64 == p) by (bit_vector);
    }
    p as i64
}

/// The hash component of a bin: the low sixteen bits of its rapidhash.
pub fn bin_hash(b: &[u8]) -> (r: i64)
    ensures
        r == (rapidhash_v1_of(b@) & 0xffff) as i64,
{
    let h = rapidhash_bytes(b);
    (h & 0xffff) as i64
}

/// The components of a bin for its dictionary chunk: prefix, length, and
/// for a chunk with a large bin, hash and heap offset. Adds the bin to
/// `heap` only where the offset is asked for.
pub fn bin_component(b: &[u8], component: usize, heap: &mut Heap) -> (r: Result<i64, Error>)
    requires
        component < 4,
    ensures
        r is Err ==> r == Err::<i64, Error>(Error::CountTooLarge),
        component == 0 ==> (r matches Ok(v) && v as u64 == bin_prefix_of(b@)),
        component == 1 ==> (r is Ok <==> b@.len() <= i64::MAX),
        component == 1 ==> (r matches Ok(v) ==> v == b@.len()),
        component == 2 ==> r == Ok::<i64, Error>((rapidhash_v1_of(b@) & 0xffff) as i64),
        component < 3 ==> final(heap).data@ == old(heap).data@,
        old(heap).data@.len() <= final(heap).data@.len(),
        final(heap).data@.subrange(0, old(heap).data@.len() as int) == old(heap).data@,
        component == 3 ==> (r is Err ==> old(heap).data@.len() > i64::MAX),
        final(heap).data@.len() <= old(heap).data@.len() + b@.len(),
        component == 3 ==> (r matches Ok(v) ==> heap_add_result(
            old(heap).data@,
            b@,
            final(heap).data@,
            v as int,
        )),
{
    proof {
        assert(heap.data@.subrange(0, heap.data@.len() as int) =~= heap.data@);
    }
    if component == 0 {
        Ok(bin_prefix(b))
    } else if component == 1 {
        if b.len() as u64 > i64::MAX as u64 {
            Err(Error::CountTooLarge)
        } else {
            Ok(b.len() as i64)
        }
    } else if component == 2 {
        Ok(bin_hash(b))
    } else {
        let off = heap.add(b);
        proof {
            lemma_heap_add_extends(old(heap).data@, b@, heap.data@, off as int);
        }
        if off as u64 > i64::MAX as u64 {
            Err(Error::CountTooLarge)
        } else {
            Ok(off as i64)
        }
    }
}

} // verus!
