use vstd::prelude::*;

verus! {

/// `needle` occurs in `haystack` at position `p`.
pub open spec fn occurs_at(haystack: Seq<u8>, needle: Seq<u8>, p: int) -> bool {
    0 <= p && p + needle.len() <= haystack.len() && haystack.subrange(p, p + needle.len()) == needle
}

/// `p` is the first position at which `needle` occurs in `haystack`.
pub open spec fn first_occurrence(haystack: Seq<u8>, needle: Seq<u8>, p: int) -> bool {
    occurs_at(haystack, needle, p) && forall|q: int| 0 <= q < p ==> !occurs_at(haystack, needle, q)
}

/// Adding `b` to a heap holding `before` leaves it holding `after` and
/// returns `offset`: the first place where `b` already occurs, or else the
/// old end, with `b` appended.
pub open spec fn heap_add_result(before: Seq<u8>, b: Seq<u8>, after: Seq<u8>, offset: int) -> bool {
    if exists|q: int| occurs_at(before, b, q) {
        after == before && first_occurrence(before, b, offset)
    } else {
        after == before + b && offset == before.len()
    }
}

/// Relies on memchr::memmem::find: the index of the first occurrence of
/// `needle` in `haystack`, or `None` where it does not occur.
#[verifier::external_body]
fn find_bytes(haystack: &[u8], needle: &[u8]) -> (r: Option<usize>)
    ensures
        r matches Some(p) ==> first_occurrence(haystack@, needle@, p as int),
        r is None ==> forall|q: int| !occurs_at(haystack@, needle@, q),
{
    memchr::memmem::find(haystack, needle)
}

/// An append-only byte buffer for long byte strings, which reuses the place
/// of a string that it already holds.
pub struct Heap {
    pub data: Vec<u8>,
}

impl Heap {
    /// An empty heap.
    pub fn new() -> (r: Self)
        ensures
            r.data@ == Seq::<u8>::empty(),
    {
        Heap { data: Vec::new() }
    }

    /// Stores `b` and returns its offset.
    pub fn add(&mut self, b: &[u8]) -> (r: usize)
        ensures
            heap_add_result(old(self).data@, b@, final(self).data@, r as int),
    {
        match find_bytes(self.data.as_slice(), b) {
            Some(pos) => pos,
            None => {
                let pos = self.data.len();
                let mut i: usize = 0;
                while i < b.len()
                    invariant
                        i <= b@.len(),
                        pos == old(self).data@.len(),
                        self.data@ == old(self).data@ + b@.subrange(0, i as int),
                    decreases b@.len() - i,
                {
                    self.data.push(b[i]);
                    i = i + 1;
                    proof {
                        assert(self.data@ =~= old(self).data@ + b@.subrange(0, i as int));
                    }
                }
                proof {
                    assert(b@.subrange(0, b@.len() as int) =~= b@);
                }
                pos
            },
        }
    }

    /// The `len` bytes at `offset`, where the heap holds that many.
    pub fn get_at(&self, offset: usize, len: usize) -> (r: Option<Vec<u8>>)
        ensures
            r is Some <==> offset + len <= self.data@.len(),
            r matches Some(v) ==> v@ == self.data@.subrange(offset as int, offset + len),
    {
        if offset > self.data.len() || len > self.data.len() - offset {
            return None;
        }
        let mut v: Vec<u8> = Vec::new();
        let mut k: usize = offset;
        let end: usize = offset + len;
        while k < end
            invariant
                offset <= k <= end,
                end == offset + len,
                end <= self.data@.len(),
                v@ == self.data@.subrange(offset as int, k as int),
            decreases end - k,
        {
            v.push(self.data[k]);
            k = k + 1;
            proof {
                assert(v@ =~= self.data@.subrange(offset as int, k as int));
            }
        }
        Some(v)
    }
}

/// Adding to a heap keeps what it held, and the added bytes occur at the
/// returned offset.
pub proof fn lemma_heap_add_extends(before: Seq<u8>, b: Seq<u8>, after: Seq<u8>, off: int)
    requires
        heap_add_result(before, b, after, off),
    ensures
        before.len() <= after.len(),
        after.subrange(0, before.len() as int) == before,
        occurs_at(after, b, off),
        forall|p: int, n: Seq<u8>| occurs_at(before, n, p) ==> occurs_at(after, n, p),
{
    if !exists|q: int| occurs_at(before, b, q) {
        assert(after.subrange(0, before.len() as int) =~= before);
        assert(after.subrange(off, off + b.len()) =~= b);
        assert forall|p: int, n: Seq<u8>| occurs_at(before, n, p) implies occurs_at(after, n, p) by {
            assert(after.subrange(p, p + n.len()) =~= before.subrange(p, p + n.len()));
        }
    } else {
        assert(after.subrange(0, before.len() as int) =~= before);
    }
}

/// The bytes at the offset that `add` returns are the bytes that were added.
pub proof fn law_heap_add_then_get(before: Seq<u8>, b: Seq<u8>, after: Seq<u8>, offset: int)
    requires
        heap_add_result(before, b, after, offset),
    ensures
        offset + b.len() <= after.len(),
        after.subrange(offset, offset + b.len()) == b,
{
    if !exists|q: int| occurs_at(before, b, q) {
        assert(after.subrange(offset, offset + b.len()) =~= b);
    }
}

/// Adding the same bytes a second time changes nothing and returns the same
/// offset, where the first addition returned the first place of those bytes
/// in the heap it left.
pub proof fn law_heap_add_twice(
    before: Seq<u8>,
    b: Seq<u8>,
    mid: Seq<u8>,
    r1: int,
    after: Seq<u8>,
    r2: int,
)
    requires
        heap_add_result(before, b, mid, r1),
        heap_add_result(mid, b, after, r2),
        first_occurrence(mid, b, r1),
    ensures
        after == mid,
        r1 == r2,
{
    assert(occurs_at(mid, b, r1));
    if r2 < r1 {
        assert(!occurs_at(mid, b, r2));
    }
    if r1 < r2 {
        assert(!occurs_at(mid, b, r1));
    }
}

} // verus!
