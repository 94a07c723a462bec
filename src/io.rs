use vstd::prelude::*;

use crate::error::Error;

verus! {

/// Byte `i` of `v`, counted from the least significant.
pub open spec fn byte_of(v: u64, i: int) -> u8 {
    ((v >> ((8 * i) as u64)) & 0xff) as u8
}

/// The `n` low bytes of `v`, least significant first.
pub open spec fn le_bytes(v: u64, n: nat) -> Seq<u8> {
    Seq::new(n, |i: int| byte_of(v, i))
}

/// The pieces of `s` one after another.
pub open spec fn flatten(s: Seq<Seq<u8>>) -> Seq<u8>
    decreases s.len(),
{
    if s.len() == 0 {
        Seq::empty()
    } else {
        flatten(s.drop_last()) + s.last()
    }
}

/// Each value of `s` as `n` little-endian bytes.
pub open spec fn le_u64s(s: Seq<u64>, n: nat) -> Seq<u8> {
    flatten(Seq::new(s.len(), |i: int| le_bytes(s[i], n)))
}

pub open spec fn le_u16s(s: Seq<u16>) -> Seq<u8> {
    le_u64s(Seq::new(s.len(), |i: int| s[i] as u64), 2)
}

pub open spec fn le_i64s(s: Seq<i64>) -> Seq<u8> {
    le_u64s(Seq::new(s.len(), |i: int| s[i] as u64), 8)
}

/// For each code, its big-endian byte `lane`: the high byte for lane 0, the
/// low byte for lane 1.
pub open spec fn be_lane(s: Seq<u16>, lane: int) -> Seq<u8> {
    Seq::new(s.len(), |i: int| if lane == 0 { (s[i] >> 8) as u8 } else { (s[i] & 0xff) as u8 })
}

pub proof fn lemma_flatten_push(s: Seq<Seq<u8>>, x: Seq<u8>)
    ensures
        flatten(s.push(x)) == flatten(s) + x,
{
    assert(s.push(x).drop_last() =~= s);
}

pub proof fn lemma_le_prefix_step(s: Seq<u64>, n: nat, i: int)
    requires
        0 <= i < s.len(),
    ensures
        le_u64s(s.subrange(0, i + 1), n) == le_u64s(s.subrange(0, i), n) + le_bytes(s[i], n),
{
    let a = Seq::new((i + 1) as nat, |k: int| le_bytes(s.subrange(0, i + 1)[k], n));
    let b = Seq::new(i as nat, |k: int| le_bytes(s.subrange(0, i)[k], n));
    assert(a =~= b.push(le_bytes(s[i], n)));
    lemma_flatten_push(b, le_bytes(s[i], n));
}

pub proof fn lemma_le_decode_step(acc: u64, b: u8, i: u64, j: u64)
    requires
        i < 8,
        i == 0 ==> acc == 0,
        i > 0 ==> acc >> ((8 * i) as u64) == 0,
    ensures
        j < i ==> byte_of(acc | ((b as u64) << ((8 * i) as u64)), j as int) == byte_of(acc, j as int),
        byte_of(acc | ((b as u64) << ((8 * i) as u64)), i as int) == b,
        i + 1 < 8 ==> (acc | ((b as u64) << ((8 * i) as u64))) >> ((8 * (i + 1)) as u64) == 0,
{
    let n = acc | ((b as u64) << ((8 * i) as u64));
    assert(j < i ==> (n >> ((8 * j) as u64)) & 0xff == (acc >> ((8 * j) as u64)) & 0xff) by (bit_vector)
        requires
            i < 8,
            i == 0 ==> acc == 0,
            i > 0 ==> acc >> ((8 * i) as u64) == 0,
            n == acc | ((b as u64) << ((8 * i) as u64)),
    ;
    assert((n >> ((8 * i) as u64)) & 0xff == b as u64) by (bit_vector)
        requires
            i < 8,
            i == 0 ==> acc == 0,
            i > 0 ==> acc >> ((8 * i) as u64) == 0,
            n == acc | ((b as u64) << ((8 * i) as u64)),
    ;
    assert(i + 1 < 8 ==> n >> ((8 * (i + 1)) as u64) == 0) by (bit_vector)
        requires
            i < 8,
            i == 0 ==> acc == 0,
            i > 0 ==> acc >> ((8 * i) as u64) == 0,
            n == acc | ((b as u64) << ((8 * i) as u64)),
    ;
}

/// One labelled byte range of written content.
pub struct Annotation {
    pub start: usize,
    pub end: usize,
    pub labels: Vec<String>,
}

/// A stack of context labels and the labelled byte ranges recorded under it,
/// for a labelled dump of written content.
pub struct Annotations {
    pub context: Vec<String>,
    pub records: Vec<Annotation>,
}

pub open spec fn strings_view(s: Seq<String>) -> Seq<Seq<char>> {
    Seq::new(s.len(), |i: int| s[i]@)
}

impl Annotations {
    /// No context and no records.
    pub fn new() -> (r: Self)
        ensures
            r.context@.len() == 0,
            r.records@.len() == 0,
    {
        Annotations { context: Vec::new(), records: Vec::new() }
    }

    /// Enters a context named `name`.
    pub fn push_context(&mut self, name: String)
        ensures
            final(self).context@ == old(self).context@.push(name),
            final(self).records@ == old(self).records@,
    {
        self.context.push(name);
    }

    /// Leaves the innermost context, if any.
    pub fn pop_context(&mut self)
        ensures
            final(self).context@ == if old(self).context@.len() > 0 {
                old(self).context@.drop_last()
            } else {
                old(self).context@
            },
            final(self).records@ == old(self).records@,
    {
        self.context.pop();
    }

    /// Records that bytes `start..end` hold the field `name` of the current
    /// context.
    pub fn annotate(&mut self, start: usize, end: usize, name: String)
        ensures
            final(self).context@ == old(self).context@,
            final(self).records@.len() == old(self).records@.len() + 1,
            final(self).records@.subrange(0, old(self).records@.len() as int) == old(self).records@,
            final(self).records@.last().start == start,
            final(self).records@.last().end == end,
            strings_view(final(self).records@.last().labels@) == strings_view(
                old(self).context@.push(name),
            ),
    {
        let mut labels: Vec<String> = Vec::new();
        let mut i: usize = 0;
        while i < self.context.len()
            invariant
                i <= self.context@.len(),
                labels@ == self.context@.subrange(0, i as int),
            decreases self.context@.len() - i,
        {
            labels.push(self.context[i].clone());
            i = i + 1;
            proof {
                assert(labels@ =~= self.context@.subrange(0, i as int));
            }
        }
        let ghost before = labels@;
        labels.push(name);
        proof {
            assert(before =~= self.context@);
            assert(labels@ =~= self.context@.push(name));
        }
        let ghost old_records = self.records@;
        self.records.push(Annotation { start, end, labels });
        proof {
            assert(self.records@.subrange(0, old_records.len() as int) =~= old_records);
        }
    }
}

/// An in-memory writer: bytes are appended at the end.
pub struct MemWriter {
    buf: Vec<u8>,
    annotations: Annotations,
}

impl View for MemWriter {
    type V = Seq<u8>;

    closed spec fn view(&self) -> Seq<u8> {
        self.buf@
    }
}

impl MemWriter {
    /// An empty writer.
    pub fn new() -> (r: Self)
        ensures
            r@ == Seq::<u8>::empty(),
    {
        MemWriter { buf: Vec::new(), annotations: Annotations::new() }
    }

    /// The number of bytes written, which is the position of the next.
    pub fn pos(&self) -> (r: Result<i64, Error>)
        ensures
            r is Ok <==> self@.len() <= i64::MAX,
            r matches Ok(p) ==> p == self@.len(),
            r matches Err(e) ==> e == Error::CountTooLarge,
    {
        if self.buf.len() as u64 > i64::MAX as u64 {
            Err(Error::CountTooLarge)
        } else {
            Ok(self.buf.len() as i64)
        }
    }

    /// The labelled ranges recorded so far.
    pub fn get_annotations(&self) -> &Annotations {
        &self.annotations
    }

    /// Enters a labelling context.
    pub fn push_context(&mut self, name: &str)
        ensures
            final(self)@ == old(self)@,
    {
        self.annotations.push_context(name.to_owned());
    }

    /// Enters a labelling context named by a number.
    pub fn push_context_num(&mut self, n: usize)
        ensures
            final(self)@ == old(self)@,
    {
        self.annotations.push_context(n.to_string());
    }

    /// Leaves the innermost labelling context.
    pub fn pop_context(&mut self)
        ensures
            final(self)@ == old(self)@,
    {
        self.annotations.pop_context();
    }

    fn annotate_from(&mut self, name: &str, start: usize)
        ensures
            final(self)@ == old(self)@,
    {
        let end = self.buf.len();
        self.annotations.annotate(start, end, name.to_owned());
    }

    fn write_byte(&mut self, b: u8)
        ensures
            final(self)@ == old(self)@.push(b),
    {
        self.buf.push(b);
    }

    fn write_le(&mut self, v: u64, n: usize)
        requires
            n <= 8,
        ensures
            final(self)@ == old(self)@ + le_bytes(v, n as nat),
    {
        let mut i: usize = 0;
        while i < n
            invariant
                n <= 8,
                i <= n,
                self@ == old(self)@ + le_bytes(v, i as nat),
            decreases n - i,
        {
            let b = ((v >> (8 * i as u64)) & 0xff) as u8;
            self.write_byte(b);
            i = i + 1;
            proof {
                assert(self@ =~= old(self)@ + le_bytes(v, i as nat));
            }
        }
    }

    /// Writes `bytes` as the field `name`.
    pub fn write_annotated_byte_slice(&mut self, name: &str, bytes: &[u8])
        ensures
            final(self)@ == old(self)@ + bytes@,
    {
        let start = self.buf.len();
        let mut i: usize = 0;
        while i < bytes.len()
            invariant
                i <= bytes@.len(),
                self@ == old(self)@ + bytes@.subrange(0, i as int),
            decreases bytes@.len() - i,
        {
            self.write_byte(bytes[i]);
            i = i + 1;
            proof {
                assert(self@ =~= old(self)@ + bytes@.subrange(0, i as int));
            }
        }
        proof {
            assert(bytes@.subrange(0, bytes@.len() as int) =~= bytes@);
        }
        self.annotate_from(name, start);
    }

    /// Writes `v` as two little-endian bytes.
    pub fn write_annotated_le_u16(&mut self, name: &str, v: u16)
        ensures
            final(self)@ == old(self)@ + le_bytes(v as u64, 2),
    {
        let start = self.buf.len();
        self.write_le(v as u64, 2);
        self.annotate_from(name, start);
    }

    /// Writes `v` as eight little-endian bytes.
    pub fn write_annotated_le_i64(&mut self, name: &str, v: i64)
        ensures
            final(self)@ == old(self)@ + le_bytes(v as u64, 8),
    {
        let start = self.buf.len();
        self.write_le(v as u64, 8);
        self.annotate_from(name, start);
    }

    /// Writes `v` as eight little-endian bytes.
    pub fn write_annotated_le_u64(&mut self, name: &str, v: u64)
        ensures
            final(self)@ == old(self)@ + le_bytes(v, 8),
    {
        let start = self.buf.len();
        self.write_le(v, 8);
        self.annotate_from(name, start);
    }

    /// Writes each of `vals` as `n` little-endian bytes.
    fn write_le_u64_slice(&mut self, vals: &[u64], n: usize)
        requires
            n <= 8,
        ensures
            final(self)@ == old(self)@ + le_u64s(vals@, n as nat),
    {
        let mut i: usize = 0;
        proof {
            assert(Seq::new(0, |k: int| le_bytes(vals@.subrange(0, 0)[k], n as nat)) =~= Seq::<Seq<u8>>::empty());
            assert(old(self)@ + le_u64s(vals@.subrange(0, 0), n as nat) =~= old(self)@);
        }
        while i < vals.len()
            invariant
                n <= 8,
                i <= vals@.len(),
                self@ == old(self)@ + le_u64s(vals@.subrange(0, i as int), n as nat),
            decreases vals@.len() - i,
        {
            self.write_le(vals[i], n);
            proof {
                lemma_le_prefix_step(vals@, n as nat, i as int);
                assert(self@ =~= old(self)@ + le_u64s(vals@.subrange(0, i + 1), n as nat));
            }
            i = i + 1;
        }
        proof {
            assert(vals@.subrange(0, vals@.len() as int) =~= vals@);
        }
    }

    /// Writes each of `vals` as two little-endian bytes.
    pub fn write_annotated_le_u16_slice(&mut self, name: &str, vals: &[u16])
        ensures
            final(self)@ == old(self)@ + le_u16s(vals@),
    {
        let start = self.buf.len();
        let mut wide: Vec<u64> = Vec::new();
        let mut i: usize = 0;
        while i < vals.len()
            invariant
                i <= vals@.len(),
                wide@ == Seq::new(i as nat, |k: int| vals@[k] as u64),
            decreases vals@.len() - i,
        {
            wide.push(vals[i] as u64);
            i = i + 1;
            proof {
                assert(wide@ =~= Seq::new(i as nat, |k: int| vals@[k] as u64));
            }
        }
        self.write_le_u64_slice(wide.as_slice(), 2);
        self.annotate_from(name, start);
    }

    /// Writes each of `vals` as eight little-endian bytes.
    pub fn write_annotated_le_i64_slice(&mut self, name: &str, vals: &[i64])
        ensures
            final(self)@ == old(self)@ + le_i64s(vals@),
    {
        let start = self.buf.len();
        let mut wide: Vec<u64> = Vec::new();
        let mut i: usize = 0;
        while i < vals.len()
            invariant
                i <= vals@.len(),
                wide@ == Seq::new(i as nat, |k: int| vals@[k] as u64),
            decreases vals@.len() - i,
        {
            wide.push(vals[i] as u64);
            i = i + 1;
            proof {
                assert(wide@ =~= Seq::new(i as nat, |k: int| vals@[k] as u64));
            }
        }
        self.write_le_u64_slice(wide.as_slice(), 8);
        self.annotate_from(name, start);
    }

    /// Writes each of `vals` as eight little-endian bytes.
    pub fn write_annotated_le_u64_slice(&mut self, name: &str, vals: &[u64])
        ensures
            final(self)@ == old(self)@ + le_u64s(vals@, 8),
    {
        let start = self.buf.len();
        self.write_le_u64_slice(vals, 8);
        self.annotate_from(name, start);
    }

    /// Writes the low `n` bytes of each of `vals`.
    pub fn write_annotated_le_wordty_slice(&mut self, name: &str, vals: &[u64], n: usize)
        requires
            n <= 8,
        ensures
            final(self)@ == old(self)@ + le_u64s(vals@, n as nat),
    {
        let start = self.buf.len();
        self.write_le_u64_slice(vals, n);
        self.annotate_from(name, start);
    }

    /// Writes big-endian byte `lane` of each of `vals`.
    pub fn write_be_lane_of_annotated_num_slice(&mut self, name: &str, lane: u8, vals: &[u16])
        requires
            lane < 2,
        ensures
            final(self)@ == old(self)@ + be_lane(vals@, lane as int),
    {
        let start = self.buf.len();
        let mut i: usize = 0;
        while i < vals.len()
            invariant
                lane < 2,
                i <= vals@.len(),
                self@ == old(self)@ + be_lane(vals@.subrange(0, i as int), lane as int),
            decreases vals@.len() - i,
        {
            let v = vals[i];
            let b: u8 = if lane == 0 {
                (v >> 8) as u8
            } else {
                (v & 0xff) as u8
            };
            self.write_byte(b);
            i = i + 1;
            proof {
                assert(self@ =~= old(self)@ + be_lane(vals@.subrange(0, i as int), lane as int));
            }
        }
        proof {
            assert(vals@.subrange(0, vals@.len() as int) =~= vals@);
        }
        self.annotate_from(name, start);
    }

    /// Ends a footer that began at `start`: writes the distance from `start`
    /// to here as eight little-endian bytes.
    pub fn write_len_of_footer_starting_at(&mut self, start: i64) -> (r: Result<(), Error>)
        requires
            start >= 0,
        ensures
            r is Ok <==> (old(self)@.len() <= i64::MAX && start <= old(self)@.len()),
            r matches Err(e) ==> (e == Error::CountTooLarge && old(self)@.len() > i64::MAX) || (
            e == Error::NegativeFooterLen && old(self)@.len() <= i64::MAX && start
                > old(self)@.len()),
            r is Ok ==> final(self)@ == old(self)@ + le_bytes(
                (old(self)@.len() - start) as i64 as u64,
                8,
            ),
            r is Err ==> final(self)@ == old(self)@,
    {
        let pos = self.pos()?;
        if pos < start {
            return Err(Error::NegativeFooterLen);
        }
        let len: i64 = pos - start;
        self.write_annotated_le_i64("self_len", len);
        Ok(())
    }

    /// The bytes written.
    pub fn into_bytes(self) -> (r: Vec<u8>)
        ensures
            r@ == self@,
    {
        self.buf
    }

    /// A reader over the bytes written, at their start.
    pub fn try_into_reader(self) -> (r: MemReader)
        ensures
            r.content() == self@,
            r.position() == 0,
    {
        MemReader { mem: self.buf, pos: 0 }
    }
}

/// An in-memory reader: the content and a position in it.
pub struct MemReader {
    mem: Vec<u8>,
    pos: usize,
}

impl MemReader {
    pub closed spec fn content(&self) -> Seq<u8> {
        self.mem@
    }

    pub closed spec fn position(&self) -> int {
        self.pos as int
    }

    pub proof fn lemma_position_nonneg(&self)
        ensures
            0 <= self.position(),
    {
    }

    /// A reader over `bytes`, at their start.
    pub fn new(bytes: Vec<u8>) -> (r: Self)
        ensures
            r.content() == bytes@,
            r.position() == 0,
    {
        MemReader { mem: bytes, pos: 0 }
    }

    /// A reader over the same content with a position of its own, at the
    /// start.
    pub fn try_clone_independent(&self) -> (r: Self)
        ensures
            r.content() == self.content(),
            r.position() == 0,
    {
        let mut mem: Vec<u8> = Vec::new();
        let mut i: usize = 0;
        while i < self.mem.len()
            invariant
                i <= self.mem@.len(),
                mem@ == self.mem@.subrange(0, i as int),
            decreases self.mem@.len() - i,
        {
            mem.push(self.mem[i]);
            i = i + 1;
            proof {
                assert(mem@ =~= self.mem@.subrange(0, i as int));
            }
        }
        proof {
            assert(self.mem@.subrange(0, self.mem@.len() as int) =~= self.mem@);
        }
        MemReader { mem, pos: 0 }
    }

    /// The length of the content.
    pub fn len(&self) -> (r: usize)
        ensures
            r == self.content().len(),
    {
        self.mem.len()
    }

    /// The position of the next byte to read.
    pub fn pos(&self) -> (r: usize)
        ensures
            r == self.position(),
    {
        self.pos
    }

    /// Moves to position `pos`, which may lie past the end.
    pub fn seek(&mut self, pos: usize)
        ensures
            final(self).content() == old(self).content(),
            final(self).position() == pos,
    {
        self.pos = pos;
    }

    /// Moves to the start.
    pub fn rewind(&mut self)
        ensures
            final(self).content() == old(self).content(),
            final(self).position() == 0,
    {
        self.pos = 0;
    }

    /// Reads the next `n` bytes.
    pub fn read_exact(&mut self, n: usize) -> (r: Result<Vec<u8>, Error>)
        ensures
            final(self).content() == old(self).content(),
            r is Ok <==> old(self).position() + n <= old(self).content().len(),
            r matches Ok(b) ==> b@ == old(self).content().subrange(
                old(self).position(),
                old(self).position() + n,
            ) && final(self).position() == old(self).position() + n,
            r matches Err(e) ==> e == Error::UnexpectedEof && final(self).position() == old(self).position(),
    {
        if self.pos > self.mem.len() || n > self.mem.len() - self.pos {
            return Err(Error::UnexpectedEof);
        }
        let p = self.pos;
        let end: usize = p + n;
        let mut out: Vec<u8> = Vec::new();
        let mut k: usize = p;
        while k < end
            invariant
                p == self.pos,
                end == p + n,
                end <= self.mem@.len(),
                p <= k <= end,
                out@ == self.mem@.subrange(p as int, k as int),
            decreases end - k,
        {
            out.push(self.mem[k]);
            k = k + 1;
            proof {
                assert(out@ =~= self.mem@.subrange(p as int, k as int));
            }
        }
        self.pos = self.pos + n;
        Ok(out)
    }

    /// Reads `n` little-endian bytes as an unsigned integer.
    fn read_le(&mut self, n: usize) -> (r: Result<u64, Error>)
        requires
            1 <= n <= 8,
        ensures
            final(self).content() == old(self).content(),
            r is Ok <==> old(self).position() + n <= old(self).content().len(),
            r matches Ok(v) ==> le_bytes(v, n as nat) == old(self).content().subrange(
                old(self).position(),
                old(self).position() + n,
            ) && final(self).position() == old(self).position() + n && (n < 8 ==> v >> ((8 * n) as u64) == 0),
            r matches Err(e) ==> e == Error::UnexpectedEof,
    {
        let bytes = self.read_exact(n)?;
        let mut acc: u64 = 0;
        let mut i: usize = 0;
        while i < n
            invariant
                1 <= n <= 8,
                i <= n,
                bytes@.len() == n,
                i == 0 ==> acc == 0,
                0 < i < 8 ==> acc >> ((8 * i) as u64) == 0,
                forall|j: int| 0 <= j < i ==> #[trigger] byte_of(acc, j) == bytes@[j],
            decreases n - i,
        {
            let b = bytes[i];
            let ghost prev = acc;
            acc = acc | ((b as u64) << ((8 * i) as u64));
            proof {
                lemma_le_decode_step(prev, b, i as u64, 0);
                assert forall|j: int| 0 <= j < i + 1 implies #[trigger] byte_of(acc, j) == bytes@[j] by {
                    lemma_le_decode_step(prev, b, i as u64, j as u64);
                }
            }
            i = i + 1;
        }
        proof {
            assert(le_bytes(acc, n as nat) =~= bytes@);
        }
        Ok(acc)
    }

    /// Reads a little-endian `u16`.
    pub fn read_le_u16(&mut self) -> (r: Result<u16, Error>)
        ensures
            final(self).content() == old(self).content(),
            r is Ok <==> old(self).position() + 2 <= old(self).content().len(),
            r matches Ok(v) ==> le_bytes(v as u64, 2) == old(self).content().subrange(
                old(self).position(),
                old(self).position() + 2,
            ) && final(self).position() == old(self).position() + 2,
            r matches Err(e) ==> e == Error::UnexpectedEof,
    {
        let v = self.read_le(2)?;
        proof {
            assert(v >> 16 == 0 ==> (v as u16) as u64 == v) by (bit_vector);
        }
        Ok(v as u16)
    }

    /// Reads a little-endian `i64`.
    pub fn read_le_i64(&mut self) -> (r: Result<i64, Error>)
        ensures
            final(self).content() == old(self).content(),
            r is Ok <==> old(self).position() + 8 <= old(self).content().len(),
            r matches Ok(v) ==> le_bytes(v as u64, 8) == old(self).content().subrange(
                old(self).position(),
                old(self).position() + 8,
            ) && final(self).position() == old(self).position() + 8,
            r matches Ok(v) ==> v == i64_at(old(self).content(), old(self).position()),
            r matches Err(e) ==> e == Error::UnexpectedEof,
    {
        let v = self.read_le(8)?;
        proof {
            assert((v as i64) as u64 == v) by (bit_vector);
            lemma_le_u64_of_bytes(v);
        }
        Ok(v as i64)
    }

    /// Reads a little-endian `u64`.
    pub fn read_le_u64(&mut self) -> (r: Result<u64, Error>)
        ensures
            final(self).content() == old(self).content(),
            r is Ok <==> old(self).position() + 8 <= old(self).content().len(),
            r matches Ok(v) ==> le_bytes(v, 8) == old(self).content().subrange(
                old(self).position(),
                old(self).position() + 8,
            ) && final(self).position() == old(self).position() + 8,
            r matches Err(e) ==> e == Error::UnexpectedEof,
    {
        self.read_le(8)
    }

    /// Reads `n` values of `width` little-endian bytes each.
    fn read_le_vec(&mut self, n: usize, width: usize) -> (r: Result<Vec<u64>, Error>)
        requires
            1 <= width <= 8,
        ensures
            final(self).content() == old(self).content(),
            r is Ok <==> old(self).position() + n * width <= old(self).content().len(),
            r matches Ok(v) ==> v@.len() == n && le_u64s(v@, width as nat) == old(self).content().subrange(
                old(self).position(),
                old(self).position() + n * width,
            ) && final(self).position() == old(self).position() + n * width,
            r matches Ok(v) ==> width < 8 ==> forall|k: int| 0 <= k < n ==> #[trigger] v@[k] >> ((8 * width) as u64) == 0,
            r matches Ok(v) ==> width == 8 ==> forall|k: int| 0 <= k < n ==> #[trigger] v@[k] == le_u64_of(
                old(self).content().subrange(old(self).position() + 8 * k, old(self).position() + 8 * k + 8),
            ),
            r matches Err(e) ==> e == Error::UnexpectedEof,
    {
        let len = self.mem.len();
        if self.pos > len {
            return Err(Error::UnexpectedEof);
        }
        let room: usize = (len - self.pos) / width;
        if n > room {
            proof {
                let rest = len - self.pos;
                assert(n * width > rest) by (nonlinear_arith)
                    requires
                        n > room,
                        room == rest / (width as int),
                        width >= 1,
                        rest >= 0,
                ;
            }
            return Err(Error::UnexpectedEof);
        }
        proof {
            let rest = len - self.pos;
            assert(n * width <= rest) by (nonlinear_arith)
                requires
                    n <= room,
                    room == rest / (width as int),
                    width >= 1,
                    rest >= 0,
            ;
        }
        let ghost start = self.position();
        let ghost content = self.content();
        let mut v: Vec<u64> = Vec::new();
        let mut i: usize = 0;
        proof {
            assert(le_u64s(v@, width as nat) =~= Seq::<u8>::empty()) by {
                assert(Seq::new(0, |k: int| le_bytes(v@[k], width as nat)) =~= Seq::<Seq<u8>>::empty());
            }
            assert(content.subrange(start, start) =~= Seq::<u8>::empty());
        }
        while i < n
            invariant
                1 <= width <= 8,
                i <= n,
                v@.len() == i,
                self.content() == content,
                self.position() == start + i * width,
                0 <= start,
                start + n * width <= content.len(),
                le_u64s(v@, width as nat) == content.subrange(start, start + i * width),
                width < 8 ==> forall|k: int| 0 <= k < i ==> #[trigger] v@[k] >> ((8 * width) as u64) == 0,
                width == 8 ==> forall|k: int| 0 <= k < i ==> #[trigger] v@[k] == le_u64_of(
                    content.subrange(start + 8 * k, start + 8 * k + 8),
                ),
            decreases n - i,
        {
            proof {
                assert(start + (i + 1) * width == start + i * width + width) by (nonlinear_arith);
                assert(start + (i + 1) * width <= start + n * width) by (nonlinear_arith)
                    requires
                        i < n,
                        width >= 1,
                ;
            }
            let res = self.read_le(width);
            let x = match res {
                Ok(x) => x,
                Err(e) => {
                    return Err(e);
                },
            };
            proof {
                if width == 8 {
                    lemma_le_u64_of_bytes(x);
                    assert(start + i * width == start + 8 * i);
                }
            }
            let ghost before = v@;
            v.push(x);
            proof {
                assert(v@.subrange(0, i as int) =~= before);
                assert(v@.subrange(0, i + 1) =~= v@);
                lemma_le_prefix_step(v@, width as nat, i as int);
                let a = start + i * width;
                let b = a + width;
                assert(start + (i + 1) * width == b) by (nonlinear_arith)
                    requires
                        a == start + i * width,
                        b == a + width,
                ;
                assert(i * width >= 0) by (nonlinear_arith)
                    requires
                        i >= 0,
                        width >= 1,
                ;
                assert(b <= content.len());
                assert(0 <= start);
                assert(start <= a);
                assert(a <= b);
                assert(content.subrange(start, b) =~= content.subrange(start, a) + content.subrange(a, b));
            }
            i = i + 1;
        }
        Ok(v)
    }

    /// Reads `n` little-endian `u16`s.
    pub fn read_le_u16_vec(&mut self, n: usize) -> (r: Result<Vec<u16>, Error>)
        ensures
            final(self).content() == old(self).content(),
            r is Ok <==> old(self).position() + n * 2 <= old(self).content().len(),
            r matches Ok(v) ==> v@.len() == n && le_u16s(v@) == old(self).content().subrange(
                old(self).position(),
                old(self).position() + n * 2,
            ) && final(self).position() == old(self).position() + n * 2,
            r matches Err(e) ==> e == Error::UnexpectedEof,
    {
        let wide = self.read_le_vec(n, 2)?;
        let mut v: Vec<u16> = Vec::new();
        let mut i: usize = 0;
        while i < wide.len()
            invariant
                i <= wide@.len(),
                wide@.len() == n,
                forall|k: int| 0 <= k < n ==> #[trigger] wide@[k] >> 16u64 == 0,
                v@.len() == i,
                forall|k: int| 0 <= k < i ==> (#[trigger] v@[k]) as u64 == wide@[k],
            decreases wide@.len() - i,
        {
            let x = wide[i];
            proof {
                assert(x >> 16u64 == 0 ==> (x as u16) as u64 == x) by (bit_vector);
            }
            v.push(x as u16);
            i = i + 1;
        }
        proof {
            assert(Seq::new(v@.len(), |k: int| v@[k] as u64) =~= wide@);
        }
        Ok(v)
    }

    /// Reads `n` little-endian `i64`s.
    pub fn read_le_i64_vec(&mut self, n: usize) -> (r: Result<Vec<i64>, Error>)
        ensures
            final(self).content() == old(self).content(),
            r is Ok <==> old(self).position() + n * 8 <= old(self).content().len(),
            r matches Ok(v) ==> v@.len() == n && le_i64s(v@) == old(self).content().subrange(
                old(self).position(),
                old(self).position() + n * 8,
            ) && final(self).position() == old(self).position() + n * 8,
            r matches Err(e) ==> e == Error::UnexpectedEof,
    {
        let wide = self.read_le_vec(n, 8)?;
        let mut v: Vec<i64> = Vec::new();
        let mut i: usize = 0;
        while i < wide.len()
            invariant
                i <= wide@.len(),
                wide@.len() == n,
                v@.len() == i,
                forall|k: int| 0 <= k < i ==> (#[trigger] v@[k]) as u64 == wide@[k],
            decreases wide@.len() - i,
        {
            let x = wide[i];
            proof {
                assert((x as i64) as u64 == x) by (bit_vector);
            }
            v.push(x as i64);
            i = i + 1;
        }
        proof {
            assert(Seq::new(v@.len(), |k: int| v@[k] as u64) =~= wide@);
        }
        Ok(v)
    }

    /// Reads `n` little-endian `u64`s.
    pub fn read_le_u64_vec(&mut self, n: usize) -> (r: Result<Vec<u64>, Error>)
        ensures
            final(self).content() == old(self).content(),
            r is Ok <==> old(self).position() + n * 8 <= old(self).content().len(),
            r matches Ok(v) ==> v@.len() == n && le_u64s(v@, 8) == old(self).content().subrange(
                old(self).position(),
                old(self).position() + n * 8,
            ) && final(self).position() == old(self).position() + n * 8,
            r matches Ok(v) ==> forall|k: int| 0 <= k < n ==> #[trigger] v@[k] == le_u64_of(
                old(self).content().subrange(old(self).position() + 8 * k, old(self).position() + 8 * k + 8),
            ),
            r matches Err(e) ==> e == Error::UnexpectedEof,
    {
        self.read_le_vec(n, 8)
    }

    /// Reads the length `len` of a footer whose length word ends at `end`,
    /// and moves to the footer's start, `end - 8 - len`.
    pub fn read_footer_len_ending_at_pos_and_rewind_to_start(&mut self, end: i64) -> (r: Result<i64, Error>)
        ensures
            final(self).content() == old(self).content(),
            r is Ok <==> footer_ok(old(self).content(), end as int),
            r matches Ok(len) ==> len >= 0 && le_bytes(len as u64, 8) == old(self).content().subrange(end - 8, end as int)
                && final(self).position() == end - 8 - len && len == footer_len_at(old(self).content(), end as int),
            r matches Err(e) ==> footer_error(old(self).content(), end as int) == Some(e),
    {
        if end < 8 {
            return Err(Error::FooterSeekUnderflow);
        }
        let at: i64 = end - 8;
        let total = self.len();
        if at as u64 > usize::MAX as u64 {
            return Err(Error::UnexpectedEof);
        }
        self.seek(at as usize);
        let len = self.read_le_i64()?;
        proof {
            lemma_le_u64_of_bytes(len as u64);
            assert((len as u64) as i64 == len) by (bit_vector);
        }
        if len < 0 {
            return Err(Error::NegativeFooterLen);
        }
        if len > at {
            return Err(Error::FooterSeekUnderflow);
        }
        let start: i64 = at - len;
        self.seek(start as usize);
        Ok(len)
    }
}

/// The length word of a footer ending at `end`, where `content` holds it.
pub open spec fn footer_len_at(content: Seq<u8>, end: int) -> int {
    le_u64_of(content.subrange(end - 8, end)) as i64 as int
}

/// The `i64` stored little-endian at position `p` of `content`.
pub open spec fn i64_at(content: Seq<u8>, p: int) -> i64 {
    le_u64_of(content.subrange(p, p + 8)) as i64
}

/// The integer whose eight little-endian bytes are `w`.
pub open spec fn le_u64_of(w: Seq<u8>) -> u64 {
    (w[0] as u64) | ((w[1] as u64) << 8u64) | ((w[2] as u64) << 16u64) | ((w[3] as u64) << 24u64)
        | ((w[4] as u64) << 32u64) | ((w[5] as u64) << 40u64) | ((w[6] as u64) << 48u64) | ((
    w[7] as u64) << 56u64)
}

proof fn lemma_byte_of_small(v: u64, i: int)
    requires
        0 <= i < 8,
    ensures
        byte_of(v, i) as u64 == (v >> ((8 * i) as u64)) & 0xff,
{
    let s = (8 * i) as u64;
    assert((v >> s) & 0xff <= 0xff) by (bit_vector);
}

/// Eight little-endian bytes determine their integer.
pub proof fn lemma_le_u64_of_bytes(v: u64)
    ensures
        le_u64_of(le_bytes(v, 8)) == v,
{
    let w = le_bytes(v, 8);
    lemma_byte_of_small(v, 0);
    lemma_byte_of_small(v, 1);
    lemma_byte_of_small(v, 2);
    lemma_byte_of_small(v, 3);
    lemma_byte_of_small(v, 4);
    lemma_byte_of_small(v, 5);
    lemma_byte_of_small(v, 6);
    lemma_byte_of_small(v, 7);
    assert(v == ((v >> 0u64) & 0xff) | (((v >> 8u64) & 0xff) << 8u64) | (((v >> 16u64) & 0xff)
        << 16u64) | (((v >> 24u64) & 0xff) << 24u64) | (((v >> 32u64) & 0xff) << 32u64) | (((v
        >> 40u64) & 0xff) << 40u64) | (((v >> 48u64) & 0xff) << 48u64) | (((v >> 56u64) & 0xff)
        << 56u64)) by (bit_vector);
}

/// Why a footer ending at `end` cannot be read from `content`, if it cannot.
pub open spec fn footer_error(content: Seq<u8>, end: int) -> Option<Error> {
    if end < 8 {
        Some(Error::FooterSeekUnderflow)
    } else if end > content.len() {
        Some(Error::UnexpectedEof)
    } else if footer_len_at(content, end) < 0 {
        Some(Error::NegativeFooterLen)
    } else if footer_len_at(content, end) > end - 8 {
        Some(Error::FooterSeekUnderflow)
    } else {
        None
    }
}

pub open spec fn footer_ok(content: Seq<u8>, end: int) -> bool {
    footer_error(content, end) is None
}

} // verus!
