use crate::bytes::{be_bytes, be_u32, lemma_be_round_trip, read_be_u32};
use crate::error::PngError;
use vstd::prelude::*;

verus! {

/// Type code of the image header chunk.
pub const IHDR: u32 = 0x4948_4452;
/// Type code of an image data chunk.
pub const IDAT: u32 = 0x4944_4154;
/// Type code of the terminal chunk.
pub const IEND: u32 = 0x4945_4E44;

/// The CRC-32 of a byte sequence, as PNG stores it after each chunk.
pub uninterp spec fn crc_of(s: Seq<u8>) -> u32;

/// Relies on `crc32fast::hash`: the CRC-32 of `buf[start..end]`, a function of those bytes alone.
#[verifier::external_body]
pub(crate) fn crc32_range(buf: &[u8], start: usize, end: usize) -> (r: u32)
    requires
        start <= end <= buf@.len(),
    ensures
        r == crc_of(buf@.subrange(start as int, end as int)),
{
    crc32fast::hash(&buf[start..end])
}

/// The chunks of a chunk stream (the bytes after the signature), as (type, data) pairs,
/// up to and including `IEND`. Framing that runs past the end is `Truncated`; a stored
/// CRC that differs from the CRC of type and data, or an `IEND` with data, is `Corrupt`.
pub open spec fn chunks_of(s: Seq<u8>) -> Result<Seq<(u32, Seq<u8>)>, PngError>
    decreases s.len(),
{
    if s.len() < 12 {
        Err(PngError::Truncated)
    } else {
        let len = be_u32(s.subrange(0, 4)) as int;
        if s.len() < len + 12 {
            Err(PngError::Truncated)
        } else {
            let typ = be_u32(s.subrange(4, 8));
            let data = s.subrange(8, 8 + len);
            if be_u32(s.subrange(8 + len, 12 + len)) != crc_of(s.subrange(4, 8 + len)) {
                Err(PngError::Corrupt)
            } else if typ == IEND {
                if len == 0 {
                    Ok(seq![(typ, data)])
                } else {
                    Err(PngError::Corrupt)
                }
            } else {
                match chunks_of(s.subrange(12 + len, s.len() as int)) {
                    Ok(rest) => Ok(seq![(typ, data)] + rest),
                    Err(e) => Err(e),
                }
            }
        }
    }
}

/// The bytes of one chunk: length, type, data and the CRC of type and data.
pub open spec fn chunk_bytes(typ: u32, data: Seq<u8>) -> Seq<u8> {
    be_bytes(data.len() as u32) + be_bytes(typ) + data + be_bytes(crc_of(be_bytes(typ) + data))
}

/// The chunk stream made of the given chunks, in order.
pub open spec fn encode_chunks(cs: Seq<(u32, Seq<u8>)>) -> Seq<u8>
    decreases cs.len(),
{
    if cs.len() == 0 {
        Seq::empty()
    } else {
        chunk_bytes(cs[0].0, cs[0].1) + encode_chunks(cs.drop_first())
    }
}

/// A chunk list that can be written and read back: it ends with an empty `IEND`, has no
/// other `IEND`, and every data length fits the 32-bit length field.
pub open spec fn well_framed(cs: Seq<(u32, Seq<u8>)>) -> bool {
    &&& cs.len() >= 1
    &&& cs.last() == (IEND, Seq::<u8>::empty())
    &&& forall|i: int| 0 <= i < cs.len() - 1 ==> #[trigger] cs[i].0 != IEND
    &&& forall|i: int| 0 <= i < cs.len() ==> #[trigger] cs[i].1.len() <= u32::MAX
}

/// Reading back a written chunk stream gives the chunks that were written, each with a
/// CRC that checks.
pub proof fn lemma_read_written(cs: Seq<(u32, Seq<u8>)>)
    requires
        well_framed(cs),
    ensures
        chunks_of(encode_chunks(cs)) == Ok::<Seq<(u32, Seq<u8>)>, PngError>(cs),
    decreases cs.len(),
{
    let typ = cs[0].0;
    let data = cs[0].1;
    let len = data.len() as int;
    let tb = be_bytes(typ);
    let head = chunk_bytes(typ, data);
    let rest = encode_chunks(cs.drop_first());
    let s = encode_chunks(cs);
    assert(s == head + rest);
    lemma_be_round_trip(len as u32);
    lemma_be_round_trip(typ);
    lemma_be_round_trip(crc_of(tb + data));
    assert(s.subrange(0, 4) =~= be_bytes(len as u32));
    assert(s.subrange(4, 8) =~= tb);
    assert(s.subrange(8, 8 + len) =~= data);
    assert(s.subrange(4, 8 + len) =~= tb + data);
    assert(s.subrange(8 + len, 12 + len) =~= be_bytes(crc_of(tb + data)));
    assert(s.subrange(12 + len, s.len() as int) =~= rest);
    if cs.len() == 1 {
        assert(cs[0] == (IEND, Seq::<u8>::empty()));
        assert(seq![(typ, data)] =~= cs);
    } else {
        let tail = cs.drop_first();
        assert(cs[0].0 != IEND);
        assert(well_framed(tail)) by {
            assert forall|i: int| 0 <= i < tail.len() - 1 implies #[trigger] tail[i].0 != IEND by {
                assert(tail[i] == cs[i + 1]);
            }
            assert forall|i: int| 0 <= i < tail.len() implies #[trigger] tail[i].1.len() <= u32::MAX by {
                assert(tail[i] == cs[i + 1]);
            }
        }
        lemma_read_written(tail);
        assert(seq![(typ, data)] + tail =~= cs);
    }
}

/// A stream of well-formed chunks without `IEND`, followed by a chunk whose declared
/// length runs past the end of the buffer, reads as `Truncated`.
pub proof fn lemma_read_truncated(cs: Seq<(u32, Seq<u8>)>, tail: Seq<u8>)
    requires
        forall|i: int| 0 <= i < cs.len() ==> (#[trigger] cs[i]).0 != IEND && cs[i].1.len() <= u32::MAX,
        tail.len() >= 4,
        be_u32(tail.subrange(0, 4)) + 12 > tail.len(),
    ensures
        chunks_of(encode_chunks(cs) + tail) == Err::<Seq<(u32, Seq<u8>)>, PngError>(PngError::Truncated),
    decreases cs.len(),
{
    let s = encode_chunks(cs) + tail;
    if cs.len() == 0 {
        assert(encode_chunks(cs) == Seq::<u8>::empty());
        assert(s =~= tail);
        assert(s.subrange(0, 4) =~= tail.subrange(0, 4));
    } else {
        let typ = cs[0].0;
        let data = cs[0].1;
        let len = data.len() as int;
        let tb = be_bytes(typ);
        let rest = encode_chunks(cs.drop_first()) + tail;
        assert(s =~= chunk_bytes(typ, data) + rest);
        lemma_be_round_trip(len as u32);
        lemma_be_round_trip(typ);
        lemma_be_round_trip(crc_of(tb + data));
        assert(s.subrange(0, 4) =~= be_bytes(len as u32));
        assert(s.subrange(4, 8) =~= tb);
        assert(s.subrange(4, 8 + len) =~= tb + data);
        assert(s.subrange(8 + len, 12 + len) =~= be_bytes(crc_of(tb + data)));
        assert(s.subrange(12 + len, s.len() as int) =~= rest);
        let t = cs.drop_first();
        assert forall|i: int| 0 <= i < t.len() implies (#[trigger] t[i]).0 != IEND && t[i].1.len() <= u32::MAX by {
            assert(t[i] == cs[i + 1]);
        }
        lemma_read_truncated(t, tail);
    }
}

/// A chunk of an input buffer: its type code and where its data lies.
#[derive(Debug, Clone, Copy, PartialEq, Eq, Structural)]
pub struct Chunk {
    pub typ: u32,
    /// Offset of the first data byte in the buffer.
    pub start: usize,
    /// Number of data bytes.
    pub len: usize,
}

impl Chunk {
    pub fn new(typ: u32, start: usize, len: usize) -> (r: Chunk)
        ensures
            r == (Chunk { typ, start, len }),
    {
        Chunk { typ, start, len }
    }

    /// The chunk as a (type, data) pair of `buf`.
    pub open spec fn view_in(self, buf: Seq<u8>) -> (u32, Seq<u8>) {
        (self.typ, buf.subrange(self.start as int, self.start + self.len))
    }

    pub open spec fn within(self, buf: Seq<u8>) -> bool {
        self.start + self.len <= buf.len()
    }

    /// A copy of the chunk's data.
    pub fn data(&self, buf: &[u8]) -> (r: Vec<u8>)
        requires
            self.within(buf@),
        ensures
            r@ == self.view_in(buf@).1,
    {
        let n = buf.len();
        assert(self.start + self.len <= n);
        let mut out: Vec<u8> = Vec::new();
        crate::bytes::push_range(&mut out, buf, self.start, self.start + self.len);
        assert(out@ =~= self.view_in(buf@).1);
        out
    }
}

/// The (type, data) pairs of chunks of `buf`.
pub open spec fn chunk_views(cs: Seq<Chunk>, buf: Seq<u8>) -> Seq<(u32, Seq<u8>)> {
    Seq::new(cs.len(), |i: int| cs[i].view_in(buf))
}

pub open spec fn prepend(
    pre: Seq<(u32, Seq<u8>)>,
    r: Result<Seq<(u32, Seq<u8>)>, PngError>,
) -> Result<Seq<(u32, Seq<u8>)>, PngError> {
    match r {
        Ok(v) => Ok(pre + v),
        Err(e) => Err(e),
    }
}

/// A cursor over the chunk stream of a buffer.
pub struct PngChunks<'a> {
    pub data: &'a [u8],
    pub cur: usize,
}

impl<'a> PngChunks<'a> {
    /// A cursor whose stream begins at `start`.
    pub fn new(data: &'a [u8], start: usize) -> (r: PngChunks<'a>)
        requires
            start <= data@.len(),
        ensures
            r.data@ == data@,
            r.cur == start,
    {
        PngChunks { data, cur: start }
    }

    /// Walks the stream from the cursor to `IEND`, checking framing and CRCs.
    pub fn collect_chunks(&self) -> (r: Result<Vec<Chunk>, PngError>)
        requires
            self.cur <= self.data@.len(),
        ensures
            match r {
                Ok(v) => {
                    &&& chunks_of(self.data@.skip(self.cur as int)) == Ok::<Seq<(u32, Seq<u8>)>, PngError>(chunk_views(v@, self.data@))
                    &&& forall|i: int| 0 <= i < v@.len() ==> #[trigger] v@[i].within(self.data@)
                    &&& v@.len() > 0 ==> v@[0].start == self.cur + 8
                    &&& forall|i: int, j: int|
                        0 <= i && j == i + 1 && j < v@.len() ==> #[trigger] v@[j].start == #[trigger] v@[i].start
                            + v@[i].len + 12
                },
                Err(e) => chunks_of(self.data@.skip(self.cur as int)) == Err::<Seq<(u32, Seq<u8>)>, PngError>(e),
            },
    {
        let data = self.data;
        let n = data.len();
        let mut cur = self.cur;
        let mut out: Vec<Chunk> = Vec::new();
        loop
            invariant
                self.cur <= cur <= n == data@.len(),
                data@ == self.data@,
                chunks_of(data@.skip(self.cur as int)) == prepend(chunk_views(out@, data@), chunks_of(data@.skip(cur as int))),
                forall|i: int| 0 <= i < out@.len() ==> #[trigger] out@[i].within(data@),
                out@.len() == 0 ==> cur == self.cur,
                out@.len() > 0 ==> out@[0].start == self.cur + 8,
                out@.len() > 0 ==> out@.last().start + out@.last().len + 4 == cur,
                forall|i: int, j: int|
                    0 <= i && j == i + 1 && j < out@.len() ==> #[trigger] out@[j].start == #[trigger] out@[i].start
                        + out@[i].len + 12,
            decreases n - cur,
        {
            let ghost s = data@.skip(cur as int);
            let ghost pre = chunk_views(out@, data@);
            if n - cur < 12 {
                assert(pre + Seq::empty() =~= pre);
                return Err(PngError::Truncated);
            }
            let len = read_be_u32(data, cur) as usize;
            assert(s.subrange(0, 4) =~= data@.subrange(cur as int, cur + 4));
            if n - cur - 12 < len {
                return Err(PngError::Truncated);
            }
            let typ = read_be_u32(data, cur + 4);
            let stored = read_be_u32(data, cur + 8 + len);
            let crc = crc32_range(data, cur + 4, cur + 8 + len);
            assert(s.subrange(4, 8) =~= data@.subrange(cur + 4, cur + 8));
            assert(s.subrange(8 + len, 12 + len) =~= data@.subrange(cur + 8 + len, cur + 12 + len));
            assert(s.subrange(4, 8 + len) =~= data@.subrange(cur + 4, cur + 8 + len));
            assert(s.subrange(8, 8 + len) =~= data@.subrange(cur + 8, cur + 8 + len));
            if stored != crc {
                return Err(PngError::Corrupt);
            }
            if typ == IEND && len != 0 {
                return Err(PngError::Corrupt);
            }
            let c = Chunk::new(typ, cur + 8, len);
            out.push(c);
            let ghost pre2 = chunk_views(out@, data@);
            assert(pre2 =~= pre + seq![(typ, s.subrange(8, 8 + len))]);
            if typ == IEND {
                return Ok(out);
            }
            assert(s.subrange(12 + len, s.len() as int) =~= data@.skip(cur + 12 + len));
            assert(pre + (seq![(typ, s.subrange(8, 8 + len))] + chunks_of(data@.skip(cur + 12 + len))->Ok_0)
                =~= pre2 + chunks_of(data@.skip(cur + 12 + len))->Ok_0);
            cur = cur + 12 + len;
        }
    }
}

/// Appends the chunk of type `typ` whose data is `src[start..end]`, with its CRC.
pub fn push_chunk(out: &mut Vec<u8>, typ: u32, src: &[u8], start: usize, end: usize)
    requires
        start <= end <= src@.len(),
        end - start <= u32::MAX,
    ensures
        final(out)@ == old(out)@ + chunk_bytes(typ, src@.subrange(start as int, end as int)),
{
    let ghost data = src@.subrange(start as int, end as int);
    crate::bytes::push_be_u32(out, (end - start) as u32);
    let mut body: Vec<u8> = Vec::new();
    crate::bytes::push_be_u32(&mut body, typ);
    crate::bytes::push_range(&mut body, src, start, end);
    let crc = crc32_range(body.as_slice(), 0, body.len());
    assert(body@.subrange(0, body@.len() as int) =~= body@);
    crate::bytes::push_range(out, body.as_slice(), 0, body.len());
    crate::bytes::push_be_u32(out, crc);
    assert(final(out)@ =~= old(out)@ + chunk_bytes(typ, data));
}

} // verus!
