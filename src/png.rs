use crate::bytes::{be_u32, read_be_u32};
use crate::chunk::{
    chunk_bytes, chunk_views, chunks_of, encode_chunks, well_framed, Chunk, PngChunks, IDAT, IEND, IHDR,
};
use crate::error::PngError;
use crate::raster::{defilter, inflate_of};
use vstd::prelude::*;

verus! {

/// The fields of an `IHDR` chunk.
#[derive(Debug, Clone, Copy, PartialEq, Eq, Structural)]
pub struct Header {
    pub width: u32,
    pub height: u32,
    pub depth: u8,
    pub color: u8,
    pub compression: u8,
    pub filter: u8,
    pub interlace: u8,
}

/// The largest data length of an `IDAT` chunk that this library writes.
pub const IDAT_MAX: usize = 1048576;

/// The eight bytes that open every PNG file.
pub open spec fn signature() -> Seq<u8> {
    seq![0x89u8, 0x50u8, 0x4Eu8, 0x47u8, 0x0Du8, 0x0Au8, 0x1Au8, 0x0Au8]
}

pub open spec fn has_signature(s: Seq<u8>) -> bool {
    s.len() >= 8 && s.take(8) == signature()
}

/// The header held by the 13 data bytes of an `IHDR` chunk.
pub open spec fn header_of(d: Seq<u8>) -> Header {
    Header {
        width: be_u32(d.subrange(0, 4)),
        height: be_u32(d.subrange(4, 8)),
        depth: d[8],
        color: d[9],
        compression: d[10],
        filter: d[11],
        interlace: d[12],
    }
}

/// Samples per pixel of a colour type (0 for an unknown one).
pub open spec fn channels(color: u8) -> int {
    if color == 0 || color == 3 {
        1
    } else if color == 2 {
        3
    } else if color == 4 {
        2
    } else if color == 6 {
        4
    } else {
        0
    }
}

/// A non-interlaced image with standard compression and filtering and a bit depth that
/// its colour type allows: 1, 2, 4, 8 or 16 for greyscale, 1, 2, 4 or 8 for palette,
/// 8 or 16 for the others.
pub open spec fn supported(h: Header) -> bool {
    &&& h.compression == 0
    &&& h.filter == 0
    &&& h.interlace == 0
    &&& channels(h.color) > 0
    &&& (h.depth == 8 || (h.depth == 16 && h.color != 3) || ((h.depth == 1 || h.depth == 2
        || h.depth == 4) && (h.color == 0 || h.color == 3)))
}

/// Bits per pixel.
pub open spec fn bits_per_pixel(h: Header) -> int {
    channels(h.color) * h.depth
}

/// Bytes per pixel as the filters count them: at least one.
pub open spec fn pixel_bytes(h: Header) -> int {
    if bits_per_pixel(h) < 8 {
        1
    } else {
        bits_per_pixel(h) / 8
    }
}

/// Bytes per row (without the filter byte).
pub open spec fn stride(h: Header) -> int {
    (h.width * bits_per_pixel(h) + 7) / 8
}

/// A critical chunk type: bit 5 of its first byte is clear (an upper-case letter).
pub open spec fn is_critical(typ: u32) -> bool {
    (typ / 0x2000_0000) % 2 == 0
}

/// Two chunks of one critical type other than `IDAT`.
pub open spec fn repeats_critical(cs: Seq<(u32, Seq<u8>)>) -> bool {
    exists|i: int, j: int|
        0 <= i < j < cs.len() && #[trigger] cs[i].0 == #[trigger] cs[j].0 && cs[i].0 != IDAT
            && is_critical(cs[i].0)
}

/// The chunks of a PNG file and its header: the signature is checked, the chunk stream
/// read, the first chunk must be an `IHDR` of 13 bytes, no critical type but `IDAT` may
/// occur twice, and the header must be supported.
pub open spec fn layout(s: Seq<u8>) -> Result<(Seq<(u32, Seq<u8>)>, Header), PngError> {
    if !has_signature(s) {
        Err(PngError::InvalidSignature)
    } else {
        match chunks_of(s.skip(8)) {
            Err(e) => Err(e),
            Ok(cs) => {
                if cs[0].0 != IHDR || cs[0].1.len() != 13 || repeats_critical(cs) {
                    Err(PngError::Corrupt)
                } else if !supported(header_of(cs[0].1)) {
                    Err(PngError::Unsupported)
                } else {
                    Ok((cs, header_of(cs[0].1)))
                }
            },
        }
    }
}

/// The concatenated data of the `IDAT` chunks, in order.
pub open spec fn idat_stream(cs: Seq<(u32, Seq<u8>)>) -> Seq<u8>
    decreases cs.len(),
{
    if cs.len() == 0 {
        Seq::empty()
    } else if cs.last().0 == IDAT {
        idat_stream(cs.drop_last()) + cs.last().1
    } else {
        idat_stream(cs.drop_last())
    }
}

/// The largest decompressed image stream that is handled, in bytes.
pub const MAX_RAW: u64 = 0x4000_0000;

/// The size of the decompressed image stream: `height` rows of `stride` bytes, each after
/// a filter byte.
pub open spec fn raw_len(h: Header) -> int {
    h.height * (stride(h) + 1)
}

/// The restored rows of the image. An image whose stream would exceed `MAX_RAW` bytes is
/// `Unsupported`; otherwise the `IDAT` stream is decompressed, checked to be `raw_len`
/// bytes long, and defiltered.
pub open spec fn pixels(cs: Seq<(u32, Seq<u8>)>, h: Header) -> Result<Seq<Seq<u8>>, PngError> {
    if raw_len(h) > MAX_RAW {
        Err(PngError::Unsupported)
    } else {
        match inflate_of(idat_stream(cs)) {
            None => Err(PngError::Corrupt),
            Some(raw) => {
                if raw.len() != raw_len(h) {
                    Err(PngError::Corrupt)
                } else {
                    match defilter(raw, stride(h), pixel_bytes(h), h.height as int) {
                        None => Err(PngError::Corrupt),
                        Some(rows) => Ok(rows),
                    }
                }
            },
        }
    }
}

/// The restored rows of a PNG file.
pub open spec fn image_rows(s: Seq<u8>) -> Result<Seq<Seq<u8>>, PngError> {
    match layout(s) {
        Err(e) => Err(e),
        Ok((cs, h)) => pixels(cs, h),
    }
}

/// `IDAT` chunks carrying `z`, split into pieces of at most `IDAT_MAX` bytes.
pub open spec fn idat_chunks(z: Seq<u8>) -> Seq<(u32, Seq<u8>)>
    decreases z.len(),
{
    if z.len() <= IDAT_MAX {
        seq![(IDAT, z)]
    } else {
        seq![(IDAT, z.take(IDAT_MAX as int))] + idat_chunks(z.skip(IDAT_MAX as int))
    }
}

/// A PNG file made of the given chunks.
pub open spec fn png_bytes(cs: Seq<(u32, Seq<u8>)>) -> Seq<u8> {
    signature() + encode_chunks(cs)
}

pub proof fn lemma_encode_push(cs: Seq<(u32, Seq<u8>)>, c: (u32, Seq<u8>))
    ensures
        encode_chunks(cs.push(c)) == encode_chunks(cs) + chunk_bytes(c.0, c.1),
    decreases cs.len(),
{
    if cs.len() == 0 {
        assert(cs.push(c).drop_first() =~= Seq::<(u32, Seq<u8>)>::empty());
        assert(cs.push(c)[0] == c);
        assert(encode_chunks(cs.push(c).drop_first()) == Seq::<u8>::empty());
        assert(encode_chunks(cs) == Seq::<u8>::empty());
        assert(encode_chunks(cs.push(c)) =~= chunk_bytes(c.0, c.1));
    } else {
        assert(cs.push(c).drop_first() =~= cs.drop_first().push(c));
        lemma_encode_push(cs.drop_first(), c);
        assert(encode_chunks(cs.push(c)) =~= encode_chunks(cs) + chunk_bytes(c.0, c.1));
    }
}

pub proof fn lemma_idat_stream_concat(a: Seq<(u32, Seq<u8>)>, b: Seq<(u32, Seq<u8>)>)
    ensures
        idat_stream(a + b) == idat_stream(a) + idat_stream(b),
    decreases b.len(),
{
    if b.len() == 0 {
        assert(a + b =~= a);
        assert(idat_stream(a) + idat_stream(b) =~= idat_stream(a));
    } else {
        assert((a + b).drop_last() =~= a + b.drop_last());
        lemma_idat_stream_concat(a, b.drop_last());
        assert(idat_stream(a + b) =~= idat_stream(a) + idat_stream(b));
    }
}

/// The chunks of a readable stream are well framed.
pub proof fn lemma_read_framed(s: Seq<u8>)
    requires
        chunks_of(s) is Ok,
    ensures
        well_framed(chunks_of(s)->Ok_0),
    decreases s.len(),
{
    let cs = chunks_of(s)->Ok_0;
    let len = be_u32(s.subrange(0, 4)) as int;
    let typ = be_u32(s.subrange(4, 8));
    if typ != IEND {
        let t = s.subrange(12 + len, s.len() as int);
        lemma_read_framed(t);
        let rest = chunks_of(t)->Ok_0;
        assert(cs == seq![(typ, s.subrange(8, 8 + len))] + rest);
        assert forall|i: int| 0 <= i < cs.len() - 1 implies #[trigger] cs[i].0 != IEND by {
            if i > 0 {
                assert(cs[i] == rest[i - 1]);
            }
        }
        assert forall|i: int| 0 <= i < cs.len() implies #[trigger] cs[i].1.len() <= u32::MAX by {
            if i > 0 {
                assert(cs[i] == rest[i - 1]);
            }
        }
        assert(cs.last() == rest.last());
    } else {
        assert(s.subrange(8, 8) =~= Seq::<u8>::empty());
    }
}

/// A PNG file held in memory.
pub struct Png<'a> {
    pub data: &'a [u8],
}

impl<'a> Png<'a> {
    pub fn new(data: &'a [u8]) -> (r: Png<'a>)
        ensures
            r.data@ == data@,
    {
        Png { data }
    }

    /// Whether the file opens with the PNG signature.
    pub fn validate(&self) -> (r: bool)
        ensures
            r == has_signature(self.data@),
    {
        let d = self.data;
        let ok = d.len() >= 8 && d[0] == 0x89 && d[1] == 0x50 && d[2] == 0x4E && d[3] == 0x47
            && d[4] == 0x0D && d[5] == 0x0A && d[6] == 0x1A && d[7] == 0x0A;
        proof {
            if d@.len() >= 8 {
                if ok {
                    assert(d@.take(8) =~= signature());
                } else {
                    assert(d@.take(8) != signature() ==> !has_signature(d@));
                    let t = d@.take(8);
                    assert(t[0] != signature()[0] || t[1] != signature()[1] || t[2] != signature()[2]
                        || t[3] != signature()[3] || t[4] != signature()[4] || t[5] != signature()[5]
                        || t[6] != signature()[6] || t[7] != signature()[7]);
                }
            }
        }
        ok
    }

    /// The chunk stream that follows the signature.
    pub fn parts(&self) -> (r: PngChunks<'a>)
        requires
            self.data@.len() >= 8,
        ensures
            r.data@ == self.data@,
            r.cur == 8,
    {
        PngChunks::new(self.data, 8)
    }
}

/// The header held by an `IHDR` chunk of 13 data bytes.
pub fn read_header(buf: &[u8], c: &Chunk) -> (r: Header)
    requires
        c.within(buf@),
        c.len == 13,
    ensures
        r == header_of(c.view_in(buf@).1),
{
    let n = buf.len();
    assert(c.start + 13 <= n);
    let s = c.start;
    let ghost d = c.view_in(buf@).1;
    assert(d.subrange(0, 4) =~= buf@.subrange(s as int, s + 4));
    assert(d.subrange(4, 8) =~= buf@.subrange(s + 4, s + 8));
    Header {
        width: read_be_u32(buf, s),
        height: read_be_u32(buf, s + 4),
        depth: buf[s + 8],
        color: buf[s + 9],
        compression: buf[s + 10],
        filter: buf[s + 11],
        interlace: buf[s + 12],
    }
}

/// Whether the header describes an image that can be cropped.
pub fn is_supported(h: &Header) -> (r: bool)
    ensures
        r == supported(*h),
{
    let known = h.color == 0 || h.color == 2 || h.color == 3 || h.color == 4 || h.color == 6;
    let small = (h.depth == 1 || h.depth == 2 || h.depth == 4) && (h.color == 0 || h.color == 3);
    h.compression == 0 && h.filter == 0 && h.interlace == 0 && known && (h.depth == 8 || (h.depth
        == 16 && h.color != 3) || small)
}

/// Bits per pixel of a supported header.
pub fn bits_of(h: &Header) -> (r: u64)
    requires
        supported(*h),
    ensures
        r == bits_per_pixel(*h),
        1 <= r <= 64,
        h.depth >= 8 ==> r % 8 == 0 && r / 8 == pixel_bytes(*h),
        h.depth < 8 ==> r < 8 && pixel_bytes(*h) == 1,
{
    let ch: u64 = if h.color == 0 || h.color == 3 {
        1
    } else if h.color == 2 {
        3
    } else if h.color == 4 {
        2
    } else {
        4
    };
    ch * h.depth as u64
}

/// Bytes per pixel of a supported header, as the filters count them.
pub fn bytes_per_pixel(h: &Header) -> (r: u64)
    requires
        supported(*h),
    ensures
        r == pixel_bytes(*h),
        1 <= r <= 8,
{
    let bits = bits_of(h);
    if bits < 8 {
        1
    } else {
        bits / 8
    }
}

/// The concatenated data of the `IDAT` chunks of `buf`.
pub fn idat_data(buf: &[u8], chunks: &Vec<Chunk>) -> (r: Vec<u8>)
    requires
        forall|i: int| 0 <= i < chunks@.len() ==> (#[trigger] chunks@[i]).within(buf@),
    ensures
        r@ == idat_stream(chunk_views(chunks@, buf@)),
{
    let n = buf.len();
    let mut out: Vec<u8> = Vec::new();
    let mut i: usize = 0;
    while i < chunks.len()
        invariant
            i <= chunks@.len(),
            n == buf@.len(),
            forall|j: int| 0 <= j < chunks@.len() ==> (#[trigger] chunks@[j]).within(buf@),
            out@ == idat_stream(chunk_views(chunks@, buf@).take(i as int)),
        decreases chunks@.len() - i,
    {
        let c = chunks[i];
        assert(chunk_views(chunks@, buf@).take(i + 1).drop_last() =~= chunk_views(chunks@, buf@).take(i as int));
        if c.typ == IDAT {
            crate::bytes::push_range(&mut out, buf, c.start, c.start + c.len);
        }
        i = i + 1;
    }
    assert(chunk_views(chunks@, buf@).take(i as int) =~= chunk_views(chunks@, buf@));
    out
}

/// Whether two chunks of `buf` share a critical type other than `IDAT`.
pub fn has_repeated_critical(buf: &[u8], chunks: &Vec<Chunk>) -> (r: bool)
    ensures
        r == repeats_critical(chunk_views(chunks@, buf@)),
{
    let ghost cs = chunk_views(chunks@, buf@);
    let n = chunks.len();
    let mut i: usize = 0;
    while i < n
        invariant
            n == chunks@.len(),
            cs == chunk_views(chunks@, buf@),
            i <= n,
            forall|a: int, b: int|
                0 <= a < i && a < b < n ==> !(#[trigger] cs[a].0 == #[trigger] cs[b].0 && cs[a].0 != IDAT
                    && is_critical(cs[a].0)),
        decreases n - i,
    {
        let t = chunks[i].typ;
        if t != IDAT && (t / 0x2000_0000) % 2 == 0 {
            let mut j: usize = i + 1;
            while j < n
                invariant
                    n == chunks@.len(),
                    cs == chunk_views(chunks@, buf@),
                    i < n,
                    i + 1 <= j <= n,
                    t == cs[i as int].0,
                    t != IDAT,
                    is_critical(t),
                    forall|b: int| i < b < j ==> #[trigger] cs[b].0 != t,
                decreases n - j,
            {
                if chunks[j].typ == t {
                    assert(cs[i as int].0 == cs[j as int].0);
                    return true;
                }
                j = j + 1;
            }
        }
        i = i + 1;
    }
    false
}

/// The chunks and header of a PNG file, as `layout` describes them.
pub fn read_layout(input: &[u8]) -> (r: Result<(Vec<Chunk>, Header), PngError>)
    ensures
        match r {
            Ok((v, h)) => {
                &&& layout(input@) == Ok::<(Seq<(u32, Seq<u8>)>, Header), PngError>((chunk_views(v@, input@), h))
                &&& forall|i: int| 0 <= i < v@.len() ==> (#[trigger] v@[i]).within(input@)
                &&& v@.len() >= 1
                &&& v@[0].len == 13
            },
            Err(e) => layout(input@) == Err::<(Seq<(u32, Seq<u8>)>, Header), PngError>(e),
        },
{
    let ghost s = input@;
    let png = Png::new(input);
    if !png.validate() {
        return Err(PngError::InvalidSignature);
    }
    assert(has_signature(s));
    let stream = png.parts();
    let chunks = match stream.collect_chunks() {
        Ok(v) => v,
        Err(e) => {
            assert(chunks_of(s.skip(8)) == Err::<Seq<(u32, Seq<u8>)>, PngError>(e));
            return Err(e);
        },
    };
    let ghost cs = chunk_views(chunks@, input@);
    proof {
        lemma_read_framed(s.skip(8));
    }
    let first = chunks[0];
    assert(chunks_of(s.skip(8)) == Ok::<Seq<(u32, Seq<u8>)>, PngError>(cs));
    assert(cs[0] == first.view_in(input@));
    assert(chunks@[0].within(input@));
    if first.typ != IHDR || first.len != 13 {
        assert(cs[0].0 != IHDR || cs[0].1.len() != 13);
        return Err(PngError::Corrupt);
    }
    if has_repeated_critical(input, &chunks) {
        assert(chunks_of(s.skip(8)) == Ok::<Seq<(u32, Seq<u8>)>, PngError>(cs));
        return Err(PngError::Corrupt);
    }
    let h = read_header(input, &first);
    if !is_supported(&h) {
        return Err(PngError::Unsupported);
    }
    Ok((chunks, h))
}

} // verus!
