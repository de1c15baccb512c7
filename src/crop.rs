use crate::bytes::{be_bytes, be_u32, lemma_be_round_trip, push_be_u32, push_range};
use crate::chunk::{
    chunk_bytes, chunk_views, chunks_of, encode_chunks, lemma_read_truncated, lemma_read_written, push_chunk, well_framed, Chunk, IDAT,
    IEND, IHDR,
};
use crate::error::PngError;
use crate::png::{
    bits_of, bits_per_pixel, bytes_per_pixel, channels, is_critical, repeats_critical, raw_len, MAX_RAW, has_signature, header_of, idat_chunks, idat_data, read_layout, idat_stream, layout, lemma_idat_stream_concat, lemma_read_framed,
    image_rows, lemma_encode_push, pixel_bytes, pixels, png_bytes, signature, stride, supported, Header, IDAT_MAX,
};
use crate::raster::{
    bit_rows, crop_rows, defilter_rows, deflate, deflate_of, extract, extract_bits, filter_none, inflate, inflate_of, lemma_bit_rows_again, lemma_crop_bits_bit, bit_at, rows_view, lemma_defilter_filter_none, lemma_defilter_rows,
};
use vstd::arithmetic::div_mod::lemma_div_is_ordered;
use vstd::prelude::*;

verus! {

/// A rectangle of pixels: columns `[x, x + w)` and rows `[y, y + h)`.
#[derive(Debug, Clone, Copy, PartialEq, Eq, Structural)]
pub struct Rect {
    pub x: u32,
    pub y: u32,
    pub w: u32,
    pub h: u32,
}

impl Rect {
    pub fn new(x: u32, y: u32, w: u32, h: u32) -> (r: Rect)
        ensures
            r == (Rect { x, y, w, h }),
    {
        Rect { x, y, w, h }
    }
}

/// A non-empty rectangle that lies inside the image.
pub open spec fn rect_fits(r: Rect, h: Header) -> bool {
    &&& r.w > 0
    &&& r.h > 0
    &&& r.x + r.w <= h.width
    &&& r.y + r.h <= h.height
}

/// Whether a chunk of type `typ` is written out under a policy that drops the ancillary
/// chunk types listed in `dropped`. Critical chunks are always kept.
pub open spec fn keeps(dropped: Seq<u32>, typ: u32) -> bool {
    is_critical(typ) || !dropped.contains(typ)
}

/// A chunk that is copied to the output as it stands: not `IHDR`, `IDAT` or `IEND`,
/// and kept by the policy.
pub open spec fn passes(dropped: Seq<u32>, typ: u32) -> bool {
    typ != IHDR && typ != IDAT && typ != IEND && keeps(dropped, typ)
}

/// The chunks that are copied to the output, in input order.
pub open spec fn kept_chunks(cs: Seq<(u32, Seq<u8>)>, dropped: Seq<u32>) -> Seq<(u32, Seq<u8>)>
    decreases cs.len(),
{
    if cs.len() == 0 {
        Seq::empty()
    } else if passes(dropped, cs.last().0) {
        kept_chunks(cs.drop_last(), dropped).push(cs.last())
    } else {
        kept_chunks(cs.drop_last(), dropped)
    }
}

/// The `IHDR` data with width and height replaced by the rectangle's.
pub open spec fn cropped_ihdr(d: Seq<u8>, r: Rect) -> Seq<u8> {
    be_bytes(r.w) + be_bytes(r.h) + d.subrange(8, 13)
}

/// The chunks of the output: the new `IHDR`, the copied chunks, the `IDAT` chunks that
/// carry `z`, and `IEND`.
pub open spec fn output_chunks(
    ihdr: Seq<u8>,
    kept: Seq<(u32, Seq<u8>)>,
    z: Seq<u8>,
) -> Seq<(u32, Seq<u8>)> {
    seq![(IHDR, ihdr)] + kept + idat_chunks(z) + seq![(IEND, Seq::<u8>::empty())]
}

/// The restored rows inside the rectangle, of an image with header `h`.
/// Pixels of 8 bits or more are cut by bytes; smaller ones by bits, each row padded with
/// zero bits to a whole byte.
pub open spec fn rect_rows(rows: Seq<Seq<u8>>, r: Rect, h: Header) -> Seq<Seq<u8>> {
    if h.depth >= 8 {
        crop_rows(rows, r.y as int, r.h as int, r.x * pixel_bytes(h), (r.x + r.w) * pixel_bytes(h))
    } else {
        bit_rows(rows, r.y as int, r.h as int, r.x * bits_per_pixel(h), r.w * bits_per_pixel(h))
    }
}

/// The restored rows inside the rectangle, of a PNG file.
pub open spec fn crop_pixels(s: Seq<u8>, r: Rect) -> Result<Seq<Seq<u8>>, PngError> {
    match layout(s) {
        Err(e) => Err(e),
        Ok((cs, h)) => match pixels(cs, h) {
            Err(e) => Err(e),
            Ok(rows) => Ok(rect_rows(rows, r, h)),
        },
    }
}

/// The PNG file cropped to `r`, under a policy that drops the ancillary types `dropped`.
/// Errors come in this order: the file's layout, the rectangle, then its pixel data.
/// The cropped rows are written with filter type None and compressed anew.
pub open spec fn crop_spec(s: Seq<u8>, r: Rect, dropped: Seq<u32>) -> Result<Seq<u8>, PngError> {
    match layout(s) {
        Err(e) => Err(e),
        Ok((cs, h)) => {
            if !rect_fits(r, h) {
                Err(PngError::InvalidRect)
            } else {
                match pixels(cs, h) {
                    Err(e) => Err(e),
                    Ok(rows) => Ok(
                        png_bytes(
                            output_chunks(
                                cropped_ihdr(cs[0].1, r),
                                kept_chunks(cs, dropped),
                                deflate_of(filter_none(rect_rows(rows, r, h))),
                            ),
                        ),
                    ),
                }
            }
        },
    }
}

proof fn lemma_kept_members(cs: Seq<(u32, Seq<u8>)>, dropped: Seq<u32>)
    ensures
        forall|i: int| 0 <= i < kept_chunks(cs, dropped).len() ==>
            (exists|j: int| 0 <= j < cs.len() && cs[j] == #[trigger] kept_chunks(cs, dropped)[i])
            && passes(dropped, kept_chunks(cs, dropped)[i].0),
    decreases cs.len(),
{
    if cs.len() > 0 {
        lemma_kept_members(cs.drop_last(), dropped);
        let k = kept_chunks(cs, dropped);
        let k0 = kept_chunks(cs.drop_last(), dropped);
        assert forall|i: int| 0 <= i < k.len() implies
            (exists|j: int| 0 <= j < cs.len() && cs[j] == #[trigger] k[i]) && passes(dropped, k[i].0) by {
            if i < k0.len() {
                assert(k[i] == k0[i]);
                let j = choose|j: int| 0 <= j < cs.drop_last().len() && cs.drop_last()[j] == k0[i];
                assert(cs[j] == k[i]);
            } else {
                assert(cs[cs.len() - 1] == k[i]);
            }
        }
    }
}

proof fn lemma_kept_no_idat(cs: Seq<(u32, Seq<u8>)>, dropped: Seq<u32>)
    ensures
        idat_stream(kept_chunks(cs, dropped)) == Seq::<u8>::empty(),
    decreases cs.len(),
{
    if cs.len() > 0 {
        lemma_kept_no_idat(cs.drop_last(), dropped);
        let k0 = kept_chunks(cs.drop_last(), dropped);
        if passes(dropped, cs.last().0) {
            assert(k0.push(cs.last()).drop_last() =~= k0);
        }
    }
}

proof fn lemma_kept_concat(a: Seq<(u32, Seq<u8>)>, b: Seq<(u32, Seq<u8>)>, dropped: Seq<u32>)
    ensures
        kept_chunks(a + b, dropped) == kept_chunks(a, dropped) + kept_chunks(b, dropped),
    decreases b.len(),
{
    if b.len() == 0 {
        assert(a + b =~= a);
        assert(kept_chunks(a, dropped) + kept_chunks(b, dropped) =~= kept_chunks(a, dropped));
    } else {
        assert((a + b).drop_last() =~= a + b.drop_last());
        lemma_kept_concat(a, b.drop_last(), dropped);
        assert(kept_chunks(a + b, dropped) =~= kept_chunks(a, dropped) + kept_chunks(b, dropped));
    }
}

/// Filtering chunks that all pass keeps them all.
proof fn lemma_kept_all(cs: Seq<(u32, Seq<u8>)>, dropped: Seq<u32>)
    requires
        forall|i: int| 0 <= i < cs.len() ==> passes(dropped, #[trigger] cs[i].0),
    ensures
        kept_chunks(cs, dropped) == cs,
    decreases cs.len(),
{
    if cs.len() > 0 {
        lemma_kept_all(cs.drop_last(), dropped);
        assert(cs.drop_last().push(cs.last()) =~= cs);
    }
}

/// Filtering chunks of which none passes keeps none.
proof fn lemma_kept_none(cs: Seq<(u32, Seq<u8>)>, dropped: Seq<u32>)
    requires
        forall|i: int| 0 <= i < cs.len() ==> !passes(dropped, #[trigger] cs[i].0),
    ensures
        kept_chunks(cs, dropped) == Seq::<(u32, Seq<u8>)>::empty(),
    decreases cs.len(),
{
    if cs.len() > 0 {
        lemma_kept_none(cs.drop_last(), dropped);
    }
}

proof fn lemma_idat_chunks(z: Seq<u8>)
    ensures
        idat_stream(idat_chunks(z)) == z,
        forall|i: int| 0 <= i < idat_chunks(z).len() ==> (#[trigger] idat_chunks(z)[i]).0 == IDAT
            && idat_chunks(z)[i].1.len() <= IDAT_MAX,
    decreases z.len(),
{
    if z.len() <= IDAT_MAX {
        let one = seq![(IDAT, z)];
        assert(one.drop_last() =~= Seq::<(u32, Seq<u8>)>::empty());
        assert(idat_stream(Seq::<(u32, Seq<u8>)>::empty()) == Seq::<u8>::empty());
        assert(one.last() == (IDAT, z));
        assert(idat_stream(one) =~= z);
    } else {
        let head = seq![(IDAT, z.take(IDAT_MAX as int))];
        let rest = idat_chunks(z.skip(IDAT_MAX as int));
        lemma_idat_chunks(z.skip(IDAT_MAX as int));
        lemma_idat_stream_concat(head, rest);
        assert(head.drop_last() =~= Seq::<(u32, Seq<u8>)>::empty());
        assert(idat_stream(Seq::<(u32, Seq<u8>)>::empty()) == Seq::<u8>::empty());
        assert(head.last() == (IDAT, z.take(IDAT_MAX as int)));
        assert(idat_stream(head) =~= z.take(IDAT_MAX as int));
        assert(z.take(IDAT_MAX as int) + z.skip(IDAT_MAX as int) =~= z);
        assert forall|i: int| 0 <= i < idat_chunks(z).len() implies (#[trigger] idat_chunks(z)[i]).0 == IDAT
            && idat_chunks(z)[i].1.len() <= IDAT_MAX by {
            if i > 0 {
                assert(idat_chunks(z)[i] == rest[i - 1]);
            }
        }
    }
}

proof fn lemma_output_framed(cs: Seq<(u32, Seq<u8>)>, dropped: Seq<u32>, d: Seq<u8>, z: Seq<u8>)
    requires
        well_framed(cs),
        d.len() == 13,
    ensures
        well_framed(output_chunks(d, kept_chunks(cs, dropped), z)),
{
    let kept = kept_chunks(cs, dropped);
    let ic = idat_chunks(z);
    let ocs = output_chunks(d, kept, z);
    lemma_kept_members(cs, dropped);
    lemma_idat_chunks(z);
    assert forall|i: int| 0 <= i < ocs.len() implies {
        &&& (#[trigger] ocs[i]).1.len() <= u32::MAX
        &&& (i < ocs.len() - 1 ==> ocs[i].0 != IEND)
    } by {
        if 1 <= i < 1 + kept.len() {
            assert(ocs[i] == kept[i - 1]);
            let j = choose|j: int| 0 <= j < cs.len() && cs[j] == kept[i - 1];
            assert(cs[j].1.len() <= u32::MAX);
        } else if 1 + kept.len() <= i < ocs.len() - 1 {
            assert(ocs[i] == ic[i - 1 - kept.len()]);
        }
    }
}

proof fn lemma_output_streams(cs: Seq<(u32, Seq<u8>)>, dropped: Seq<u32>, d: Seq<u8>, z: Seq<u8>)
    ensures
        idat_stream(output_chunks(d, kept_chunks(cs, dropped), z)) == z,
        kept_chunks(output_chunks(d, kept_chunks(cs, dropped), z), dropped) == kept_chunks(cs, dropped),
{
    let kept = kept_chunks(cs, dropped);
    let ic = idat_chunks(z);
    let first = seq![(IHDR, d)];
    let last = seq![(IEND, Seq::<u8>::empty())];
    let ocs = output_chunks(d, kept, z);
    lemma_idat_chunks(z);
    lemma_kept_members(cs, dropped);
    lemma_idat_stream_concat(first + kept + ic, last);
    lemma_idat_stream_concat(first + kept, ic);
    lemma_idat_stream_concat(first, kept);
    lemma_kept_no_idat(cs, dropped);
    assert(first.drop_last() =~= Seq::<(u32, Seq<u8>)>::empty());
    assert(last.drop_last() =~= Seq::<(u32, Seq<u8>)>::empty());
    assert(idat_stream(Seq::<(u32, Seq<u8>)>::empty()) == Seq::<u8>::empty());
    assert(idat_stream(first) =~= Seq::<u8>::empty());
    assert(idat_stream(last) =~= Seq::<u8>::empty());
    assert(idat_stream(ocs) =~= z);
    lemma_kept_concat(first + kept + ic, last, dropped);
    lemma_kept_concat(first + kept, ic, dropped);
    lemma_kept_concat(first, kept, dropped);
    lemma_kept_none(first, dropped);
    lemma_kept_none(last, dropped);
    lemma_kept_all(kept, dropped);
    lemma_kept_none(ic, dropped);
    assert(kept_chunks(ocs, dropped) =~= kept);
}

/// The copied chunks repeat no critical type when the input does not.
proof fn lemma_kept_no_repeat(cs: Seq<(u32, Seq<u8>)>, dropped: Seq<u32>)
    requires
        !repeats_critical(cs),
    ensures
        !repeats_critical(kept_chunks(cs, dropped)),
    decreases cs.len(),
{
    if cs.len() > 0 {
        let init = cs.drop_last();
        assert(!repeats_critical(init)) by {
            if repeats_critical(init) {
                let (a, b) = choose|a: int, b: int|
                    0 <= a < b < init.len() && #[trigger] init[a].0 == #[trigger] init[b].0 && init[a].0 != IDAT
                        && is_critical(init[a].0);
                assert(cs[a].0 == cs[b].0);
            }
        }
        lemma_kept_no_repeat(init, dropped);
        lemma_kept_members(init, dropped);
        let k = kept_chunks(cs, dropped);
        let k0 = kept_chunks(init, dropped);
        if passes(dropped, cs.last().0) {
            if repeats_critical(k) {
                let (a, b) = choose|a: int, b: int|
                    0 <= a < b < k.len() && #[trigger] k[a].0 == #[trigger] k[b].0 && k[a].0 != IDAT
                        && is_critical(k[a].0);
                if b < k0.len() {
                    assert(k0[a].0 == k0[b].0);
                } else {
                    assert(k[a] == k0[a]);
                    let ia = choose|j: int| 0 <= j < init.len() && init[j] == #[trigger] k0[a];
                    assert(cs[ia].0 == cs[cs.len() - 1].0);
                }
            }
        }
    }
}

/// The output repeats no critical type.
proof fn lemma_output_no_repeat(cs: Seq<(u32, Seq<u8>)>, dropped: Seq<u32>, d: Seq<u8>, z: Seq<u8>)
    requires
        !repeats_critical(cs),
    ensures
        !repeats_critical(output_chunks(d, kept_chunks(cs, dropped), z)),
{
    let kept = kept_chunks(cs, dropped);
    let ic = idat_chunks(z);
    let ocs = output_chunks(d, kept, z);
    lemma_kept_no_repeat(cs, dropped);
    lemma_kept_members(cs, dropped);
    lemma_idat_chunks(z);
    if repeats_critical(ocs) {
        let (a, b) = choose|a: int, b: int|
            0 <= a < b < ocs.len() && #[trigger] ocs[a].0 == #[trigger] ocs[b].0 && ocs[a].0 != IDAT
                && is_critical(ocs[a].0);
        let m = 1 + kept.len();
        if a == 0 {
            if b < m {
                assert(ocs[b] == kept[b - 1]);
            } else if b < m + ic.len() {
                assert(ocs[b] == ic[b - m]);
            }
        } else if a < m {
            assert(ocs[a] == kept[a - 1]);
            if b < m {
                assert(ocs[b] == kept[b - 1]);
                assert(kept[a - 1].0 == kept[b - 1].0);
            } else if b < m + ic.len() {
                assert(ocs[b] == ic[b - m]);
            }
        } else if a < m + ic.len() {
            assert(ocs[a] == ic[a - m]);
        }
    }
}

/// The output of a successful crop, as its chunks; what is known of them.
pub open spec fn crop_parts(s: Seq<u8>, r: Rect, dropped: Seq<u32>) -> (Seq<(u32, Seq<u8>)>, Header, Seq<u8>) {
    let (cs, h) = layout(s)->Ok_0;
    let rows = pixels(cs, h)->Ok_0;
    let z = deflate_of(filter_none(rect_rows(rows, r, h)));
    (output_chunks(cropped_ihdr(cs[0].1, r), kept_chunks(cs, dropped), z), Header { width: r.w, height: r.h, ..h }, z)
}

#[verifier::rlimit(40)]
proof fn lemma_output_layout(s: Seq<u8>, r: Rect, dropped: Seq<u32>)
    requires
        crop_spec(s, r, dropped) is Ok,
    ensures
        ({
            let (ocs, h2, z) = crop_parts(s, r, dropped);
            let out = crop_spec(s, r, dropped)->Ok_0;
            &&& out == png_bytes(ocs)
            &&& out.take(8) == signature()
            &&& well_framed(ocs)
            &&& chunks_of(out.skip(8)) == Ok::<Seq<(u32, Seq<u8>)>, PngError>(ocs)
            &&& layout(out) == Ok::<(Seq<(u32, Seq<u8>)>, Header), PngError>((ocs, h2))
            &&& idat_stream(ocs) == z
            &&& kept_chunks(ocs, dropped) == kept_chunks(layout(s)->Ok_0.0, dropped)
        }),
{
    let (cs, h) = layout(s)->Ok_0;
    let (ocs, h2, z) = crop_parts(s, r, dropped);
    let d = cropped_ihdr(cs[0].1, r);
    let out = png_bytes(ocs);
    lemma_read_framed(s.skip(8));
    lemma_output_framed(cs, dropped, d, z);
    lemma_output_no_repeat(cs, dropped, d, z);
    lemma_output_streams(cs, dropped, d, z);
    lemma_read_written(ocs);
    assert(out.take(8) =~= signature());
    assert(out.skip(8) =~= encode_chunks(ocs));
    lemma_be_round_trip(r.w);
    lemma_be_round_trip(r.h);
    assert(d.subrange(0, 4) =~= be_bytes(r.w));
    assert(d.subrange(4, 8) =~= be_bytes(r.h));
    assert(header_of(d) == h2);
    assert(ocs[0] == (IHDR, d));
}

proof fn lemma_encode_concat(a: Seq<(u32, Seq<u8>)>, b: Seq<(u32, Seq<u8>)>)
    ensures
        encode_chunks(a + b) == encode_chunks(a) + encode_chunks(b),
    decreases b.len(),
{
    if b.len() == 0 {
        assert(a + b =~= a);
        assert(encode_chunks(b) == Seq::<u8>::empty());
        assert(encode_chunks(a) + encode_chunks(b) =~= encode_chunks(a));
    } else {
        let b0 = b.drop_last();
        lemma_encode_concat(a, b0);
        assert(a + b =~= (a + b0).push(b.last()));
        assert(b =~= b0.push(b.last()));
        lemma_encode_push(a + b0, b.last());
        lemma_encode_push(b0, b.last());
        assert(encode_chunks(a + b) =~= encode_chunks(a) + encode_chunks(b));
    }
}

/// A smaller image of the same pixel format has a smaller stream.
proof fn lemma_raw_len_shrinks(h: Header, r: Rect)
    requires
        rect_fits(r, h),
    ensures
        raw_len(Header { width: r.w, height: r.h, ..h }) <= raw_len(h),
{
    let h2 = Header { width: r.w, height: r.h, ..h };
    let bits = bits_per_pixel(h);
    assert(bits_per_pixel(h2) == bits);
    assert(bits >= 0) by (nonlinear_arith) requires bits == channels(h.color) * h.depth, channels(h.color) >= 0;
    assert(r.w * bits <= h.width * bits) by (nonlinear_arith) requires r.w <= h.width, bits >= 0;
    lemma_div_is_ordered(r.w * bits + 7, h.width * bits + 7, 8);
    assert(0 <= r.w * bits) by (nonlinear_arith) requires bits >= 0;
    assert(stride(h2) <= stride(h));
    assert(r.h * (stride(h2) + 1) <= h.height * (stride(h) + 1)) by (nonlinear_arith)
        requires r.h <= h.height, 0 <= stride(h2) <= stride(h), r.h >= 0;
}

/// With the round trip of the compressor, the output's restored rows are the rows
/// inside the rectangle.
proof fn lemma_output_pixels(s: Seq<u8>, r: Rect, dropped: Seq<u32>)
    requires
        crop_spec(s, r, dropped) is Ok,
        ({
            let (cs, h) = layout(s)->Ok_0;
            let f = filter_none(rect_rows(pixels(cs, h)->Ok_0, r, h));
            inflate_of(deflate_of(f)) == Some(f)
        }),
    ensures
        image_rows(crop_spec(s, r, dropped)->Ok_0) == crop_pixels(s, r),
{
    let (cs, h) = layout(s)->Ok_0;
    let rows = pixels(cs, h)->Ok_0;
    let (ocs, h2, z) = crop_parts(s, r, dropped);
    lemma_output_layout(s, r, dropped);
    lemma_raw_len_shrinks(h, r);
    let pb = pixel_bytes(h);
    let cr = rect_rows(rows, r, h);
    assert(pixel_bytes(h2) == pb);
    assert(bits_per_pixel(h2) == bits_per_pixel(h));
    lemma_cropped_rows(s, r, dropped);
    assert((r.w * bits_per_pixel(h) + 7) / 8 == stride(h2));
    assert(0 <= r.w * bits_per_pixel(h)) by (nonlinear_arith) requires bits_per_pixel(h) >= 0;
    lemma_defilter_filter_none(cr, stride(h2), pb);
}

/// Type code of the physical pixel dimensions chunk.
pub const PHYS: u32 = 0x7048_5973;
/// Type code of the image offset chunk.
pub const OFFS: u32 = 0x6F46_4673;
/// Type code of the palette histogram chunk.
pub const HIST: u32 = 0x6849_5354;

/// Which ancillary chunks are dropped from the output.
pub struct ChunkPolicy {
    /// Ancillary chunk types that are not copied. Critical types listed here are kept.
    pub dropped: Vec<u32>,
}

impl ChunkPolicy {
    /// Drops the ancillary chunks whose content is tied to the old geometry: physical
    /// pixel dimensions, image offset and palette histogram.
    pub fn standard() -> (r: ChunkPolicy)
        ensures
            r.dropped@ == seq![PHYS, OFFS, HIST],
    {
        let mut dropped: Vec<u32> = Vec::new();
        dropped.push(PHYS);
        dropped.push(OFFS);
        dropped.push(HIST);
        assert(dropped@ =~= seq![PHYS, OFFS, HIST]);
        ChunkPolicy { dropped }
    }

    /// Drops the ancillary chunk types listed.
    pub fn dropping(dropped: Vec<u32>) -> (r: ChunkPolicy)
        ensures
            r.dropped@ == dropped@,
    {
        ChunkPolicy { dropped }
    }
}

/// Whether the policy lets a chunk of type `typ` into the output: critical types always,
/// ancillary ones unless listed.
pub fn can_output(policy: &ChunkPolicy, typ: u32) -> (r: bool)
    ensures
        r == keeps(policy.dropped@, typ),
{
    if (typ / 0x2000_0000) % 2 == 0 {
        return true;
    }
    let mut i: usize = 0;
    while i < policy.dropped.len()
        invariant
            i <= policy.dropped@.len(),
            !is_critical(typ),
            forall|j: int| 0 <= j < i ==> policy.dropped@[j] != typ,
        decreases policy.dropped@.len() - i,
    {
        if policy.dropped[i] == typ {
            assert(policy.dropped@[i as int] == typ);
            return false;
        }
        i = i + 1;
    }
    true
}

/// Appends the `IHDR` chunk of the cropped image; an interlaced image is `Unsupported`
/// and leaves the output as it was.
pub fn ihdr(input: &[u8], c: &Chunk, rect: &Rect, output: &mut Vec<u8>) -> (r: Result<(), PngError>)
    requires
        c.within(input@),
        c.len == 13,
    ensures
        c.view_in(input@).1[12] != 0 ==> r == Err::<(), PngError>(PngError::Unsupported)
            && final(output)@ == old(output)@,
        c.view_in(input@).1[12] == 0 ==> r is Ok && final(output)@ == old(output)@ + chunk_bytes(
            IHDR,
            cropped_ihdr(c.view_in(input@).1, *rect),
        ),
{
    let n = input.len();
    assert(c.start + 13 <= n);
    if input[c.start + 12] != 0 {
        return Err(PngError::Unsupported);
    }
    let mut d: Vec<u8> = Vec::new();
    push_be_u32(&mut d, rect.w);
    push_be_u32(&mut d, rect.h);
    push_range(&mut d, input, c.start + 8, c.start + 13);
    assert(d@ =~= cropped_ihdr(c.view_in(input@).1, *rect));
    assert(d@.subrange(0, 13) =~= d@);
    push_chunk(output, IHDR, d.as_slice(), 0, 13);
    Ok(())
}

/// Writes what the output holds for one chunk of the input, by its type code: the
/// rewritten `IHDR`; nothing for an `IDAT`, whose data goes to the `IDAT` transform;
/// `IEND` as it stands; any other chunk as it stands where the policy lets it through.
pub fn crop_chunk(
    input: &[u8],
    c: &Chunk,
    rect: &Rect,
    policy: &ChunkPolicy,
    output: &mut Vec<u8>,
) -> (r: Result<(), PngError>)
    requires
        c.within(input@),
        c.len <= u32::MAX,
        c.typ == IHDR ==> c.len == 13,
    ensures
        c.typ == IHDR && c.view_in(input@).1[12] != 0 ==> r == Err::<(), PngError>(
            PngError::Unsupported,
        ) && final(output)@ == old(output)@,
        c.typ == IHDR && c.view_in(input@).1[12] == 0 ==> r is Ok && final(output)@ == old(output)@
            + chunk_bytes(IHDR, cropped_ihdr(c.view_in(input@).1, *rect)),
        c.typ == IDAT ==> r is Ok && final(output)@ == old(output)@,
        c.typ == IEND ==> r is Ok && final(output)@ == old(output)@ + chunk_bytes(IEND, c.view_in(input@).1),
        c.typ != IHDR && c.typ != IDAT && c.typ != IEND ==> r is Ok && final(output)@ == old(output)@
            + if keeps(policy.dropped@, c.typ) {
            chunk_bytes(c.typ, c.view_in(input@).1)
        } else {
            Seq::empty()
        },
{
    let n = input.len();
    assert(c.start + c.len <= n);
    if c.typ == IHDR {
        ihdr(input, c, rect, output)
    } else if c.typ == IDAT {
        Ok(())
    } else if c.typ == IEND || can_output(policy, c.typ) {
        push_chunk(output, c.typ, input, c.start, c.start + c.len);
        Ok(())
    } else {
        assert(output@ =~= output@ + Seq::<u8>::empty());
        Ok(())
    }
}

/// Appends the `IDAT` chunks of the cropped image: its image stream `f`, compressed.
pub fn idat(f: &Vec<u8>, output: &mut Vec<u8>)
    ensures
        final(output)@ == old(output)@ + encode_chunks(idat_chunks(deflate_of(f@))),
        inflate_of(deflate_of(f@)) == Some(f@),
{
    let z = deflate(f.as_slice());
    let ghost zs = z@;
    let n = z.len();
    let mut pos: usize = 0;
    let ghost mut emitted: Seq<(u32, Seq<u8>)> = Seq::empty();
    assert(emitted + idat_chunks(zs.skip(0)) =~= idat_chunks(zs)) by {
        assert(zs.skip(0) =~= zs);
    }
    loop
        invariant
            pos <= n == zs.len(),
            zs == z@,
            zs == deflate_of(f@),
            inflate_of(zs) == Some(f@),
            output@ == old(output)@ + encode_chunks(emitted),
            emitted + idat_chunks(zs.skip(pos as int)) == idat_chunks(zs),
        decreases n - pos,
    {
        let ghost rest = zs.skip(pos as int);
        if n - pos <= IDAT_MAX {
            push_chunk(output, IDAT, z.as_slice(), pos, n);
            proof {
                assert(zs.subrange(pos as int, n as int) =~= rest);
                lemma_encode_push(emitted, (IDAT, rest));
                assert(idat_chunks(rest) == seq![(IDAT, rest)]);
                assert(emitted.push((IDAT, rest)) =~= emitted + idat_chunks(rest));
                assert(output@ == old(output)@ + encode_chunks(idat_chunks(zs)));
            }
            return;
        }
        push_chunk(output, IDAT, z.as_slice(), pos, pos + IDAT_MAX);
        proof {
            let piece = zs.subrange(pos as int, pos + IDAT_MAX);
            assert(rest.take(IDAT_MAX as int) =~= piece);
            assert(rest.skip(IDAT_MAX as int) =~= zs.skip(pos + IDAT_MAX));
            lemma_encode_push(emitted, (IDAT, piece));
            assert(emitted.push((IDAT, piece)) + idat_chunks(zs.skip(pos + IDAT_MAX)) =~= emitted + idat_chunks(rest));
            emitted = emitted.push((IDAT, piece));
        }
        pos = pos + IDAT_MAX;
    }
}

/// Writes the cropped file: signature, new `IHDR`, the chunks the policy copies, the new
/// `IDAT` chunks and `IEND`.
fn assemble(
    input: &[u8],
    chunks: &Vec<Chunk>,
    f: &Vec<u8>,
    rect: &Rect,
    policy: &ChunkPolicy,
) -> (out: Vec<u8>)
    requires
        well_framed(chunk_views(chunks@, input@)),
        !repeats_critical(chunk_views(chunks@, input@)),
        chunks@.len() >= 1,
        chunks@[0].typ == IHDR,
        chunks@[0].len == 13,
        forall|j: int| 0 <= j < chunks@.len() ==> (#[trigger] chunks@[j]).within(input@),
        chunk_views(chunks@, input@)[0].1[12] == 0,
    ensures
        ({
            let cs = chunk_views(chunks@, input@);
            &&& out@ == png_bytes(output_chunks(cropped_ihdr(cs[0].1, *rect), kept_chunks(cs, policy.dropped@), deflate_of(f@)))
            &&& inflate_of(deflate_of(f@)) == Some(f@)
        }),
{
    let ghost cs = chunk_views(chunks@, input@);
    let ghost dropped = policy.dropped@;
    let n = chunks.len();
    let first = chunks[0];
    assert(cs[0] == first.view_in(input@));
    let ghost d = cropped_ihdr(cs[0].1, *rect);
    let mut out: Vec<u8> = Vec::new();
    out.push(0x89u8);
    out.push(0x50u8);
    out.push(0x4Eu8);
    out.push(0x47u8);
    out.push(0x0Du8);
    out.push(0x0Au8);
    out.push(0x1Au8);
    out.push(0x0Au8);
    assert(out@ =~= signature());
    let r0 = crop_chunk(input, &first, rect, policy, &mut out);
    assert(r0 is Ok);
    proof {
        lemma_encode_push(Seq::empty(), (IHDR, d));
        assert(Seq::<(u32, Seq<u8>)>::empty().push((IHDR, d)) =~= seq![(IHDR, d)]);
        assert(cs.take(1).drop_last() =~= cs.take(0));
        assert(cs.take(0) =~= Seq::<(u32, Seq<u8>)>::empty());
        assert(cs[0].0 == IHDR);
        assert(!passes(dropped, cs.take(1).last().0));
        assert(kept_chunks(cs.take(1), dropped) == kept_chunks(cs.take(0), dropped));
        assert(kept_chunks(cs.take(0), dropped) == Seq::<(u32, Seq<u8>)>::empty());
        assert(cs.take(1).last() == cs[0]);
        assert(seq![(IHDR, d)] + kept_chunks(cs.take(1), dropped) =~= seq![(IHDR, d)]);
        assert(encode_chunks(Seq::<(u32, Seq<u8>)>::empty()) == Seq::<u8>::empty());
        assert(out@ =~= signature() + encode_chunks(seq![(IHDR, d)] + kept_chunks(cs.take(1), dropped)));
    }
    let mut k: usize = 1;
    while k < n - 1
        invariant
            1 <= k <= n - 1,
            n == chunks@.len(),
            cs == chunk_views(chunks@, input@),
            well_framed(cs),
            !repeats_critical(cs),
            cs[0].0 == IHDR,
            forall|j: int| 0 <= j < chunks@.len() ==> (#[trigger] chunks@[j]).within(input@),
            out@ == signature() + encode_chunks(seq![(IHDR, d)] + kept_chunks(cs.take(k as int), dropped)),
            dropped == policy.dropped@,
        decreases n - k,
    {
        let c = chunks[k];
        assert(cs[k as int] == c.view_in(input@));
        assert(c.len <= u32::MAX);
        assert(k < cs.len() - 1);
        assert(cs[k as int].0 != IEND);
        assert(c.typ != IHDR) by {
            if c.typ == IHDR {
                assert(cs[0].0 == cs[k as int].0 && cs[0].0 != IDAT && is_critical(cs[0].0));
            }
        }
        let ghost before = seq![(IHDR, d)] + kept_chunks(cs.take(k as int), dropped);
        let rk = crop_chunk(input, &c, rect, policy, &mut out);
        proof {
            assert(cs.take(k + 1).drop_last() =~= cs.take(k as int));
            assert(cs.take(k + 1).last() == cs[k as int]);
            if passes(dropped, c.typ) {
                lemma_encode_push(before, cs[k as int]);
                assert(before.push(cs[k as int]) =~= seq![(IHDR, d)] + kept_chunks(cs.take(k + 1), dropped));
            } else {
                assert(before =~= seq![(IHDR, d)] + kept_chunks(cs.take(k + 1), dropped));
                assert(out@ =~= signature() + encode_chunks(before));
            }
        }
        k = k + 1;
    }
    assert(cs.drop_last() =~= cs.take(k as int));
    assert(kept_chunks(cs, dropped) == kept_chunks(cs.take(k as int), dropped));
    let ghost kept = kept_chunks(cs, dropped);
    idat(f, &mut out);
    let ghost z = deflate_of(f@);
    let last_chunk = chunks[n - 1];
    assert(cs[n - 1] == last_chunk.view_in(input@));
    assert(cs.last() == cs[n - 1]);
    let re = crop_chunk(input, &last_chunk, rect, policy, &mut out);
    proof {
        let ic = idat_chunks(z);
        let last = seq![(IEND, Seq::<u8>::empty())];
        lemma_encode_concat(seq![(IHDR, d)] + kept, ic);
        lemma_encode_push(seq![(IHDR, d)] + kept + ic, (IEND, Seq::<u8>::empty()));
        assert((seq![(IHDR, d)] + kept + ic).push((IEND, Seq::<u8>::empty())) =~= output_chunks(d, kept, z));
        assert(out@ =~= png_bytes(output_chunks(d, kept, z)));
    }
    out
}

/// Crops a PNG file to `rect`, dropping the ancillary chunks that `policy` lists.
pub fn crop_with_policy(input: &[u8], rect: &Rect, policy: &ChunkPolicy) -> (r: Result<Vec<u8>, PngError>)
    ensures
        match r {
            Ok(out) => crop_spec(input@, *rect, policy.dropped@) == Ok::<Seq<u8>, PngError>(out@),
            Err(e) => crop_spec(input@, *rect, policy.dropped@) == Err::<Seq<u8>, PngError>(e),
        },
        r is Ok ==> image_rows(r->Ok_0@) == crop_pixels(input@, *rect),
{
    let ghost s = input@;
    let ghost dropped = policy.dropped@;
    let (chunks, h) = match read_layout(input) {
        Ok(p) => p,
        Err(e) => return Err(e),
    };
    let ghost cs = chunk_views(chunks@, input@);
    proof {
        lemma_read_framed(s.skip(8));
    }
    let first = chunks[0];
    if rect.w == 0 || rect.h == 0 || rect.x as u64 + rect.w as u64 > h.width as u64 || rect.y as u64
        + rect.h as u64 > h.height as u64 {
        return Err(PngError::InvalidRect);
    }
    let bits = bits_of(&h);
    let pb = bytes_per_pixel(&h);
    assert(h.width * bits <= 0x40_0000_0000) by (nonlinear_arith)
        requires bits <= 64, h.width <= 0xFFFF_FFFF;
    let stride64 = (h.width as u64 * bits + 7) / 8;
    assert(stride64 == stride(h));
    assert(h.height * (stride64 + 1) <= 0xFFFF_FFFF * 0x8_0000_0001) by (nonlinear_arith)
        requires stride64 <= 0x8_0000_0000, h.height <= 0xFFFF_FFFF;
    let expected = h.height as u128 * (stride64 as u128 + 1);
    if expected > MAX_RAW as u128 {
        return Err(PngError::Unsupported);
    }
    let stream = idat_data(input, &chunks);
    let raw = match inflate(stream.as_slice(), expected as usize) {
        Some(v) => v,
        None => return Err(PngError::Corrupt),
    };
    if raw.len() as u128 != expected {
        return Err(PngError::Corrupt);
    }
    assert(stride64 + 1 <= raw@.len()) by (nonlinear_arith)
        requires raw@.len() == h.height * (stride64 + 1), h.height >= 1, stride64 >= 0;
    let stride = stride64 as usize;
    let height = h.height as usize;
    assert(raw@.len() == height * (stride + 1));
    let rows = match defilter_rows(&raw, stride, pb as usize, height) {
        Some(v) => v,
        None => return Err(PngError::Corrupt),
    };
    let ghost rv = rows_view(rows@);
    assert(pixels(cs, h) == Ok::<Seq<Seq<u8>>, PngError>(rv));
    proof {
        lemma_defilter_rows(raw@, stride as int, pb as int, height as int);
    }
    assert(rows@.len() == height);
    let f = if h.depth >= 8 {
        let ghost m = h.width * pb;
        assert(h.width * bits == 8 * m) by (nonlinear_arith)
            requires bits == 8 * pb, m == h.width * pb;
        assert(stride64 == m);
        assert((rect.x + rect.w) * pb <= 0x1_0000_0000 * 8) by (nonlinear_arith)
            requires pb <= 8, rect.x + rect.w <= 0x1_0000_0000;
        assert(rect.x * pb <= (rect.x + rect.w) * pb) by (nonlinear_arith)
            requires pb >= 0;
        let lo64 = rect.x as u64 * pb;
        let hi64 = (rect.x as u64 + rect.w as u64) * pb;
        assert(lo64 <= hi64 <= stride64) by (nonlinear_arith)
            requires lo64 == rect.x * pb, hi64 == (rect.x + rect.w) * pb, stride64 == h.width * pb,
                rect.x + rect.w <= h.width, pb >= 1;
        extract(&rows, rect.y as usize, rect.h as usize, lo64 as usize, hi64 as usize)
    } else {
        assert((rect.x + rect.w) * bits <= h.width * bits) by (nonlinear_arith)
            requires rect.x + rect.w <= h.width, bits >= 0;
        assert(h.width * bits <= stride64 * 8);
        assert(rect.x * bits <= (rect.x + rect.w) * bits && rect.w * bits <= (rect.x + rect.w) * bits)
            by (nonlinear_arith)
            requires bits >= 0;
        let start = rect.x as u64 * bits;
        let n = rect.w as u64 * bits;
        assert(start + n == (rect.x + rect.w) * bits) by (nonlinear_arith)
            requires start == rect.x * bits, n == rect.w * bits;
        extract_bits(&rows, rect.y as usize, rect.h as usize, start, n)
    };
    assert(f@ == filter_none(rect_rows(rv, *rect, h)));
    let out = assemble(input, &chunks, &f, rect, policy);
    proof {
        lemma_output_pixels(s, *rect, dropped);
    }
    Ok(out)
}

/// Crops a PNG file to `rect`, dropping the ancillary chunks tied to the old geometry.
pub fn crop(input: &[u8], rect: &Rect) -> (r: Result<Vec<u8>, PngError>)
    ensures
        match r {
            Ok(out) => crop_spec(input@, *rect, seq![PHYS, OFFS, HIST]) == Ok::<Seq<u8>, PngError>(out@),
            Err(e) => crop_spec(input@, *rect, seq![PHYS, OFFS, HIST]) == Err::<Seq<u8>, PngError>(e),
        },
        r is Ok ==> image_rows(r->Ok_0@) == crop_pixels(input@, *rect),
{
    let policy = ChunkPolicy::standard();
    crop_with_policy(input, rect, &policy)
}

/// Bit and byte counts of pixels of 8 bits or more.
proof fn lemma_whole_bytes(h: Header, w: int)
    requires
        supported(h),
        h.depth >= 8,
        w >= 0,
    ensures
        bits_per_pixel(h) == 8 * pixel_bytes(h),
        (w * bits_per_pixel(h) + 7) / 8 == w * pixel_bytes(h),
        1 <= pixel_bytes(h) <= 8,
{
    let pb = pixel_bytes(h);
    assert(bits_per_pixel(h) == 8 * pb);
    assert(w * bits_per_pixel(h) == 8 * (w * pb)) by (nonlinear_arith)
        requires bits_per_pixel(h) == 8 * pb;
    assert(0 <= w * pb) by (nonlinear_arith) requires w >= 0, pb >= 1;
}

/// The rows inside the rectangle are `rect.h` rows of `rect.w` pixels.
proof fn lemma_cropped_rows(s: Seq<u8>, r: Rect, dropped: Seq<u32>)
    requires
        crop_spec(s, r, dropped) is Ok,
    ensures
        ({
            let (cs, h) = layout(s)->Ok_0;
            let cr = rect_rows(pixels(cs, h)->Ok_0, r, h);
            &&& cr.len() == r.h
            &&& forall|i: int| 0 <= i < cr.len() ==> (#[trigger] cr[i]).len() == (r.w * bits_per_pixel(h) + 7) / 8
        }),
{
    let (cs, h) = layout(s)->Ok_0;
    let rows = pixels(cs, h)->Ok_0;
    let pb = pixel_bytes(h);
    let cr = rect_rows(rows, r, h);
    let raw = inflate_of(idat_stream(cs))->Some_0;
    lemma_defilter_rows(raw, stride(h), pb, h.height as int);
    if h.depth >= 8 {
        lemma_whole_bytes(h, r.w as int);
        lemma_whole_bytes(h, h.width as int);
        assert((r.x + r.w) * pb <= h.width * pb) by (nonlinear_arith)
            requires r.x + r.w <= h.width, pb >= 0;
        assert(r.x * pb + r.w * pb == (r.x + r.w) * pb) by (nonlinear_arith);
        assert(0 <= r.x * pb) by (nonlinear_arith) requires pb >= 0;
        assert forall|i: int| 0 <= i < cr.len() implies (#[trigger] cr[i]).len() == (r.w * bits_per_pixel(h) + 7) / 8 by {
            assert(rows[r.y + i].len() == stride(h));
        }
    } else {
        assert(0 <= r.w * bits_per_pixel(h)) by (nonlinear_arith) requires bits_per_pixel(h) >= 0;
    }
}

/// The rectangle that covers a whole image of such rows selects them all.
proof fn lemma_whole_rect(rows: Seq<Seq<u8>>, r: Rect, h: Header)
    requires
        supported(h),
        h.depth >= 8,
        r.x == 0 && r.y == 0,
        rows.len() == r.h,
        forall|i: int| 0 <= i < rows.len() ==> (#[trigger] rows[i]).len() == (r.w * bits_per_pixel(h) + 7) / 8,
    ensures
        rect_rows(rows, r, h) == rows,
{
    lemma_whole_bytes(h, r.w as int);
    assert(0 * pixel_bytes(h) == 0);
    assert forall|i: int| 0 <= i < rows.len() implies (#[trigger] rows[i]).subrange(0, r.w * pixel_bytes(h)) == rows[i] by {
        assert(rows[i].subrange(0, r.w * pixel_bytes(h)) =~= rows[i]);
    }
    assert(rect_rows(rows, r, h) =~= rows);
}

/// A successful crop writes a file that opens with the PNG signature and whose chunk
/// stream reads back whole, ending with an empty `IEND`; every chunk of it is written
/// with the CRC of its type and data, and reading it checks each of those CRCs.
pub proof fn crop_output_is_framed(input: Seq<u8>, rect: Rect, dropped: Seq<u32>)
    requires
        crop_spec(input, rect, dropped) is Ok,
    ensures
        ({
            let out = crop_spec(input, rect, dropped)->Ok_0;
            &&& out.take(8) == signature()
            &&& chunks_of(out.skip(8)) is Ok
            &&& chunks_of(out.skip(8))->Ok_0.last() == (IEND, Seq::<u8>::empty())
            &&& out == png_bytes(chunks_of(out.skip(8))->Ok_0)
        }),
{
    lemma_output_layout(input, rect, dropped);
}

/// The header of a cropped file is the input's header with the rectangle's width and
/// height; bit depth, colour type and the three methods are the input's.
pub proof fn crop_output_header(input: Seq<u8>, rect: Rect, dropped: Seq<u32>)
    requires
        crop_spec(input, rect, dropped) is Ok,
    ensures
        layout(crop_spec(input, rect, dropped)->Ok_0) is Ok,
        layout(crop_spec(input, rect, dropped)->Ok_0)->Ok_0.1 == (Header {
            width: rect.w,
            height: rect.h,
            ..layout(input)->Ok_0.1
        }),
{
    lemma_output_layout(input, rect, dropped);
}

/// Cropping a cropped file again to its whole extent gives the same bytes, given that
/// its pixels are those of the rectangle (which `crop` ensures).
pub proof fn crop_is_idempotent(input: Seq<u8>, rect: Rect, dropped: Seq<u32>, out: Seq<u8>)
    requires
        crop_spec(input, rect, dropped) == Ok::<Seq<u8>, PngError>(out),
        image_rows(out) == crop_pixels(input, rect),
    ensures
        crop_spec(out, Rect { x: 0, y: 0, w: rect.w, h: rect.h }, dropped) == Ok::<Seq<u8>, PngError>(out),
{
    let (cs, h) = layout(input)->Ok_0;
    let rows = pixels(cs, h)->Ok_0;
    let (ocs, h2, z) = crop_parts(input, rect, dropped);
    lemma_output_layout(input, rect, dropped);
    let full = Rect { x: 0, y: 0, w: rect.w, h: rect.h };
    let pb = pixel_bytes(h);
    let cr = rect_rows(rows, rect, h);
    assert(pixel_bytes(h2) == pb);
    assert(pixels(ocs, h2) == Ok::<Seq<Seq<u8>>, PngError>(cr));
    lemma_cropped_rows(input, rect, dropped);
    if h.depth >= 8 {
        lemma_whole_rect(cr, full, h2);
    } else {
        let bits = bits_per_pixel(h);
        assert(bits_per_pixel(h2) == bits);
        assert(0 * bits == 0);
        assert(0 <= rect.w * bits) by (nonlinear_arith) requires bits >= 0;
        lemma_bit_rows_again(rows, rect.y as int, rect.h as int, rect.x * bits, rect.w * bits);
    }
    let d = cropped_ihdr(cs[0].1, rect);
    assert(cropped_ihdr(d, full) =~= d);
    assert(ocs[0] == (IHDR, d));
}

/// A file that does not open with the PNG signature is refused as such.
pub proof fn crop_rejects_signature(input: Seq<u8>, rect: Rect, dropped: Seq<u32>)
    requires
        !has_signature(input),
    ensures
        crop_spec(input, rect, dropped) == Err::<Seq<u8>, PngError>(PngError::InvalidSignature),
{
}

/// A file whose last chunk declares more data than the buffer holds is refused as
/// truncated.
pub proof fn crop_rejects_truncated(cs: Seq<(u32, Seq<u8>)>, tail: Seq<u8>, rect: Rect, dropped: Seq<u32>)
    requires
        forall|i: int| 0 <= i < cs.len() ==> (#[trigger] cs[i]).0 != IEND && cs[i].1.len() <= u32::MAX,
        tail.len() >= 4,
        be_u32(tail.subrange(0, 4)) + 12 > tail.len(),
    ensures
        crop_spec(signature() + encode_chunks(cs) + tail, rect, dropped) == Err::<Seq<u8>, PngError>(
            PngError::Truncated,
        ),
{
    let s = signature() + encode_chunks(cs) + tail;
    lemma_read_truncated(cs, tail);
    assert(s.take(8) =~= signature());
    assert(s.skip(8) =~= encode_chunks(cs) + tail);
}

/// A rectangle that reaches past the image's right edge is refused.
pub proof fn crop_rejects_wide_rect(input: Seq<u8>, rect: Rect, dropped: Seq<u32>)
    requires
        layout(input) is Ok,
        rect.x + rect.w > layout(input)->Ok_0.1.width,
    ensures
        crop_spec(input, rect, dropped) == Err::<Seq<u8>, PngError>(PngError::InvalidRect),
{
}

/// Every pixel of a cropped file, bit by bit, is the pixel of the input at the same place
/// in the rectangle: the output has `rect.h` rows, and bit `t` of pixel `j` of row `i`
/// equals bit `t` of pixel `rect.x + j` of row `rect.y + i` of the input's restored rows.
/// That the output's pixels are those of the rectangle is what `crop` ensures.
pub proof fn crop_pixels_identical(input: Seq<u8>, rect: Rect, dropped: Seq<u32>, out: Seq<u8>)
    requires
        crop_spec(input, rect, dropped) == Ok::<Seq<u8>, PngError>(out),
        image_rows(out) == crop_pixels(input, rect),
    ensures
        ({
            let (cs, h) = layout(input)->Ok_0;
            let p = pixels(cs, h)->Ok_0;
            let q = image_rows(out)->Ok_0;
            let bits = bits_per_pixel(h);
            &&& image_rows(out) is Ok
            &&& q.len() == rect.h
            &&& forall|i: int, j: int, t: int|
                0 <= i < rect.h && 0 <= j < rect.w && 0 <= t < bits ==> #[trigger] bit_at(q[i], j * bits + t)
                    == bit_at(p[rect.y + i], (rect.x + j) * bits + t)
        }),
{
    let (cs, h) = layout(input)->Ok_0;
    let p = pixels(cs, h)->Ok_0;
    let q = rect_rows(p, rect, h);
    let bits = bits_per_pixel(h);
    let pb = pixel_bytes(h);
    lemma_cropped_rows(input, rect, dropped);
    let raw = inflate_of(idat_stream(cs))->Some_0;
    lemma_defilter_rows(raw, stride(h), pb, h.height as int);
    assert forall|i: int, j: int, t: int|
        0 <= i < rect.h && 0 <= j < rect.w && 0 <= t < bits implies #[trigger] bit_at(q[i], j * bits + t)
            == bit_at(p[rect.y + i], (rect.x + j) * bits + t) by {
        let k = j * bits + t;
        assert(bits >= 0) by (nonlinear_arith)
            requires bits == channels(h.color) * h.depth, channels(h.color) >= 0;
        assert(j * bits + bits <= rect.w * bits) by (nonlinear_arith)
            requires j + 1 <= rect.w, bits >= 0;
        assert(0 <= k) by (nonlinear_arith) requires k == j * bits + t, 0 <= j, 0 <= t, bits >= 0;
        assert((rect.x + j) * bits + t == rect.x * bits + k) by (nonlinear_arith)
            requires k == j * bits + t;
        if h.depth >= 8 {
            lemma_whole_bytes(h, rect.x as int);
            lemma_whole_bytes(h, rect.w as int);
            lemma_whole_bytes(h, (rect.x + rect.w) as int);
            lemma_whole_bytes(h, h.width as int);
            let m = rect.x * pb;
            assert(rect.x * bits == 8 * m) by (nonlinear_arith)
                requires bits == 8 * pb, m == rect.x * pb;
            assert((8 * m + k) / 8 == m + k / 8);
            assert((8 * m + k) % 8 == k % 8);
            assert((rect.x + rect.w) * pb <= h.width * pb) by (nonlinear_arith)
                requires rect.x + rect.w <= h.width, pb >= 0;
            assert(rect.x * pb + rect.w * pb == (rect.x + rect.w) * pb) by (nonlinear_arith);
            assert(0 <= m) by (nonlinear_arith) requires m == rect.x * pb, pb >= 0;
            assert(p[rect.y + i].len() == stride(h));
            assert(k / 8 < rect.w * pb);
            assert(q[i][k / 8] == p[rect.y + i][m + k / 8]);
        } else {
            lemma_crop_bits_bit(p[rect.y + i], rect.x * bits, rect.w * bits, k);
        }
    }
}

} // verus!
