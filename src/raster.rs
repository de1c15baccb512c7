use vstd::prelude::*;

verus! {

/// The zlib stream `s` decompressed, or `None` where it cannot be.
pub uninterp spec fn inflate_of(s: Seq<u8>) -> Option<Seq<u8>>;

/// The zlib stream that the compressor makes of `s`.
pub uninterp spec fn deflate_of(s: Seq<u8>) -> Seq<u8>;

/// Relies on `miniz_oxide::inflate::decompress_to_vec_zlib_with_limit`: the decompressed
/// bytes of a zlib stream, or an error where the stream is not valid or its output does
/// not fit in `max` bytes.
#[verifier::external_body]
pub(crate) fn inflate(s: &[u8], max: usize) -> (r: Option<Vec<u8>>)
    ensures
        match r {
            Some(v) => inflate_of(s@) == Some(v@),
            None => inflate_of(s@) is None || inflate_of(s@)->Some_0.len() > max,
        },
{
    miniz_oxide::inflate::decompress_to_vec_zlib_with_limit(s, max).ok()
}

/// Relies on `miniz_oxide::deflate::compress_to_vec_zlib` at level 6: a zlib stream
/// that decompresses to exactly the bytes given, the compressor being lossless.
#[verifier::external_body]
pub(crate) fn deflate(s: &[u8]) -> (r: Vec<u8>)
    ensures
        r@ == deflate_of(s@),
        inflate_of(r@) == Some(s@),
{
    miniz_oxide::deflate::compress_to_vec_zlib(s, 6)
}

/// The Paeth predictor of PNG filter type 4.
pub open spec fn paeth(a: u8, b: u8, c: u8) -> u8 {
    let p = a as int + b as int - c as int;
    let pa = if p >= a { p - a } else { a - p };
    let pb = if p >= b { p - b } else { b - p };
    let pc = if p >= c { p - c } else { c - p };
    if pa <= pb && pa <= pc {
        a
    } else if pb <= pc {
        b
    } else {
        c
    }
}

/// The byte that filter type `ft` restores from filtered byte `x`, given the restored byte
/// `a` one pixel to the left, `b` above, and `c` above and to the left.
pub open spec fn recon_byte(ft: u8, x: u8, a: u8, b: u8, c: u8) -> u8 {
    if ft == 0 {
        x
    } else if ft == 1 {
        ((x + a) % 256) as u8
    } else if ft == 2 {
        ((x + b) % 256) as u8
    } else if ft == 3 {
        ((x + (a + b) / 2) % 256) as u8
    } else {
        ((x + paeth(a, b, c)) % 256) as u8
    }
}

/// The first `n` restored bytes of a row whose filtered bytes are `f`, restored under
/// filter type `ft` against the restored row `prev` above it.
pub open spec fn recon_prefix(f: Seq<u8>, prev: Seq<u8>, ft: u8, bpp: int, n: int) -> Seq<u8>
    decreases n,
{
    if n <= 0 {
        Seq::empty()
    } else {
        let r = recon_prefix(f, prev, ft, bpp, n - 1);
        let k = n - 1;
        let a = if k >= bpp { r[k - bpp] } else { 0u8 };
        let c = if k >= bpp { prev[k - bpp] } else { 0u8 };
        r.push(recon_byte(ft, f[k], a, prev[k], c))
    }
}

pub open spec fn zeros(n: int) -> Seq<u8> {
    Seq::new(n as nat, |i: int| 0u8)
}

/// The first `n` rows restored from a decompressed image stream whose rows are `stride`
/// bytes, each after a filter-type byte; `None` where a filter type is not 0 to 4.
pub open spec fn defilter(raw: Seq<u8>, stride: int, bpp: int, n: int) -> Option<Seq<Seq<u8>>>
    decreases n,
{
    if n <= 0 {
        Some(Seq::empty())
    } else {
        match defilter(raw, stride, bpp, n - 1) {
            None => None,
            Some(rows) => {
                let line = raw.subrange((n - 1) * (stride + 1), n * (stride + 1));
                if line[0] > 4 {
                    None
                } else {
                    let prev = if n == 1 { zeros(stride) } else { rows.last() };
                    Some(rows.push(recon_prefix(line.skip(1), prev, line[0], bpp, stride)))
                }
            }
        }
    }
}

/// The byte columns `[lo, hi)` of the rows `[y, y + h)`.
pub open spec fn crop_rows(rows: Seq<Seq<u8>>, y: int, h: int, lo: int, hi: int) -> Seq<Seq<u8>> {
    Seq::new(h as nat, |i: int| rows[y + i].subrange(lo, hi))
}

/// The rows as an image stream in which every row has filter type None.
pub open spec fn filter_none(rows: Seq<Seq<u8>>) -> Seq<u8>
    decreases rows.len(),
{
    if rows.len() == 0 {
        Seq::empty()
    } else {
        filter_none(rows.drop_last()) + seq![0u8] + rows.last()
    }
}

pub proof fn lemma_recon_len(f: Seq<u8>, prev: Seq<u8>, ft: u8, bpp: int, n: int)
    ensures
        n >= 0 ==> recon_prefix(f, prev, ft, bpp, n).len() == n,
    decreases n,
{
    if n > 0 {
        lemma_recon_len(f, prev, ft, bpp, n - 1);
    }
}

proof fn lemma_recon_none(f: Seq<u8>, prev: Seq<u8>, bpp: int, n: int)
    requires
        0 <= n <= f.len(),
    ensures
        recon_prefix(f, prev, 0, bpp, n) == f.take(n),
    decreases n,
{
    if n > 0 {
        lemma_recon_none(f, prev, bpp, n - 1);
        assert(f.take(n - 1).push(f[n - 1]) =~= f.take(n));
    }
}

proof fn lemma_defilter_prefix(r1: Seq<u8>, r2: Seq<u8>, stride: int, bpp: int, n: int)
    requires
        0 <= n,
        0 <= stride,
        n * (stride + 1) <= r1.len(),
        n * (stride + 1) <= r2.len(),
        r1.take(n * (stride + 1)) == r2.take(n * (stride + 1)),
    ensures
        defilter(r1, stride, bpp, n) == defilter(r2, stride, bpp, n),
    decreases n,
{
    if n > 0 {
        let m = n - 1;
        let e = n * (stride + 1);
        assert(m * (stride + 1) + (stride + 1) == e) by (nonlinear_arith)
            requires m + 1 == n, e == n * (stride + 1);
        assert(0 <= m * (stride + 1)) by (nonlinear_arith)
            requires m >= 0, stride >= 0;
        assert(r1.take(m * (stride + 1)) =~= r1.take(e).take(m * (stride + 1)));
        assert(r2.take(m * (stride + 1)) =~= r2.take(e).take(m * (stride + 1)));
        lemma_defilter_prefix(r1, r2, stride, bpp, m);
        assert(r1.subrange(m * (stride + 1), e) =~= r1.take(e).subrange(m * (stride + 1), e));
        assert(r2.subrange(m * (stride + 1), e) =~= r2.take(e).subrange(m * (stride + 1), e));
    }
}

/// Restored rows are as many as asked for, each `stride` bytes long.
pub proof fn lemma_defilter_rows(raw: Seq<u8>, stride: int, bpp: int, n: int)
    requires
        0 <= stride,
        0 <= n,
        defilter(raw, stride, bpp, n) is Some,
    ensures
        defilter(raw, stride, bpp, n)->Some_0.len() == n,
        forall|i: int| 0 <= i < n ==> (#[trigger] defilter(raw, stride, bpp, n)->Some_0[i]).len() == stride,
    decreases n,
{
    if n > 0 {
        lemma_defilter_rows(raw, stride, bpp, n - 1);
        let rows = defilter(raw, stride, bpp, n - 1)->Some_0;
        let line = raw.subrange((n - 1) * (stride + 1), n * (stride + 1));
        let prev = if n == 1 { zeros(stride) } else { rows.last() };
        lemma_recon_len(line.skip(1), prev, line[0], bpp, stride);
        let all = defilter(raw, stride, bpp, n)->Some_0;
        assert forall|i: int| 0 <= i < n implies (#[trigger] all[i]).len() == stride by {
            if i < n - 1 {
                assert(all[i] == rows[i]);
            }
        }
    }
}

proof fn lemma_defilter_stays_none(raw: Seq<u8>, stride: int, bpp: int, n: int, m: int)
    requires
        1 <= n <= m,
        defilter(raw, stride, bpp, n) is None,
    ensures
        defilter(raw, stride, bpp, m) is None,
    decreases m - n,
{
    if n < m {
        lemma_defilter_stays_none(raw, stride, bpp, n, m - 1);
    }
}

/// Restoring an image stream whose rows are all filtered with None gives back the rows.
pub proof fn lemma_defilter_filter_none(rows: Seq<Seq<u8>>, stride: int, bpp: int)
    requires
        0 <= stride,
        forall|i: int| 0 <= i < rows.len() ==> (#[trigger] rows[i]).len() == stride,
    ensures
        filter_none(rows).len() == rows.len() * (stride + 1),
        defilter(filter_none(rows), stride, bpp, rows.len() as int) == Some(rows),
    decreases rows.len(),
{
    if rows.len() > 0 {
        let init = rows.drop_last();
        let m = init.len() as int;
        let n = rows.len() as int;
        assert forall|i: int| 0 <= i < init.len() implies (#[trigger] init[i]).len() == stride by {
            assert(init[i] == rows[i]);
        }
        lemma_defilter_filter_none(init, stride, bpp);
        let raw = filter_none(rows);
        let base = filter_none(init);
        assert(m * (stride + 1) + (stride + 1) == n * (stride + 1)) by (nonlinear_arith)
            requires m + 1 == n;
        assert(0 <= m * (stride + 1)) by (nonlinear_arith)
            requires m >= 0, stride >= 0;
        assert(raw.len() == n * (stride + 1));
        assert(raw.take(m * (stride + 1)) =~= base.take(m * (stride + 1)));
        lemma_defilter_prefix(raw, base, stride, bpp, m);
        let line = raw.subrange(m * (stride + 1), n * (stride + 1));
        assert(line =~= seq![0u8] + rows.last());
        assert(line.skip(1) =~= rows.last());
        lemma_recon_none(line.skip(1), if n == 1 { zeros(stride) } else { init.last() }, bpp, stride);
        assert(rows.last().take(stride as int) =~= rows.last());
        assert(init.push(rows.last()) =~= rows);
    }
}


/// Restores one filtered byte.
pub fn recon_byte_exec(ft: u8, x: u8, a: u8, b: u8, c: u8) -> (r: u8)
    requires
        ft <= 4,
    ensures
        r == recon_byte(ft, x, a, b, c),
{
    if ft == 0 {
        x
    } else if ft == 1 {
        ((x as u16 + a as u16) % 256) as u8
    } else if ft == 2 {
        ((x as u16 + b as u16) % 256) as u8
    } else if ft == 3 {
        ((x as u16 + (a as u16 + b as u16) / 2) % 256) as u8
    } else {
        let p = a as i32 + b as i32 - c as i32;
        let pa = if p >= a as i32 { p - a as i32 } else { a as i32 - p };
        let pb = if p >= b as i32 { p - b as i32 } else { b as i32 - p };
        let pc = if p >= c as i32 { p - c as i32 } else { c as i32 - p };
        let pred = if pa <= pb && pa <= pc {
            a
        } else if pb <= pc {
            b
        } else {
            c
        };
        ((x as u16 + pred as u16) % 256) as u8
    }
}

/// Restores the row whose filter-type byte stands at `raw[pos]`, against the restored
/// row `prev` above it.
fn recon_row(raw: &Vec<u8>, pos: usize, stride: usize, bpp: usize, prev: &Vec<u8>) -> (r: Vec<u8>)
    requires
        pos + 1 + stride <= raw@.len(),
        prev@.len() == stride,
        raw@[pos as int] <= 4,
        bpp >= 1,
    ensures
        r@ == recon_prefix(raw@.subrange(pos + 1, pos + 1 + stride), prev@, raw@[pos as int], bpp as int, stride as int),
{
    let n = raw.len();
    let ft = raw[pos];
    let ghost f = raw@.subrange(pos + 1, pos + 1 + stride);
    let mut cur: Vec<u8> = Vec::new();
    let mut k: usize = 0;
    while k < stride
        invariant
            k <= stride,
            bpp >= 1,
            n == raw@.len(),
            pos + 1 + stride <= raw@.len(),
            prev@.len() == stride,
            ft == raw@[pos as int],
            ft <= 4,
            f == raw@.subrange(pos + 1, pos + 1 + stride),
            cur@ == recon_prefix(f, prev@, ft, bpp as int, k as int),
        decreases stride - k,
    {
        proof {
            lemma_recon_len(f, prev@, ft, bpp as int, k as int);
        }
        let a = if k >= bpp { cur[k - bpp] } else { 0u8 };
        let c = if k >= bpp { prev[k - bpp] } else { 0u8 };
        let x = raw[pos + 1 + k];
        assert(x == f[k as int]);
        cur.push(recon_byte_exec(ft, x, a, prev[k], c));
        k = k + 1;
    }
    cur
}

/// The rows of `rows`, as sequences of bytes.
pub open spec fn rows_view(rows: Seq<Vec<u8>>) -> Seq<Seq<u8>> {
    Seq::new(rows.len(), |i: int| rows[i]@)
}

/// Restores every row of a decompressed image stream of `height` rows of `stride` bytes.
pub fn defilter_rows(raw: &Vec<u8>, stride: usize, bpp: usize, height: usize) -> (r: Option<Vec<Vec<u8>>>)
    requires
        raw@.len() == height * (stride + 1),
        bpp >= 1,
    ensures
        match r {
            Some(rows) => {
                &&& defilter(raw@, stride as int, bpp as int, height as int) == Some(rows_view(rows@))
                &&& forall|i: int| 0 <= i < rows@.len() ==> (#[trigger] rows@[i])@.len() == stride
            },
            None => defilter(raw@, stride as int, bpp as int, height as int) is None,
        },
{
    let mut zero: Vec<u8> = Vec::new();
    let mut k: usize = 0;
    while k < stride
        invariant
            k <= stride,
            zero@ == zeros(k as int),
        decreases stride - k,
    {
        zero.push(0u8);
        k = k + 1;
        assert(zero@ =~= zeros(k as int));
    }
    let n = raw.len();
    let mut rows: Vec<Vec<u8>> = Vec::new();
    let mut i: usize = 0;
    let mut pos: usize = 0;
    while i < height
        invariant
            i <= height,
            bpp >= 1,
            n == raw@.len(),
            raw@.len() == height * (stride + 1),
            pos == i * (stride + 1),
            zero@ == zeros(stride as int),
            rows@.len() == i,
            defilter(raw@, stride as int, bpp as int, i as int) == Some(rows_view(rows@)),
            forall|j: int| 0 <= j < rows@.len() ==> (#[trigger] rows@[j])@.len() == stride,
        decreases height - i,
    {
        assert((i + 1) * (stride + 1) <= height * (stride + 1)) by (nonlinear_arith)
            requires i < height;
        assert((i + 1) * (stride + 1) == pos + stride + 1) by (nonlinear_arith)
            requires pos == i * (stride + 1);
        let ghost line = raw@.subrange(pos as int, pos + stride + 1);
        assert(line[0] == raw@[pos as int]);
        if raw[pos] > 4 {
            proof {
                lemma_defilter_stays_none(raw@, stride as int, bpp as int, i + 1, height as int);
            }
            return None;
        }
        assert(line.skip(1) =~= raw@.subrange(pos + 1, pos + 1 + stride));
        let row = if i == 0 {
            recon_row(raw, pos, stride, bpp, &zero)
        } else {
            assert(rows_view(rows@).last() == rows@[i - 1]@);
            recon_row(raw, pos, stride, bpp, &rows[i - 1])
        };
        proof {
            lemma_recon_len(line.skip(1), if i == 0 { zero@ } else { rows@[i - 1]@ }, line[0], bpp as int, stride as int);
        }
        let ghost before = rows@;
        rows.push(row);
        assert(rows_view(rows@) =~= rows_view(before).push(row@));
        i = i + 1;
        pos = pos + stride + 1;
    }
    Some(rows)
}

/// The byte columns `[lo, hi)` of the rows `[y, y + h)`, as an image stream in which
/// every row has filter type None.
pub fn extract(rows: &Vec<Vec<u8>>, y: usize, h: usize, lo: usize, hi: usize) -> (r: Vec<u8>)
    requires
        y + h <= rows@.len(),
        lo <= hi,
        forall|i: int| 0 <= i < rows@.len() ==> hi <= (#[trigger] rows@[i])@.len(),
    ensures
        r@ == filter_none(crop_rows(rows_view(rows@), y as int, h as int, lo as int, hi as int)),
{
    let n = rows.len();
    let mut out: Vec<u8> = Vec::new();
    let mut i: usize = 0;
    while i < h
        invariant
            i <= h,
            n == rows@.len(),
            y + h <= rows@.len(),
            lo <= hi,
            forall|j: int| 0 <= j < rows@.len() ==> hi <= (#[trigger] rows@[j])@.len(),
            out@ == filter_none(crop_rows(rows_view(rows@), y as int, i as int, lo as int, hi as int)),
        decreases h - i,
    {
        out.push(0u8);
        let row: &Vec<u8> = &rows[y + i];
        assert(hi <= rows@[y + i]@.len());
        crate::bytes::push_range(&mut out, row.as_slice(), lo, hi);
        let ghost next = crop_rows(rows_view(rows@), y as int, i + 1, lo as int, hi as int);
        assert(next.drop_last() =~= crop_rows(rows_view(rows@), y as int, i as int, lo as int, hi as int));
        i = i + 1;
    }
    out
}

/// Bit `i` of a row, counting from the most significant bit of its first byte.
pub open spec fn bit_at(row: Seq<u8>, i: int) -> u8 {
    (row[i / 8] >> ((7 - i % 8) as u8)) & 1u8
}

/// The first `b` bits of byte `j` of the bits `[start, start + n)` of a row, packed from
/// the most significant end; bits past `n` are zero.
pub open spec fn packed_prefix(row: Seq<u8>, start: int, n: int, j: int, b: int) -> u8
    decreases b,
{
    if b <= 0 {
        0u8
    } else {
        let acc = packed_prefix(row, start, n, j, b - 1);
        let k = 8 * j + b - 1;
        let v = if k < n { bit_at(row, start + k) } else { 0u8 };
        (acc << 1u8) | v
    }
}

/// The bits `[start, start + n)` of a row, packed into whole bytes padded with zero bits.
pub open spec fn crop_bits(row: Seq<u8>, start: int, n: int) -> Seq<u8> {
    Seq::new(((n + 7) / 8) as nat, |j: int| packed_prefix(row, start, n, j, 8))
}

/// The bit columns `[start, start + n)` of the rows `[y, y + h)`.
pub open spec fn bit_rows(rows: Seq<Seq<u8>>, y: int, h: int, start: int, n: int) -> Seq<Seq<u8>> {
    Seq::new(h as nat, |i: int| crop_bits(rows[y + i], start, n))
}

proof fn lemma_bit_step(acc: u8, v: u8, t: u8)
    requires
        v <= 1,
        t < 7,
    ensures
        (((acc << 1u8) | v) >> ((t + 1) as u8)) & 1u8 == (acc >> t) & 1u8,
        (((acc << 1u8) | v) >> 0u8) & 1u8 == v,
{
    assert((((acc << 1u8) | v) >> ((t + 1) as u8)) & 1u8 == (acc >> t) & 1u8) by (bit_vector)
        requires v <= 1, t < 7;
    assert((((acc << 1u8) | v) >> 0u8) & 1u8 == v) by (bit_vector)
        requires v <= 1;
}

/// Bit `t` (from the top) of a packed byte is bit `8 * j + t` of the packed range.
proof fn lemma_packed_bit(row: Seq<u8>, start: int, n: int, j: int, b: int, t: int)
    requires
        0 <= t < b <= 8,
    ensures
        (packed_prefix(row, start, n, j, b) >> ((b - 1 - t) as u8)) & 1u8 == (if 8 * j + t < n {
            bit_at(row, start + 8 * j + t)
        } else {
            0u8
        }),
    decreases b,
{
    let acc = packed_prefix(row, start, n, j, b - 1);
    let k = 8 * j + b - 1;
    let v = if k < n { bit_at(row, start + k) } else { 0u8 };
    assert(v <= 1) by {
        if k < n {
            let x = row[(start + k) / 8];
            let sh = (7 - (start + k) % 8) as u8;
            assert((x >> sh) & 1u8 <= 1) by (bit_vector);
        }
    }
    if t == b - 1 {
        lemma_bit_step(acc, v, 0);
    } else {
        lemma_packed_bit(row, start, n, j, b - 1, t);
        lemma_bit_step(acc, v, (b - 2 - t) as u8);
    }
}

/// Bit `k` of a packed range is bit `start + k` of the row.
pub proof fn lemma_crop_bits_bit(row: Seq<u8>, start: int, n: int, k: int)
    requires
        0 <= k < n,
    ensures
        bit_at(crop_bits(row, start, n), k) == bit_at(row, start + k),
{
    let j = k / 8;
    let t = k % 8;
    assert(8 * j + t == k);
    assert(j < (n + 7) / 8);
    lemma_packed_bit(row, start, n, j, 8, t);
}

/// Packing again the whole of a packed range gives it back.
pub proof fn lemma_crop_bits_again(row: Seq<u8>, start: int, n: int)
    requires
        0 <= n,
    ensures
        crop_bits(crop_bits(row, start, n), 0, n) == crop_bits(row, start, n),
{
    let r = crop_bits(row, start, n);
    assert forall|j: int| 0 <= j < r.len() implies #[trigger] packed_prefix(r, 0, n, j, 8) == r[j] by {
        lemma_packed_again(row, start, n, j, 8);
    }
    assert(crop_bits(r, 0, n) =~= r);
}

proof fn lemma_packed_again(row: Seq<u8>, start: int, n: int, j: int, b: int)
    requires
        0 <= n,
        0 <= j < (n + 7) / 8,
        0 <= b <= 8,
    ensures
        packed_prefix(crop_bits(row, start, n), 0, n, j, b) == packed_prefix(row, start, n, j, b),
    decreases b,
{
    if b > 0 {
        lemma_packed_again(row, start, n, j, b - 1);
        let r = crop_bits(row, start, n);
        let k = 8 * j + b - 1;
        if k < n {
            assert(k / 8 == j && k % 8 == b - 1);
            lemma_packed_bit(row, start, n, j, 8, b - 1);
            assert(bit_at(r, 0 + k) == bit_at(row, start + k));
        }
    }
}

/// Packing again the whole of packed rows gives them back.
pub proof fn lemma_bit_rows_again(rows: Seq<Seq<u8>>, y: int, h: int, start: int, n: int)
    requires
        0 <= n,
        0 <= h,
    ensures
        bit_rows(bit_rows(rows, y, h, start, n), 0, h, 0, n) == bit_rows(rows, y, h, start, n),
{
    let cr = bit_rows(rows, y, h, start, n);
    assert forall|i: int| 0 <= i < h implies #[trigger] crop_bits(cr[0 + i], 0, n) == cr[i] by {
        lemma_crop_bits_again(rows[y + i], start, n);
    }
    assert(bit_rows(cr, 0, h, 0, n) =~= cr);
}

/// Appends the bits `[start, start + n)` of `row`, packed into bytes.
fn pack_row(row: &Vec<u8>, start: u64, n: u64, out: &mut Vec<u8>)
    requires
        start + n <= row@.len() * 8,
        start + n + 8 <= u64::MAX,
    ensures
        final(out)@ == old(out)@ + crop_bits(row@, start as int, n as int),
{
    let rl = row.len();
    let nb: u64 = (n + 7) / 8;
    let mut j: u64 = 0;
    while j < nb
        invariant
            rl == row@.len(),
            j <= nb == (n + 7) / 8,
            start + n <= row@.len() * 8,
            start + n + 8 <= u64::MAX,
            out@ == old(out)@ + crop_bits(row@, start as int, n as int).take(j as int),
        decreases nb - j,
    {
        let mut acc: u8 = 0;
        let mut b: u64 = 0;
        while b < 8
            invariant
                rl == row@.len(),
                j < nb == (n + 7) / 8,
                b <= 8,
                start + n <= row@.len() * 8,
                start + n + 8 <= u64::MAX,
                acc == packed_prefix(row@, start as int, n as int, j as int, b as int),
            decreases 8 - b,
        {
            let k = 8 * j + b;
            let v: u8 = if k < n {
                let i = start + k;
                assert(i / 8 < row@.len());
                let byte = row[(i / 8) as usize];
                let sh = (7 - i % 8) as u8;
                assert(byte == row@[(i / 8) as int]);
                let bit = (byte >> sh) & 1u8;
                assert(bit == bit_at(row@, i as int));
                bit
            } else {
                0u8
            };
            assert(v == (if (k as int) < n { bit_at(row@, start + k) } else { 0u8 }));
            acc = (acc << 1u8) | v;
            b = b + 1;
        }
        let ghost before = out@;
        out.push(acc);
        assert(crop_bits(row@, start as int, n as int).take(j + 1) =~= crop_bits(row@, start as int, n as int).take(j as int).push(acc));
        j = j + 1;
    }
    assert(crop_bits(row@, start as int, n as int).take(nb as int) =~= crop_bits(row@, start as int, n as int));
}

/// The bit columns `[start, start + n)` of the rows `[y, y + h)`, as an image stream in
/// which every row has filter type None.
pub fn extract_bits(rows: &Vec<Vec<u8>>, y: usize, h: usize, start: u64, n: u64) -> (r: Vec<u8>)
    requires
        y + h <= rows@.len(),
        start + n + 8 <= u64::MAX,
        forall|i: int| 0 <= i < rows@.len() ==> start + n <= (#[trigger] rows@[i])@.len() * 8,
    ensures
        r@ == filter_none(bit_rows(rows_view(rows@), y as int, h as int, start as int, n as int)),
{
    let len = rows.len();
    let mut out: Vec<u8> = Vec::new();
    let mut i: usize = 0;
    while i < h
        invariant
            i <= h,
            len == rows@.len(),
            y + h <= rows@.len(),
            start + n + 8 <= u64::MAX,
            forall|j: int| 0 <= j < rows@.len() ==> start + n <= (#[trigger] rows@[j])@.len() * 8,
            out@ == filter_none(bit_rows(rows_view(rows@), y as int, i as int, start as int, n as int)),
        decreases h - i,
    {
        out.push(0u8);
        let row: &Vec<u8> = &rows[y + i];
        assert(start + n <= rows@[y + i]@.len() * 8);
        pack_row(row, start, n, &mut out);
        let ghost next = bit_rows(rows_view(rows@), y as int, i + 1, start as int, n as int);
        assert(next.drop_last() =~= bit_rows(rows_view(rows@), y as int, i as int, start as int, n as int));
        i = i + 1;
    }
    out
}

} // verus!
