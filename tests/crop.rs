use png_crop::chunk::{Chunk, IDAT, IEND, IHDR};
use png_crop::crop::{crop_chunk, ihdr};
use png_crop::crop::{HIST, OFFS, PHYS};
use png_crop::{can_output, crop, crop_with_policy, ChunkPolicy, PngError, Rect};

const SIG: [u8; 8] = [0x89, 0x50, 0x4E, 0x47, 0x0D, 0x0A, 0x1A, 0x0A];

fn chunk(typ: &[u8; 4], data: &[u8]) -> Vec<u8> {
    let mut out = Vec::new();
    out.extend_from_slice(&(data.len() as u32).to_be_bytes());
    let mut body = typ.to_vec();
    body.extend_from_slice(data);
    out.extend_from_slice(&body);
    out.extend_from_slice(&crc32fast::hash(&body).to_be_bytes());
    out
}

fn ihdr_data(w: u32, h: u32, depth: u8, color: u8, interlace: u8) -> Vec<u8> {
    let mut d = Vec::new();
    d.extend_from_slice(&w.to_be_bytes());
    d.extend_from_slice(&h.to_be_bytes());
    d.extend_from_slice(&[depth, color, 0, 0, interlace]);
    d
}

/// A PNG whose image stream (filter bytes included) is `raw`, with `extra` chunks placed
/// between IHDR and IDAT.
fn png_with(ihdr: &[u8], raw: &[u8], extra: &[Vec<u8>]) -> Vec<u8> {
    let mut out = SIG.to_vec();
    out.extend(chunk(b"IHDR", ihdr));
    for c in extra {
        out.extend_from_slice(c);
    }
    out.extend(chunk(b"IDAT", &miniz_oxide::deflate::compress_to_vec_zlib(raw, 6)));
    out.extend(chunk(b"IEND", &[]));
    out
}

/// Rows written with filter type None.
fn unfiltered(rows: &[Vec<u8>]) -> Vec<u8> {
    let mut raw = Vec::new();
    for r in rows {
        raw.push(0);
        raw.extend_from_slice(r);
    }
    raw
}

fn gray4x4() -> (Vec<u8>, Vec<Vec<u8>>) {
    let rows: Vec<Vec<u8>> = (0..4).map(|y| (0..4).map(|x| (y * 4 + x) as u8 * 10).collect()).collect();
    (png_with(&ihdr_data(4, 4, 8, 0, 0), &unfiltered(&rows), &[]), rows)
}

struct Parsed {
    chunks: Vec<([u8; 4], Vec<u8>)>,
}

/// Reads a chunk stream, checking every CRC.
fn parse(png: &[u8]) -> Parsed {
    assert_eq!(&png[..8], &SIG);
    let mut pos = 8;
    let mut chunks = Vec::new();
    loop {
        let len = u32::from_be_bytes(png[pos..pos + 4].try_into().unwrap()) as usize;
        let typ: [u8; 4] = png[pos + 4..pos + 8].try_into().unwrap();
        let data = png[pos + 8..pos + 8 + len].to_vec();
        let crc = u32::from_be_bytes(png[pos + 8 + len..pos + 12 + len].try_into().unwrap());
        assert_eq!(crc, crc32fast::hash(&png[pos + 4..pos + 8 + len]));
        chunks.push((typ, data));
        pos += 12 + len;
        if &typ == b"IEND" {
            break;
        }
    }
    assert_eq!(pos, png.len());
    Parsed { chunks }
}

/// The rows of an output file (whose rows all have filter type None).
fn rows_of(png: &[u8]) -> Vec<Vec<u8>> {
    let p = parse(png);
    let ihdr = &p.chunks[0].1;
    let w = u32::from_be_bytes(ihdr[0..4].try_into().unwrap()) as usize;
    let h = u32::from_be_bytes(ihdr[4..8].try_into().unwrap()) as usize;
    let channels = match ihdr[9] {
        0 | 3 => 1,
        2 => 3,
        4 => 2,
        _ => 4,
    };
    let row_bytes = (w * channels * ihdr[8] as usize + 7) / 8;
    let mut z = Vec::new();
    for (t, d) in &p.chunks {
        if t == b"IDAT" {
            z.extend_from_slice(d);
        }
    }
    let raw = miniz_oxide::inflate::decompress_to_vec_zlib(&z).unwrap();
    assert_eq!(raw.len(), h * (row_bytes + 1));
    raw.chunks(row_bytes + 1)
        .map(|r| {
            assert_eq!(r[0], 0);
            r[1..].to_vec()
        })
        .collect()
}

#[test]
fn it_works() {
    assert_eq!(2 + 2, 4);
}

#[test]
fn gray_4x4_interior_block() {
    let (png, _) = gray4x4();
    let out = crop(&png, &Rect::new(1, 1, 2, 2)).unwrap();
    assert_eq!(rows_of(&out), vec![vec![50, 60], vec![90, 100]]);
}

#[test]
fn output_framing_and_crcs() {
    let (png, _) = gray4x4();
    let out = crop(&png, &Rect::new(0, 1, 3, 2)).unwrap();
    assert_eq!(&out[..8], &SIG);
    assert_eq!(&out[out.len() - 12..], &chunk(b"IEND", &[])[..]);
    let p = parse(&out);
    assert_eq!(&p.chunks.last().unwrap().0, b"IEND");
    assert_eq!(&p.chunks[0].0, b"IHDR");
}

#[test]
fn output_header_fields() {
    let rows: Vec<Vec<u8>> = (0..5).map(|y| (0..7 * 3).map(|x| (x * 7 + y) as u8).collect()).collect();
    let png = png_with(&ihdr_data(7, 5, 8, 2, 0), &unfiltered(&rows), &[]);
    let out = crop(&png, &Rect::new(2, 1, 4, 3)).unwrap();
    let p = parse(&out);
    assert_eq!(p.chunks[0].1, ihdr_data(4, 3, 8, 2, 0));
    let want: Vec<Vec<u8>> = (1..4).map(|y| rows[y][6..18].to_vec()).collect();
    assert_eq!(rows_of(&out), want);
}

#[test]
fn cropping_again_to_whole_extent_is_identity() {
    let (png, _) = gray4x4();
    let out = crop(&png, &Rect::new(1, 0, 3, 2)).unwrap();
    let again = crop(&out, &Rect::new(0, 0, 3, 2)).unwrap();
    assert_eq!(again, out);
}

#[test]
fn whole_image_keeps_pixels() {
    let (png, rows) = gray4x4();
    let out = crop(&png, &Rect::new(0, 0, 4, 4)).unwrap();
    assert_eq!(rows_of(&out), rows);
}

#[test]
fn altered_signature_is_refused() {
    let (mut png, _) = gray4x4();
    png[1] = b'Q';
    assert_eq!(crop(&png, &Rect::new(0, 0, 1, 1)), Err(PngError::InvalidSignature));
    assert_eq!(crop(&SIG[..5], &Rect::new(0, 0, 1, 1)), Err(PngError::InvalidSignature));
}

#[test]
fn truncated_last_chunk_is_refused() {
    let (png, _) = gray4x4();
    let cut = &png[..png.len() - 3];
    assert_eq!(crop(cut, &Rect::new(0, 0, 1, 1)), Err(PngError::Truncated));
    let mut long = SIG.to_vec();
    long.extend(chunk(b"IHDR", &ihdr_data(4, 4, 8, 0, 0)));
    long.extend_from_slice(&[0, 0, 1, 0, b't', b'E', b'X', b't', 1, 2, 3]);
    assert_eq!(crop(&long, &Rect::new(0, 0, 1, 1)), Err(PngError::Truncated));
}

#[test]
fn missing_iend_is_truncated() {
    let (png, _) = gray4x4();
    assert_eq!(crop(&png[..png.len() - 12], &Rect::new(0, 0, 1, 1)), Err(PngError::Truncated));
}

#[test]
fn rect_past_right_edge_is_refused() {
    let (png, _) = gray4x4();
    assert_eq!(crop(&png, &Rect::new(3, 0, 2, 1)), Err(PngError::InvalidRect));
    assert_eq!(crop(&png, &Rect::new(0, 2, 1, 3)), Err(PngError::InvalidRect));
    assert_eq!(crop(&png, &Rect::new(0, 0, 0, 1)), Err(PngError::InvalidRect));
    assert_eq!(crop(&png, &Rect::new(0, 0, 1, 0)), Err(PngError::InvalidRect));
    assert_eq!(crop(&png, &Rect::new(u32::MAX, 0, 2, 1)), Err(PngError::InvalidRect));
}

#[test]
fn bad_crc_is_corrupt() {
    let (mut png, _) = gray4x4();
    // last data byte of IHDR
    png[8 + 8 + 12] ^= 1;
    assert_eq!(crop(&png, &Rect::new(0, 0, 1, 1)), Err(PngError::Corrupt));
}

#[test]
fn interlaced_and_bad_depths_are_unsupported() {
    let rows = vec![vec![0u8; 4]; 4];
    let png = png_with(&ihdr_data(4, 4, 8, 0, 1), &unfiltered(&rows), &[]);
    assert_eq!(crop(&png, &Rect::new(0, 0, 1, 1)), Err(PngError::Unsupported));
    let png = png_with(&ihdr_data(4, 4, 4, 2, 0), &unfiltered(&rows), &[]);
    assert_eq!(crop(&png, &Rect::new(0, 0, 1, 1)), Err(PngError::Unsupported));
    let png = png_with(&ihdr_data(4, 4, 3, 0, 0), &unfiltered(&rows), &[]);
    assert_eq!(crop(&png, &Rect::new(0, 0, 1, 1)), Err(PngError::Unsupported));
    let png = png_with(&ihdr_data(4, 4, 16, 3, 0), &unfiltered(&rows), &[]);
    assert_eq!(crop(&png, &Rect::new(0, 0, 1, 1)), Err(PngError::Unsupported));
    let png = png_with(&ihdr_data(4, 4, 8, 5, 0), &unfiltered(&rows), &[]);
    assert_eq!(crop(&png, &Rect::new(0, 0, 1, 1)), Err(PngError::Unsupported));
}

/// Packs the bits `[start, start + n)` of `row` into bytes, padding with zero bits.
fn bits(row: &[u8], start: usize, n: usize) -> Vec<u8> {
    let mut out = vec![0u8; (n + 7) / 8];
    for k in 0..n {
        let i = start + k;
        let b = (row[i / 8] >> (7 - i % 8)) & 1;
        out[k / 8] |= b << (7 - k % 8);
    }
    out
}

#[test]
fn one_bit_gray_is_cut_by_bits() {
    // 10 pixels of 1 bit: two bytes per row.
    let rows = vec![vec![0b1011_0110, 0b1100_0000], vec![0b0101_1101, 0b0100_0000], vec![0xFF, 0xC0]];
    let png = png_with(&ihdr_data(10, 3, 1, 0, 0), &filtered(&rows, 1, &[0, 2, 1]), &[]);
    let out = crop(&png, &Rect::new(3, 1, 5, 2)).unwrap();
    assert_eq!(rows_of(&out), vec![vec![0b1110_1000], vec![0b1111_1000]]);
    assert_eq!(parse(&out).chunks[0].1, ihdr_data(5, 2, 1, 0, 0));
}

#[test]
fn two_and_four_bit_rows_match_bit_extraction() {
    for depth in [2u8, 4] {
        let w = 9usize;
        let row_bytes = (w * depth as usize + 7) / 8;
        let rows: Vec<Vec<u8>> = (0..4).map(|y| (0..row_bytes).map(|x| (x * 53 + y * 29 + 7) as u8).collect()).collect();
        // zero the padding bits of each source row
        let rows: Vec<Vec<u8>> = rows.iter().map(|r| bits(r, 0, w * depth as usize)).collect();
        let png = png_with(&ihdr_data(w as u32, 4, depth, 3, 0), &filtered(&rows, 1, &[3, 4]), &[]);
        let out = crop(&png, &Rect::new(1, 1, 7, 3)).unwrap();
        let d = depth as usize;
        let want: Vec<Vec<u8>> = (1..4).map(|y| bits(&rows[y], d, 7 * d)).collect();
        assert_eq!(rows_of(&out), want);
        let again = crop(&out, &Rect::new(0, 0, 7, 3)).unwrap();
        assert_eq!(again, out);
    }
}

#[test]
fn inconsistent_pixel_data_is_corrupt() {
    let rows = vec![vec![1u8; 4]; 3];
    let png = png_with(&ihdr_data(4, 4, 8, 0, 0), &unfiltered(&rows), &[]);
    assert_eq!(crop(&png, &Rect::new(0, 0, 1, 1)), Err(PngError::Corrupt));
    let mut raw = unfiltered(&vec![vec![1u8; 4]; 4]);
    raw[5] = 7;
    let png = png_with(&ihdr_data(4, 4, 8, 0, 0), &raw, &[]);
    assert_eq!(crop(&png, &Rect::new(0, 0, 1, 1)), Err(PngError::Corrupt));
}

#[test]
fn undecodable_idat_is_corrupt() {
    let mut png = SIG.to_vec();
    png.extend(chunk(b"IHDR", &ihdr_data(2, 2, 8, 0, 0)));
    png.extend(chunk(b"IDAT", &[1, 2, 3, 4]));
    png.extend(chunk(b"IEND", &[]));
    assert_eq!(crop(&png, &Rect::new(0, 0, 1, 1)), Err(PngError::Corrupt));
}

#[test]
fn second_ihdr_is_corrupt() {
    let (png, _) = gray4x4();
    let mut two = png[..8 + 25].to_vec();
    two.extend(chunk(b"IHDR", &ihdr_data(4, 4, 8, 0, 0)));
    two.extend_from_slice(&png[8 + 25..]);
    assert_eq!(crop(&two, &Rect::new(0, 0, 1, 1)), Err(PngError::Corrupt));
}

fn paeth(a: u8, b: u8, c: u8) -> u8 {
    let p = a as i32 + b as i32 - c as i32;
    let (pa, pb, pc) = ((p - a as i32).abs(), (p - b as i32).abs(), (p - c as i32).abs());
    if pa <= pb && pa <= pc {
        a
    } else if pb <= pc {
        b
    } else {
        c
    }
}

/// Rows filtered with the given type, row by row.
fn filtered(rows: &[Vec<u8>], bpp: usize, types: &[u8]) -> Vec<u8> {
    let mut raw = Vec::new();
    let zero = vec![0u8; rows[0].len()];
    for (i, row) in rows.iter().enumerate() {
        let prev = if i == 0 { &zero } else { &rows[i - 1] };
        let ft = types[i % types.len()];
        raw.push(ft);
        for k in 0..row.len() {
            let a = if k >= bpp { row[k - bpp] } else { 0 };
            let b = prev[k];
            let c = if k >= bpp { prev[k - bpp] } else { 0 };
            let pred = match ft {
                0 => 0,
                1 => a,
                2 => b,
                3 => ((a as u16 + b as u16) / 2) as u8,
                _ => paeth(a, b, c),
            };
            raw.push(row[k].wrapping_sub(pred));
        }
    }
    raw
}

#[test]
fn every_filter_type_is_restored() {
    let rows: Vec<Vec<u8>> = (0..6)
        .map(|y| (0..5 * 4).map(|x| ((x * 37 + y * 91) % 251) as u8).collect())
        .collect();
    let png = png_with(&ihdr_data(5, 6, 8, 6, 0), &filtered(&rows, 4, &[1, 2, 3, 4, 0]), &[]);
    let out = crop(&png, &Rect::new(1, 2, 3, 4)).unwrap();
    let want: Vec<Vec<u8>> = (2..6).map(|y| rows[y][4..16].to_vec()).collect();
    assert_eq!(rows_of(&out), want);
}

#[test]
fn sixteen_bit_gray_alpha() {
    let rows: Vec<Vec<u8>> = (0..3).map(|y| (0..4 * 4).map(|x| (x + 16 * y) as u8).collect()).collect();
    let png = png_with(&ihdr_data(4, 3, 16, 4, 0), &filtered(&rows, 4, &[4, 3]), &[]);
    let out = crop(&png, &Rect::new(2, 1, 2, 2)).unwrap();
    let want: Vec<Vec<u8>> = (1..3).map(|y| rows[y][8..16].to_vec()).collect();
    assert_eq!(rows_of(&out), want);
    assert_eq!(parse(&out).chunks[0].1, ihdr_data(2, 2, 16, 4, 0));
}

#[test]
fn split_idat_input_is_joined() {
    let (_, rows) = gray4x4();
    let z = miniz_oxide::deflate::compress_to_vec_zlib(&unfiltered(&rows), 6);
    let mut png = SIG.to_vec();
    png.extend(chunk(b"IHDR", &ihdr_data(4, 4, 8, 0, 0)));
    png.extend(chunk(b"IDAT", &z[..3]));
    png.extend(chunk(b"tEXt", b"k\0v"));
    png.extend(chunk(b"IDAT", &z[3..]));
    png.extend(chunk(b"IEND", &[]));
    let out = crop(&png, &Rect::new(2, 2, 2, 2)).unwrap();
    assert_eq!(rows_of(&out), vec![vec![100, 110], vec![140, 150]]);
    let types: Vec<[u8; 4]> = parse(&out).chunks.iter().map(|c| c.0).collect();
    assert_eq!(types, vec![*b"IHDR", *b"tEXt", *b"IDAT", *b"IEND"]);
}

#[test]
fn large_output_is_split_into_several_idat() {
    let (w, h) = (800usize, 500usize);
    let mut x: u32 = 12345;
    let rows: Vec<Vec<u8>> = (0..h)
        .map(|_| {
            (0..w * 3)
                .map(|_| {
                    x = x.wrapping_mul(1103515245).wrapping_add(12345);
                    (x >> 16) as u8
                })
                .collect()
        })
        .collect();
    let png = png_with(&ihdr_data(w as u32, h as u32, 8, 2, 0), &unfiltered(&rows), &[]);
    let out = crop(&png, &Rect::new(0, 0, w as u32, h as u32)).unwrap();
    let p = parse(&out);
    let idats: Vec<&Vec<u8>> = p.chunks.iter().filter(|c| &c.0 == b"IDAT").map(|c| &c.1).collect();
    assert!(idats.len() >= 2);
    assert_eq!(idats[0].len(), 1048576);
    assert_eq!(rows_of(&out), rows);
}

#[test]
fn standard_policy_drops_geometry_chunks() {
    let (_, rows) = gray4x4();
    let extra = vec![
        chunk(b"pHYs", &[0, 0, 11, 19, 0, 0, 11, 19, 1]),
        chunk(b"tEXt", b"Title\0x"),
        chunk(b"oFFs", &[0; 9]),
        chunk(b"gAMA", &[0, 0, 177, 143]),
    ];
    let png = png_with(&ihdr_data(4, 4, 8, 0, 0), &unfiltered(&rows), &extra);
    let out = crop(&png, &Rect::new(0, 0, 2, 2)).unwrap();
    let p = parse(&out);
    let types: Vec<[u8; 4]> = p.chunks.iter().map(|c| c.0).collect();
    assert_eq!(types, vec![*b"IHDR", *b"tEXt", *b"gAMA", *b"IDAT", *b"IEND"]);
    assert_eq!(p.chunks[1].1, b"Title\0x".to_vec());

    let keep_all = ChunkPolicy::dropping(vec![]);
    let out = crop_with_policy(&png, &Rect::new(0, 0, 2, 2), &keep_all).unwrap();
    let types: Vec<[u8; 4]> = parse(&out).chunks.iter().map(|c| c.0).collect();
    assert_eq!(types, vec![*b"IHDR", *b"pHYs", *b"tEXt", *b"oFFs", *b"gAMA", *b"IDAT", *b"IEND"]);
}

#[test]
fn critical_chunks_are_never_dropped() {
    let policy = ChunkPolicy::dropping(vec![u32::from_be_bytes(*b"PLTE"), u32::from_be_bytes(*b"tEXt")]);
    assert!(can_output(&policy, u32::from_be_bytes(*b"PLTE")));
    assert!(!can_output(&policy, u32::from_be_bytes(*b"tEXt")));
    assert!(can_output(&policy, u32::from_be_bytes(*b"zTXt")));
    assert!(can_output(&policy, IHDR));
    assert!(can_output(&policy, IDAT));
    assert!(can_output(&policy, IEND));
    let standard = ChunkPolicy::standard();
    assert!(!can_output(&standard, PHYS));
    assert!(!can_output(&standard, OFFS));
    assert!(!can_output(&standard, HIST));
    assert_eq!(PHYS, u32::from_be_bytes(*b"pHYs"));
    assert_eq!(OFFS, u32::from_be_bytes(*b"oFFs"));
    assert_eq!(HIST, u32::from_be_bytes(*b"hIST"));
    assert_eq!(IHDR, u32::from_be_bytes(*b"IHDR"));
}

#[test]
fn palette_image_keeps_plte() {
    let rows: Vec<Vec<u8>> = (0..3).map(|y| vec![y as u8, 1, 2]).collect();
    let plte = chunk(b"PLTE", &[0, 0, 0, 255, 0, 0, 0, 255, 0]);
    let png = png_with(&ihdr_data(3, 3, 8, 3, 0), &unfiltered(&rows), &[plte]);
    let out = crop(&png, &Rect::new(1, 1, 2, 1)).unwrap();
    let p = parse(&out);
    assert_eq!(&p.chunks[1].0, b"PLTE");
    assert_eq!(rows_of(&out), vec![vec![1, 2]]);
}

#[test]
fn oversized_image_is_unsupported() {
    let png = png_with(&ihdr_data(100_000, 100_000, 8, 0, 0), &[0, 1, 2], &[]);
    assert_eq!(crop(&png, &Rect::new(0, 0, 1, 1)), Err(PngError::Unsupported));
}

#[test]
fn stream_longer_than_header_says_is_corrupt() {
    let png = png_with(&ihdr_data(4, 4, 8, 0, 0), &vec![0u8; 1 << 20], &[]);
    assert_eq!(crop(&png, &Rect::new(0, 0, 1, 1)), Err(PngError::Corrupt));
}

#[test]
fn repeated_plte_is_corrupt() {
    let rows: Vec<Vec<u8>> = (0..2).map(|_| vec![0u8, 1]).collect();
    let plte = chunk(b"PLTE", &[0, 0, 0, 255, 255, 255]);
    let png = png_with(&ihdr_data(2, 2, 8, 3, 0), &unfiltered(&rows), &[plte.clone(), plte]);
    assert_eq!(crop(&png, &Rect::new(0, 0, 1, 1)), Err(PngError::Corrupt));
}

#[test]
fn repeated_ancillary_chunks_are_kept() {
    let (_, rows) = gray4x4();
    let t = chunk(b"tEXt", b"a\0b");
    let png = png_with(&ihdr_data(4, 4, 8, 0, 0), &unfiltered(&rows), &[t.clone(), t]);
    let out = crop(&png, &Rect::new(0, 0, 1, 1)).unwrap();
    let types: Vec<[u8; 4]> = parse(&out).chunks.iter().map(|c| c.0).collect();
    assert_eq!(types, vec![*b"IHDR", *b"tEXt", *b"tEXt", *b"IDAT", *b"IEND"]);
}

#[test]
fn ihdr_refuses_interlace_and_writes_nothing() {
    let mut buf = chunk(b"IHDR", &ihdr_data(4, 4, 8, 0, 1));
    let c = Chunk::new(IHDR, 8, 13);
    let mut out = vec![7u8];
    assert_eq!(ihdr(&buf, &c, &Rect::new(0, 0, 2, 2), &mut out), Err(PngError::Unsupported));
    assert_eq!(out, vec![7u8]);
    buf[8 + 12] = 0;
    assert_eq!(ihdr(&buf, &c, &Rect::new(0, 0, 2, 3), &mut out), Ok(()));
    let mut want = vec![7u8];
    want.extend(chunk(b"IHDR", &ihdr_data(2, 3, 8, 0, 0)));
    assert_eq!(out, want);
}

#[test]
fn crop_chunk_dispatches_by_type() {
    let policy = ChunkPolicy::standard();
    let rect = Rect::new(1, 1, 2, 2);
    let h = chunk(b"IHDR", &ihdr_data(4, 4, 8, 0, 0));
    let mut out = Vec::new();
    assert_eq!(crop_chunk(&h, &Chunk::new(IHDR, 8, 13), &rect, &policy, &mut out), Ok(()));
    assert_eq!(out, chunk(b"IHDR", &ihdr_data(2, 2, 8, 0, 0)));

    let d = chunk(b"IDAT", &[1, 2, 3]);
    let mut out = Vec::new();
    assert_eq!(crop_chunk(&d, &Chunk::new(IDAT, 8, 3), &rect, &policy, &mut out), Ok(()));
    assert!(out.is_empty());

    let e = chunk(b"IEND", &[]);
    let mut out = Vec::new();
    assert_eq!(crop_chunk(&e, &Chunk::new(IEND, 8, 0), &rect, &policy, &mut out), Ok(()));
    assert_eq!(out, e);

    let t = chunk(b"tEXt", b"k\0v");
    let mut out = Vec::new();
    let tt = u32::from_be_bytes(*b"tEXt");
    assert_eq!(crop_chunk(&t, &Chunk::new(tt, 8, 3), &rect, &policy, &mut out), Ok(()));
    assert_eq!(out, t);

    let p = chunk(b"pHYs", &[0; 9]);
    let mut out = Vec::new();
    assert_eq!(crop_chunk(&p, &Chunk::new(PHYS, 8, 9), &rect, &policy, &mut out), Ok(()));
    assert!(out.is_empty());
}
