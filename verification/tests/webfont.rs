//! Decoding of WOFF, WOFF2 and raw sfnt resources.

use oxidepage_layout::webfont::{
    accept_decoded, be_u16, be_u32, decode_font, font_format, woff1_tables_within_budget,
    FontFormat, MAX_DECODED_FONT_SIZE, WOFF1_HEADER_SIZE,
};

fn u16s(out: &mut Vec<u8>, values: &[u16]) {
    for v in values {
        out.extend_from_slice(&v.to_be_bytes());
    }
}

fn u32s(out: &mut Vec<u8>, values: &[u32]) {
    for v in values {
        out.extend_from_slice(&v.to_be_bytes());
    }
}

/// A table payload that is long enough for every field to be in a block of its own.
fn payload() -> Vec<u8> {
    (0u8..200).collect()
}

/// A WOFF with one stored table.
fn test_woff() -> Vec<u8> {
    let data = payload();
    let offset = (WOFF1_HEADER_SIZE + 20) as u32;
    let length = offset + data.len() as u32;
    let mut out = b"wOFF".to_vec();
    u32s(&mut out, &[0x0001_0000, length]);
    u16s(&mut out, &[1, 0]);
    u32s(&mut out, &[12 + 16 + data.len() as u32]);
    u16s(&mut out, &[1, 0]);
    u32s(&mut out, &[0, 0, 0, 0, 0]);
    assert_eq!(out.len(), WOFF1_HEADER_SIZE);
    out.extend_from_slice(b"cvt ");
    u32s(&mut out, &[offset, data.len() as u32, data.len() as u32, 0]);
    out.extend_from_slice(&data);
    out
}

/// A brotli stream that stores `data` without compressing it.
fn stored_brotli(data: &[u8]) -> Vec<u8> {
    // A window of 16 bits, then one uncompressed block whose length has 16 bits.
    let mut out = Vec::new();
    let length = (data.len() - 1) as u32;
    // WBITS 0, ISLAST 0, MNIBBLES 00, MLEN - 1 in 16 bits, ISUNCOMPRESSED 1.
    let bits: u32 = (length << 4) | (1 << 20);
    out.push((bits & 0xff) as u8);
    out.push(((bits >> 8) & 0xff) as u8);
    out.push(((bits >> 16) & 0xff) as u8);
    out.extend_from_slice(data);
    // ISLAST 1, ISLASTEMPTY 1.
    out.push(0x03);
    out
}

/// A WOFF2 with one table that is not transformed.
fn test_woff2() -> Vec<u8> {
    let data = payload();
    let block = stored_brotli(&data);
    // An entry of the table directory: a tag of its own, and the table's length.
    let mut entry = vec![0x3f];
    entry.extend_from_slice(b"test");
    entry.extend_from_slice(&[0x81, (data.len() & 0x7f) as u8]);
    let unpadded = 48 + entry.len() + block.len();
    let length = (unpadded + 3) / 4 * 4;
    let mut out = b"wOF2".to_vec();
    u32s(&mut out, &[0x0001_0000, length as u32]);
    u16s(&mut out, &[1, 0]);
    u32s(&mut out, &[12 + 16 + data.len() as u32, block.len() as u32]);
    u16s(&mut out, &[1, 0]);
    u32s(&mut out, &[0, 0, 0, 0, 0]);
    assert_eq!(out.len(), 48);
    out.extend_from_slice(&entry);
    out.extend_from_slice(&block);
    out.resize(length, 0);
    out
}

#[test]
fn valid_woff2_decodes_to_sfnt() {
    let sfnt = decode_font(&test_woff2()).expect("valid woff2 decodes");
    assert!(!sfnt.is_empty());
    assert!(sfnt.len() <= MAX_DECODED_FONT_SIZE);
    assert_eq!(&sfnt[0..4], &[0x00, 0x01, 0x00, 0x00], "sfnt signature");
    assert_eq!(&sfnt[28..228], payload().as_slice());
}

#[test]
fn truncated_woff2_returns_none() {
    // Cut the file in half: the (intact) header still declares the full
    // compressed block, which no longer fits — must reject, not panic.
    let whole = test_woff2();
    assert_eq!(decode_font(&whole[..whole.len() / 2]), None);
    // A blob too short to even hold the size fields is also rejected.
    assert_eq!(decode_font(&whole[..8]), None);
}

#[test]
fn oversized_declared_sizes_return_none() {
    // Oversized totalCompressedSize @20.
    let mut oversized_compressed = test_woff2();
    oversized_compressed[20..24].copy_from_slice(&u32::MAX.to_be_bytes());
    assert_eq!(decode_font(&oversized_compressed), None);

    // Oversized totalSfntSize @16.
    let mut oversized_sfnt = test_woff2();
    oversized_sfnt[16..20].copy_from_slice(&u32::MAX.to_be_bytes());
    assert_eq!(decode_font(&oversized_sfnt), None);
}

#[test]
fn valid_woff1_decodes_to_sfnt() {
    // Control: the per-table budget check must not reject a real font.
    let sfnt = decode_font(&test_woff()).expect("valid woff1 decodes");
    assert!(!sfnt.is_empty());
    assert_eq!(&sfnt[0..4], &[0x00, 0x01, 0x00, 0x00], "sfnt signature");
    assert_eq!(&sfnt[28..228], payload().as_slice());
}

#[test]
fn woff1_with_an_oversized_table_orig_length_returns_none() {
    // The header's `totalSfntSize` stays small and plausible, proving the
    // *per-table* check is what rejects it.
    let mut hostile = test_woff();
    let orig_length = WOFF1_HEADER_SIZE + 12;
    hostile[orig_length..orig_length + 4].copy_from_slice(&u32::MAX.to_be_bytes());
    assert_eq!(decode_font(&hostile), None);
    assert!(!woff1_tables_within_budget(&hostile));
}

#[test]
fn woff1_table_beyond_the_blob_returns_none() {
    // A table whose compressed block runs past the end of the data.
    let mut hostile = test_woff();
    let comp_length = WOFF1_HEADER_SIZE + 8;
    hostile[comp_length..comp_length + 4].copy_from_slice(&u32::MAX.to_be_bytes());
    assert_eq!(decode_font(&hostile), None);
    assert!(woff1_tables_within_budget(&test_woff()));
}

#[test]
fn corrupt_brotli_woff2_returns_none() {
    // Keep the header (and its size fields) intact so the pre-checks pass
    // and the decompressor is actually invoked, but scramble the compressed
    // data block.
    let mut corrupt = test_woff2();
    let half = corrupt.len() / 2;
    for byte in &mut corrupt[48..half] {
        *byte = 0xFF;
    }
    assert_eq!(decode_font(&corrupt), None);
}

#[test]
fn corrupt_brotli_trailer_woff2_returns_none() {
    let mut corrupt = test_woff2();
    let half = corrupt.len() / 2;
    for byte in &mut corrupt[half..] {
        *byte = 0xFF;
    }
    // The stored block itself holds any bytes; its end marker does not.
    assert_eq!(decode_font(&corrupt), None);
}

#[test]
fn ttf_passes_through_unchanged() {
    for signature in [*b"OTTO", *b"true", *b"ttcf", [0, 1, 0, 0]] {
        let mut font = signature.to_vec();
        font.extend_from_slice(&payload());
        let decoded = decode_font(&font).expect("ttf decodes");
        assert_eq!(decoded, font, "raw sfnt is returned verbatim");
    }
}

#[test]
fn unknown_signature_is_rejected() {
    assert!(decode_font(b"%PDF-1.7 not a font").is_none());
    assert!(decode_font(&[0x00, 0x00]).is_none(), "too short");
    assert_eq!(font_format(b"wOF2"), Some(FontFormat::Woff2));
    assert_eq!(font_format(b"wOFF"), Some(FontFormat::Woff1));
    assert_eq!(font_format(b"wOFX"), None);
}

#[test]
fn big_endian_reads_stay_inside() {
    let bytes = [1u8, 2, 3, 4, 5];
    assert_eq!(be_u32(&bytes, 0), Some(0x0102_0304));
    assert_eq!(be_u32(&bytes, 1), Some(0x0203_0405));
    assert_eq!(be_u32(&bytes, 2), None);
    assert_eq!(be_u32(&bytes, usize::MAX), None);
    assert_eq!(be_u16(&bytes, 3), Some(0x0405));
    assert_eq!(be_u16(&bytes, 4), None);
    assert_eq!(be_u16(&bytes, usize::MAX), None);
}

/// A WOFF2 collection of `fonts` that all hold one table, listed `listed` times each,
/// and `private` bytes of private data.
fn test_collection(fonts: usize, listed: usize, private: usize) -> Vec<u8> {
    let data = payload();
    let block = stored_brotli(&data);
    let mut directories = vec![0x3f];
    directories.extend_from_slice(b"test");
    directories.extend_from_slice(&[0x81, (data.len() & 0x7f) as u8]);
    u32s(&mut directories, &[0x0001_0000]);
    directories.push(253);
    u16s(&mut directories, &[fonts as u16]);
    for _ in 0..fonts {
        directories.push(253);
        u16s(&mut directories, &[listed as u16]);
        u32s(&mut directories, &[0x0001_0000]);
        directories.resize(directories.len() + listed, 0);
    }
    let private_offset = (48 + directories.len() + block.len() + 3) / 4 * 4;
    let length = private_offset + private;
    let sfnt = 12 + fonts * (4 + 12 + 16) + data.len();
    let mut out = b"wOF2ttcf".to_vec();
    u32s(&mut out, &[length as u32]);
    u16s(&mut out, &[1, 0]);
    u32s(&mut out, &[sfnt as u32, block.len() as u32]);
    u16s(&mut out, &[1, 0]);
    let offset = if private == 0 { 0 } else { private_offset as u32 };
    u32s(&mut out, &[0, 0, 0, offset, private as u32]);
    assert_eq!(out.len(), 48);
    out.extend_from_slice(&directories);
    out.extend_from_slice(&block);
    out.resize(length, 0);
    out
}

#[test]
fn a_collection_decodes_to_a_collection() {
    let sfnt = decode_font(&test_collection(2, 1, 0)).expect("valid collection decodes");
    assert_eq!(&sfnt[0..4], b"ttcf");
    assert_eq!(be_u32(&sfnt, 8), Some(2));
    assert_eq!(&sfnt[76..276], payload().as_slice());
}

#[test]
fn only_its_directories_make_a_collection_too_large() {
    // The private data is no part of the directories, whatever its size.
    let private = decode_font(&test_collection(2, 1, 20_000_000)).expect("decodes");
    assert_eq!(private, decode_font(&test_collection(2, 1, 0)).expect("decodes"));
    assert_eq!(decode_font(&test_collection(300, 60_000, 0)), None);
    assert_eq!(decode_font(&test_collection(300, 60_000, 4)), None);
}

#[test]
fn oversized_results_are_dropped() {
    assert_eq!(accept_decoded(None), None);
    assert_eq!(accept_decoded(Some(vec![1, 2])), Some(vec![1, 2]));
    assert_eq!(accept_decoded(Some(vec![0; MAX_DECODED_FONT_SIZE + 1])), None);
}
