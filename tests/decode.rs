use tiny_png::error::{DecodeError, DocumentFault, InvalidPngFileError};
use tiny_png::image::Image;
use tiny_png::model::Color;
use tiny_png::png::decode;

const SIGNATURE: [u8; 8] = [137, 80, 78, 71, 13, 10, 26, 10];

fn record(tag: &[u8; 4], data: &[u8]) -> Vec<u8> {
    let mut out = Vec::new();
    out.extend_from_slice(&(data.len() as u32).to_be_bytes());
    out.extend_from_slice(tag);
    out.extend_from_slice(data);
    out.extend_from_slice(&[0xde, 0xad, 0xbe, 0xef]);
    out
}

fn header(width: u32, height: u32, bit_depth: u8, color_type: u8) -> Vec<u8> {
    let mut d = Vec::new();
    d.extend_from_slice(&width.to_be_bytes());
    d.extend_from_slice(&height.to_be_bytes());
    d.extend_from_slice(&[bit_depth, color_type, 0, 0, 0]);
    record(b"IHDR", &d)
}

/// A compressed-data payload: method and flag bytes, one stored DEFLATE
/// block holding `raw`, and a check value.
fn stored(raw: &[u8]) -> Vec<u8> {
    let len = raw.len() as u16;
    let mut d = vec![0x78, 0x01, 0x01];
    d.extend_from_slice(&len.to_le_bytes());
    d.extend_from_slice(&(!len).to_le_bytes());
    d.extend_from_slice(raw);
    d.extend_from_slice(&[0, 0, 0, 0]);
    d
}

fn file(parts: &[Vec<u8>]) -> Vec<u8> {
    let mut out = SIGNATURE.to_vec();
    for p in parts {
        out.extend_from_slice(p);
    }
    out
}

fn rgba_file(raw: &[u8]) -> Vec<u8> {
    file(&[header(2, 1, 8, 6), record(b"IDAT", &stored(raw)), record(b"IEND", &[])])
}

fn c(red: u8, green: u8, blue: u8, alpha: u8) -> Color {
    Color { red, green, blue, alpha }
}

#[test]
fn decodes_unfiltered_rgba_row() {
    let img = decode(&rgba_file(&[0, 10, 20, 30, 255, 40, 50, 60, 255])).unwrap();
    assert_eq!(img.width, 2);
    assert_eq!(img.height, 1);
    assert_eq!(img.pixels, vec![c(10, 20, 30, 255), c(40, 50, 60, 255)]);
}

#[test]
fn decodes_sub_filtered_rgba_row() {
    let img = decode(&rgba_file(&[1, 10, 20, 30, 255, 5, 5, 5, 0])).unwrap();
    assert_eq!(img.width, 2);
    assert_eq!(img.height, 1);
    assert_eq!(img.pixels, vec![c(10, 20, 30, 255), c(15, 25, 35, 255)]);
}

#[test]
fn decodes_fragments_in_order() {
    let payload = stored(&[0, 1, 2, 3, 4, 5, 6, 7, 8]);
    let (a, b) = payload.split_at(7);
    let mut first = a.to_vec();
    first.extend_from_slice(&[9, 9, 9, 9]);
    let mut second = vec![0x78, 0x01];
    second.extend_from_slice(b);
    let bytes = file(&[
        header(2, 1, 8, 6),
        record(b"IDAT", &first),
        record(b"tEXt", b"note"),
        record(b"IDAT", &second),
        record(b"IEND", &[]),
    ]);
    let img = decode(&bytes).unwrap();
    assert_eq!(img.pixels, vec![c(1, 2, 3, 4), c(5, 6, 7, 8)]);
}

#[test]
fn decodes_indexed_image() {
    let bytes = file(&[
        header(3, 2, 8, 3),
        record(b"PLTE", &[255, 0, 0, 0, 255, 0, 0, 0, 255]),
        record(b"IDAT", &stored(&[0, 2, 1, 0, 1, 1, 0, 0])),
        record(b"IEND", &[]),
    ]);
    let img = decode(&bytes).unwrap();
    assert_eq!((img.width, img.height), (3, 2));
    let red = c(255, 0, 0, 255);
    let green = c(0, 255, 0, 255);
    let blue = c(0, 0, 255, 255);
    assert_eq!(img.pixels, vec![blue, green, red, green, green, green]);
}

#[test]
fn rejects_palette_index_out_of_range() {
    let bytes = file(&[
        header(2, 1, 8, 3),
        record(b"PLTE", &[1, 2, 3]),
        record(b"IDAT", &stored(&[0, 0, 1])),
        record(b"IEND", &[]),
    ]);
    assert_eq!(decode(&bytes).unwrap_err(), DecodeError::PaletteIndexOutOfRange);
}

#[test]
fn rejects_truncated_stream() {
    let mut bytes = rgba_file(&[0, 10, 20, 30, 255, 40, 50, 60, 255]);
    bytes.truncate(bytes.len() - 1);
    assert_eq!(decode(&bytes).unwrap_err(), DecodeError::TruncatedStream);
    assert_eq!(decode(&SIGNATURE).unwrap_err(), DecodeError::TruncatedStream);
    assert_eq!(decode(&[]).unwrap_err(), DecodeError::TruncatedStream);
}

#[test]
fn rejects_stream_without_terminator_record() {
    let bytes = file(&[header(2, 1, 8, 6)]);
    assert_eq!(decode(&bytes).unwrap_err(), DecodeError::TruncatedStream);
}

#[test]
fn rejects_malformed_chunks() {
    let short_header = file(&[record(b"IHDR", &[0, 0, 0, 1]), record(b"IEND", &[])]);
    assert_eq!(decode(&short_header).unwrap_err(), DecodeError::MalformedChunk);
    let zero_width = file(&[header(0, 1, 8, 6), record(b"IEND", &[])]);
    assert_eq!(decode(&zero_width).unwrap_err(), DecodeError::MalformedChunk);
    let bad_palette = file(&[header(1, 1, 8, 3), record(b"PLTE", &[1, 2]), record(b"IEND", &[])]);
    assert_eq!(decode(&bad_palette).unwrap_err(), DecodeError::MalformedChunk);
    let short_data = file(&[header(1, 1, 8, 6), record(b"IDAT", &[1, 2, 3]), record(b"IEND", &[])]);
    assert_eq!(decode(&short_data).unwrap_err(), DecodeError::MalformedChunk);
    let bad_tag = file(&[header(1, 1, 8, 6), record(b"1DAT", &[]), record(b"IEND", &[])]);
    assert_eq!(decode(&bad_tag).unwrap_err(), DecodeError::MalformedChunk);
}

#[test]
fn rejects_invalid_documents() {
    let fault = |parts: &[Vec<u8>]| decode(&file(parts)).unwrap_err();
    let data = record(b"IDAT", &stored(&[0, 1, 2, 3, 4, 5, 6, 7, 8]));
    let end = record(b"IEND", &[]);
    assert_eq!(
        fault(&[data.clone(), end.clone()]),
        DecodeError::InvalidDocument(DocumentFault::MissingHeader)
    );
    assert_eq!(
        fault(&[header(2, 1, 8, 6), header(2, 1, 8, 6), data.clone(), end.clone()]),
        DecodeError::InvalidDocument(DocumentFault::DuplicateHeader)
    );
    let pal = record(b"PLTE", &[1, 2, 3]);
    assert_eq!(
        fault(&[header(2, 1, 8, 3), pal.clone(), pal.clone(), data.clone(), end.clone()]),
        DecodeError::InvalidDocument(DocumentFault::DuplicatePalette)
    );
    assert_eq!(
        fault(&[header(2, 1, 8, 3), data.clone(), end.clone()]),
        DecodeError::InvalidDocument(DocumentFault::MissingPalette)
    );
}

#[test]
fn rejects_bad_compressed_stream() {
    let bytes = file(&[
        header(2, 1, 8, 6),
        record(b"IDAT", &[0x78, 0x01, 0x07, 0xff, 0xff, 0, 0, 0, 0]),
        record(b"IEND", &[]),
    ]);
    assert_eq!(decode(&bytes).unwrap_err(), DecodeError::Decompression);
}

#[test]
fn rejects_wrong_stream_length() {
    let bytes = rgba_file(&[0, 10, 20, 30, 255, 40, 50, 60]);
    assert_eq!(decode(&bytes).unwrap_err(), DecodeError::MalformedStream);
}

#[test]
fn rejects_unsupported_filter() {
    let bytes = rgba_file(&[2, 10, 20, 30, 255, 40, 50, 60, 255]);
    assert_eq!(decode(&bytes).unwrap_err(), DecodeError::UnsupportedFilter);
}

#[test]
fn rejects_unsupported_format() {
    let bytes = file(&[
        header(2, 1, 16, 6),
        record(b"IDAT", &stored(&[0])),
        record(b"IEND", &[]),
    ]);
    assert_eq!(decode(&bytes).unwrap_err(), DecodeError::UnsupportedFormat);
}

#[test]
fn scanlines_run_top_to_bottom() {
    let img = Image {
        width: 2,
        height: 2,
        pixels: vec![c(1, 1, 1, 1), c(2, 2, 2, 2), c(3, 3, 3, 3), c(4, 4, 4, 4)],
    };
    let rows = img.scanlines();
    assert_eq!(rows, vec![vec![c(1, 1, 1, 1), c(2, 2, 2, 2)], vec![c(3, 3, 3, 3), c(4, 4, 4, 4)]]);
}

#[test]
fn half_resolution_keeps_even_pixels() {
    let pixels: Vec<Color> = (0..15u8).map(|i| c(i, i, i, 255)).collect();
    let img = Image { width: 5, height: 3, pixels };
    let half = img.half_resolution();
    assert_eq!((half.width, half.height), (2, 1));
    assert_eq!(half.pixels, vec![c(0, 0, 0, 255), c(2, 2, 2, 255)]);
}

#[test]
fn invalid_file_error_keeps_its_message() {
    let e = InvalidPngFileError::new("IHDR".to_string());
    assert_eq!(e.lacking_chunk_type, "IHDR");
}
