use tiny_png::chunk::parse_to_chunks;
use tiny_png::error::{DecodeError, DocumentFault};
use tiny_png::png::Png;
use tiny_png::filter::{unfilter, unsub_row};
use tiny_png::model::{Chunk, Color, Idat, Ihdr, Iend, Plte};
use tiny_png::chunk::GeneralChunk;

fn general(tag: &[u8; 4], data: Vec<u8>) -> GeneralChunk {
    GeneralChunk { chunk_length: data.len(), chunk_type: tag.to_vec(), chunk_data: data, chunk_crc: 0 }
}

#[test]
fn framing_recovers_records() {
    let mut bytes = vec![0u8; 8];
    bytes.extend_from_slice(&[0, 0, 0, 2, b'a', b'b', b'c', b'd', 7, 8, 0, 0, 1, 2]);
    bytes.extend_from_slice(&[0, 0, 0, 0, b'I', b'E', b'N', b'D', 0xae, 0x42, 0x60, 0x82]);
    bytes.extend_from_slice(&[1, 2, 3]);
    let chunks = parse_to_chunks(&bytes).unwrap();
    assert_eq!(chunks.len(), 2);
    assert_eq!(chunks[0].chunk_type, b"abcd".to_vec());
    assert_eq!(chunks[0].chunk_data, vec![7, 8]);
    assert_eq!(chunks[0].chunk_length, 2);
    assert_eq!(chunks[0].chunk_crc, 0x0102);
    assert_eq!(chunks[1].chunk_type, b"IEND".to_vec());
    assert_eq!(chunks[1].chunk_crc, 0xae426082);
}

#[test]
fn framing_rejects_overlong_length() {
    let mut bytes = vec![0u8; 8];
    bytes.extend_from_slice(&[0, 0, 1, 0, b'I', b'D', b'A', b'T', 1, 2, 3, 4]);
    assert_eq!(parse_to_chunks(&bytes).unwrap_err(), DecodeError::TruncatedStream);
}

#[test]
fn sub_filter_round_trips() {
    let raw: Vec<u8> = vec![10, 20, 30, 255, 15, 25, 35, 255, 0, 1, 200, 3];
    let mut sub = raw.clone();
    for x in (4..raw.len()).rev() {
        sub[x] = raw[x].wrapping_sub(raw[x - 4]);
    }
    assert_eq!(unsub_row(&sub, 4), raw);
}

#[test]
fn unfilter_joins_rows() {
    let data = vec![0, 1, 2, 1, 1, 1, 0, 9, 9];
    assert_eq!(unfilter(&data, 3, 2, 1).unwrap(), vec![1, 2, 1, 2, 9, 9]);
    assert_eq!(unfilter(&[3, 0], 1, 1, 1).unwrap_err(), DecodeError::UnsupportedFilter);
}

#[test]
fn colors_group_by_step() {
    assert_eq!(
        Color::new_vector(&[1, 2, 3, 4, 5, 6, 7], 3),
        vec![Color { red: 1, green: 2, blue: 3, alpha: 255 }, Color { red: 4, green: 5, blue: 6, alpha: 255 }]
    );
    assert_eq!(
        Color::new_vector(&[1, 2, 3, 4, 5], 4),
        vec![Color { red: 1, green: 2, blue: 3, alpha: 4 }]
    );
    assert_eq!(
        Color::with_sub(&[10, 20, 30, 255, 5, 5, 5, 0]),
        vec![Color { red: 10, green: 20, blue: 30, alpha: 255 }, Color { red: 15, green: 25, blue: 35, alpha: 255 }]
    );
}

#[test]
fn header_reads_big_endian_fields() {
    let h = Ihdr::new(&[0, 0, 1, 2, 0, 1, 0, 0, 8, 6, 0, 0, 1]).unwrap();
    assert_eq!(h, Ihdr { width: 258, height: 65536, bit_depth: 8, color_type: 6, compression_method: 0, filter_method: 0, interlace_method: 1 });
    assert_eq!(Ihdr::new(&[0; 12]).unwrap_err(), DecodeError::MalformedChunk);
}

#[test]
fn palette_and_data_payloads_split() {
    let p = Plte::new(&[1, 2, 3, 4, 5, 6]).unwrap();
    assert_eq!(p.colors.len(), 2);
    assert_eq!(p.resolve(&[1, 0]).unwrap(), vec![p.colors[1], p.colors[0]]);
    assert_eq!(p.resolve(&[2]).unwrap_err(), DecodeError::PaletteIndexOutOfRange);
    let d = Idat::new(vec![120, 1, 9, 8, 7, 0, 0, 1, 0]).unwrap();
    assert_eq!((d.compression_method, d.additional_flags), (120, 1));
    assert_eq!(d.compressed_data, vec![9, 8, 7]);
    assert_eq!(d.check_value, 256);
    assert!(Idat::new(vec![1, 2, 3, 4, 5]).is_err());
}

#[test]
fn chunks_classify_by_tag() {
    assert!(matches!(general(b"IEND", vec![]).classify(), Ok(Chunk::End(_))));
    assert!(matches!(general(b"PLTE", vec![1, 2, 3]).classify(), Ok(Chunk::Palette(_))));
    assert!(matches!(general(b"gAMA", vec![1]).classify(), Ok(Chunk::Other(_))));
    assert_eq!(general(b"gA1A", vec![1]).classify().unwrap_err(), DecodeError::MalformedChunk);
    let h = general(b"IHDR", vec![0, 0, 0, 1, 0, 0, 0, 1, 8, 6, 0, 0, 0]).to_ihdr().unwrap();
    assert_eq!((h.width, h.height), (1, 1));
    assert_eq!(general(b"IEND", vec![]).to_iend(), Iend::new());
    assert!(general(b"PLTE", vec![1, 2]).to_plte().is_err());
    assert!(general(b"IDAT", vec![0; 6]).to_idat().is_ok());
}

fn rgba_header() -> Chunk {
    Chunk::Header(Ihdr { width: 1, height: 1, bit_depth: 8, color_type: 6, compression_method: 0, filter_method: 0, interlace_method: 0 })
}

#[test]
fn assembly_needs_terminator_last() {
    let no_end = vec![rgba_header(), Chunk::Other(general(b"tEXt", vec![1]))];
    assert_eq!(
        Png::from_chunks(no_end).unwrap_err(),
        DecodeError::InvalidDocument(DocumentFault::MissingTerminator)
    );
    let early_end = vec![rgba_header(), Chunk::End(Iend::new()), Chunk::End(Iend::new())];
    assert_eq!(
        Png::from_chunks(early_end).unwrap_err(),
        DecodeError::InvalidDocument(DocumentFault::MisplacedTerminator)
    );
    assert_eq!(
        Png::from_chunks(vec![]).unwrap_err(),
        DecodeError::InvalidDocument(DocumentFault::MissingHeader)
    );
}

#[test]
fn assembly_keeps_order_of_fragments_and_others() {
    let idat = |b: u8| Idat { compression_method: 0, additional_flags: 0, compressed_data: vec![b], check_value: 0 };
    let chunks = vec![
        rgba_header(),
        Chunk::Data(idat(1)),
        Chunk::Other(general(b"tEXt", vec![7])),
        Chunk::Data(idat(2)),
        Chunk::Other(general(b"zTXt", vec![8])),
        Chunk::End(Iend::new()),
    ];
    let png = Png::from_chunks(chunks).unwrap();
    assert_eq!((png.width(), png.height()), (1, 1));
    assert!(png.plte_opt.is_none());
    let data: Vec<u8> = png.idats.iter().map(|d| d.compressed_data[0]).collect();
    assert_eq!(data, vec![1, 2]);
    let others: Vec<Vec<u8>> = png.others.iter().map(|g| g.chunk_type.clone()).collect();
    assert_eq!(others, vec![b"tEXt".to_vec(), b"zTXt".to_vec()]);
}

#[test]
fn resolves_decompressed_bytes() {
    let png = Png::from_chunks(vec![rgba_header(), Chunk::End(Iend::new())]).unwrap();
    assert_eq!(
        png.resolve_pixels(&[1, 1, 2, 3, 4]).unwrap(),
        vec![Color { red: 1, green: 2, blue: 3, alpha: 4 }]
    );
    assert_eq!(png.resolve_pixels(&[0, 1, 2, 3]).unwrap_err(), DecodeError::MalformedStream);
    assert_eq!(png.decompress_with_color().unwrap_err(), DecodeError::MalformedStream);
}
