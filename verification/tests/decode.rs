use ilbm::byte_order::i16_from_be_bytes;
use ilbm::byte_order::u16_from_be_bytes;
use ilbm::byte_order::u32_from_be_bytes;
use ilbm::errors::Diagnostic;
use ilbm::errors::IffError;
use ilbm::iff::ChunkContent;
use ilbm::iff::Container;
use ilbm::iff::IFFChunk;
use ilbm::iff::IFFFile;
use ilbm::planar::decode_body;
use ilbm::rle::decompress_body;

#[test]
fn u32_big_endian_positional() {
    assert_eq!(u32_from_be_bytes([0x01, 0x02, 0x03, 0x04]), 0x01020304);
    assert_eq!(u32_from_be_bytes([0xFF, 0xFF, 0xFF, 0xFF]), 0xFFFF_FFFF);
    assert_eq!(u32_from_be_bytes([0, 0, 0, 32]), 32);
}

#[test]
fn u16_big_endian() {
    assert_eq!(u16_from_be_bytes([0x01, 0x40]), 320);
    assert_eq!(u16_from_be_bytes([0x00, 0xC8]), 200);
}

#[test]
fn i16_big_endian_two_complement() {
    assert_eq!(i16_from_be_bytes([0xFF, 0xFE]), -2);
    assert_eq!(i16_from_be_bytes([0x80, 0x00]), -32768);
    assert_eq!(i16_from_be_bytes([0x7F, 0xFF]), 32767);
    assert_eq!(i16_from_be_bytes([0x00, 0x14]), 20);
}

#[test]
fn rle_all_nop_bytes_decode_to_nothing() {
    let data = vec![0x80u8, 0x80, 0x80, 0x80, 0x80];
    let mut out: Vec<u8> = Vec::new();
    let truncated = decompress_body(&data, &mut out);
    assert!(!truncated);
    assert!(out.is_empty());
}

#[test]
fn rle_literal_run_of_three() {
    let data = vec![0x02u8, 10, 20, 30];
    let mut out: Vec<u8> = Vec::new();
    let truncated = decompress_body(&data, &mut out);
    assert!(!truncated);
    assert_eq!(out, vec![10, 20, 30]);
}

#[test]
fn rle_replicate_count_three() {
    let data = vec![0x83u8, 7];
    let mut out: Vec<u8> = Vec::new();
    let truncated = decompress_body(&data, &mut out);
    assert!(!truncated);
    assert_eq!(out, vec![7, 7, 7]);
}

#[test]
fn rle_truncated_literal_stops_gracefully() {
    // the first run decodes normally; the second declares 6 literal bytes
    // where only 2 remain, so decoding stops with the partial output
    let data = vec![0x81u8, 9, 0x05, 1, 2];
    let mut out: Vec<u8> = Vec::new();
    let truncated = decompress_body(&data, &mut out);
    assert!(truncated);
    assert_eq!(out, vec![9]);
}

#[test]
fn rle_truncated_replicate_stops_gracefully() {
    let data = vec![0x83u8];
    let mut out: Vec<u8> = Vec::new();
    let truncated = decompress_body(&data, &mut out);
    assert!(truncated);
    assert!(out.is_empty());
}

#[test]
fn planar_one_plane_eight_pixels() {
    let data = vec![0b1011_0000u8];
    let mut out: Vec<u8> = Vec::new();
    let truncated = decode_body(&data, &mut out, 1, false);
    assert!(!truncated);
    assert_eq!(out, vec![1, 0, 1, 1, 0, 0, 0, 0]);
}

#[test]
fn planar_two_planes_combine_bits() {
    // plane 0 contributes bit 0, plane 1 contributes bit 1
    let data = vec![0b1000_0000u8, 0b1100_0000];
    let mut out: Vec<u8> = Vec::new();
    let truncated = decode_body(&data, &mut out, 2, false);
    assert!(!truncated);
    assert_eq!(out, vec![3, 2, 0, 0, 0, 0, 0, 0]);
}

#[test]
fn planar_mask_plane_byte_is_skipped() {
    // one colour plane plus an interleaved mask byte per group: the mask
    // byte contributes no bits to the indices
    let data = vec![0b1011_0000u8, 0xFF];
    let mut out: Vec<u8> = Vec::new();
    let truncated = decode_body(&data, &mut out, 1, true);
    assert!(!truncated);
    assert_eq!(out, vec![1, 0, 1, 1, 0, 0, 0, 0]);
}

#[test]
fn planar_partial_group_reports_truncation() {
    // two planes per group but three bytes: one full group, one partial
    let data = vec![0u8, 0, 0];
    let mut out: Vec<u8> = Vec::new();
    let truncated = decode_body(&data, &mut out, 2, false);
    assert!(truncated);
    assert_eq!(out.len(), 8);
}

fn bmhd_payload() -> Vec<u8> {
    vec![
        0x01, 0x40, // width 320
        0x00, 0xC8, // height 200
        0x00, 0x00, // x origin 0
        0x00, 0x00, // y origin 0
        5,    // planes
        1,    // mask
        1,    // compression
        0,    // pad
        0x00, 0x03, // transparent colour 3
        10,   // x aspect
        11,   // y aspect
        0x01, 0x40, // page width 320
        0x00, 0xC8, // page height 200
    ]
}

fn chunk(tag: &[u8; 4], payload: &[u8]) -> Vec<u8> {
    let mut v = Vec::new();
    v.extend_from_slice(tag);
    v.extend_from_slice(&(payload.len() as u32).to_be_bytes());
    v.extend_from_slice(payload);
    v
}

#[test]
fn container_with_nested_header_decodes_fields() {
    let inner = chunk(b"BMHD", &bmhd_payload());
    let mut payload = Vec::new();
    payload.extend_from_slice(b"ILBM");
    payload.extend_from_slice(&inner);
    let mut data = Vec::new();
    data.extend_from_slice(b"FORM");
    data.extend_from_slice(&(payload.len() as u32).to_be_bytes());
    data.extend_from_slice(&payload);

    let mut chunks: Vec<IFFChunk> = Vec::new();
    IFFChunk::find_chunks(&data, &mut chunks);
    assert_eq!(chunks.len(), 1);
    let top = &chunks[0];
    assert_eq!(top.chunk_type, *b"FORM");
    assert_eq!(top.size, 28);
    match &top.data {
        ChunkContent::Container { sub_chunks, container } => {
            let Container::FORM { fourcc } = container;
            assert_eq!(*fourcc, *b"ILBM");
            assert_eq!(sub_chunks.len(), 1);
            let h = &sub_chunks[0];
            assert_eq!(h.chunk_type, *b"BMHD");
            assert_eq!(h.size, 20);
            match &h.data {
                ChunkContent::BMHD {
                    width,
                    height,
                    x_origin,
                    y_origin,
                    n_planes,
                    mask,
                    compression,
                    transparent_color,
                    x_aspect,
                    y_aspect,
                    page_width,
                    page_height,
                } => {
                    assert_eq!(*width, 320);
                    assert_eq!(*height, 200);
                    assert_eq!(*x_origin, 0);
                    assert_eq!(*y_origin, 0);
                    assert_eq!(*n_planes, 5);
                    assert_eq!(*mask, 1);
                    assert_eq!(*compression, 1);
                    assert_eq!(*transparent_color, 3);
                    assert_eq!(*x_aspect, 10);
                    assert_eq!(*y_aspect, 11);
                    assert_eq!(*page_width, 320);
                    assert_eq!(*page_height, 200);
                },
                other => panic!("expected a bitmap header, got {:?}", other),
            }
        },
        other => panic!("expected a container, got {:?}", other),
    }
}

#[test]
fn truncated_final_chunk_is_clipped_with_diagnostic() {
    // the BODY chunk declares 10 payload bytes but only 4 follow
    let mut data = Vec::new();
    data.extend_from_slice(b"BODY");
    data.extend_from_slice(&10u32.to_be_bytes());
    data.extend_from_slice(&[1, 2, 3, 4]);

    let mut chunks: Vec<IFFChunk> = Vec::new();
    IFFChunk::find_chunks(&data, &mut chunks);
    assert_eq!(chunks.len(), 1);
    let c = &chunks[0];
    assert_eq!(c.size, 10);
    assert_eq!(c.diagnostics, vec![Diagnostic::StructuralTruncation]);
    match &c.data {
        ChunkContent::BODY { raw_data, decompressed_data, pixel_data } => {
            assert_eq!(*raw_data, vec![1, 2, 3, 4]);
            assert!(decompressed_data.is_none());
            assert!(pixel_data.is_none());
        },
        other => panic!("expected a pixel body, got {:?}", other),
    }
}

#[test]
fn odd_length_chunk_is_followed_by_one_pad_byte() {
    // first chunk has an odd declared length: one pad byte (not counted in
    // the length) must be skipped before the next header is read
    let mut data = chunk(b"ANNO", &[9, 9, 9]);
    data.push(0); // the pad byte
    data.extend_from_slice(&chunk(b"BODY", &[1, 2]));

    let mut chunks: Vec<IFFChunk> = Vec::new();
    IFFChunk::find_chunks(&data, &mut chunks);
    assert_eq!(chunks.len(), 2);
    assert_eq!(chunks[0].chunk_type, *b"ANNO");
    assert_eq!(chunks[0].size, 3);
    assert_eq!(chunks[1].chunk_type, *b"BODY");
    assert_eq!(chunks[1].size, 2);
}

#[test]
fn palette_triples_and_trailing_bytes_ignored() {
    // 7 bytes: two full triples, one trailing byte ignored
    let data = chunk(b"CMAP", &[1, 2, 3, 4, 5, 6, 7]);
    let mut chunks: Vec<IFFChunk> = Vec::new();
    IFFChunk::find_chunks(&data, &mut chunks);
    match &chunks[0].data {
        ChunkContent::CMAP { n_colors, colors } => {
            assert_eq!(*n_colors, 2);
            assert_eq!(*colors, vec![(1, 2, 3), (4, 5, 6)]);
        },
        other => panic!("expected a palette, got {:?}", other),
    }
}

#[test]
fn cycling_range_fields_and_flags() {
    // 2 pad bytes, rate 20, flags 3 (active, reverse), low 2, high 10
    let data = chunk(b"CRNG", &[0, 0, 0x00, 0x14, 0x00, 0x03, 2, 10]);
    let mut chunks: Vec<IFFChunk> = Vec::new();
    IFFChunk::find_chunks(&data, &mut chunks);
    match &chunks[0].data {
        ChunkContent::CRNG { rate, flags, active, cycle_downwards, low, high } => {
            assert_eq!(*rate, 20);
            assert_eq!(*flags, 3);
            assert!(*active);
            assert!(*cycle_downwards);
            assert_eq!(*low, 2);
            assert_eq!(*high, 10);
        },
        other => panic!("expected a cycling range, got {:?}", other),
    }
}

#[test]
fn cycling_range_too_short_falls_back_to_raw() {
    let data = chunk(b"CRNG", &[0, 0, 0x00]);
    let mut chunks: Vec<IFFChunk> = Vec::new();
    IFFChunk::find_chunks(&data, &mut chunks);
    let c = &chunks[0];
    assert_eq!(c.diagnostics, vec![Diagnostic::MalformedFixedField]);
    match &c.data {
        ChunkContent::GenericChunk { data } => assert_eq!(*data, vec![0, 0, 0x00]),
        other => panic!("expected the raw payload, got {:?}", other),
    }
}

#[test]
fn header_too_short_falls_back_to_raw() {
    let data = chunk(b"BMHD", &[0x01, 0x40, 0x00]);
    let mut chunks: Vec<IFFChunk> = Vec::new();
    IFFChunk::find_chunks(&data, &mut chunks);
    let c = &chunks[0];
    assert_eq!(c.diagnostics, vec![Diagnostic::MalformedFixedField]);
    assert!(matches!(&c.data, ChunkContent::GenericChunk { .. }));
}

#[test]
fn unknown_tag_kept_verbatim() {
    let data = chunk(b"ANNO", &[65, 66, 67, 68]);
    let mut chunks: Vec<IFFChunk> = Vec::new();
    IFFChunk::find_chunks(&data, &mut chunks);
    match &chunks[0].data {
        ChunkContent::GenericChunk { data } => assert_eq!(*data, vec![65, 66, 67, 68]),
        other => panic!("expected an opaque payload, got {:?}", other),
    }
    assert!(chunks[0].diagnostics.is_empty());
}

fn two_container_forest() -> Vec<u8> {
    // first container: two empty children; second container: none
    let mut payload1 = Vec::new();
    payload1.extend_from_slice(b"ILBM");
    payload1.extend_from_slice(&chunk(b"AAAA", &[]));
    payload1.extend_from_slice(&chunk(b"BBBB", &[]));
    let mut data = Vec::new();
    data.extend_from_slice(b"FORM");
    data.extend_from_slice(&(payload1.len() as u32).to_be_bytes());
    data.extend_from_slice(&payload1);
    data.extend_from_slice(b"FORM");
    data.extend_from_slice(&4u32.to_be_bytes());
    data.extend_from_slice(b"ILBM");
    data
}

#[test]
fn enumeration_is_level_order_across_the_forest() {
    let data = two_container_forest();
    let file = IFFFile::from_bytes(&data);
    assert_eq!(file.chunks.len(), 2);
    assert_eq!(file.chunks[0].chunk_number, Some(0));
    assert_eq!(file.chunks[1].chunk_number, Some(1));
    match &file.chunks[0].data {
        ChunkContent::Container { sub_chunks, .. } => {
            assert_eq!(sub_chunks.len(), 2);
            assert_eq!(sub_chunks[0].chunk_number, Some(2));
            assert_eq!(sub_chunks[1].chunk_number, Some(3));
        },
        other => panic!("expected a container, got {:?}", other),
    }
    assert!(file.chunks[0].enumeration_complete);
    assert!(file.chunks[1].enumeration_complete);
}

#[test]
fn find_chunk_returns_depth_first_path() {
    let data = two_container_forest();
    let file = IFFFile::from_bytes(&data);
    let path = IFFFile::find_chunk(&file.chunks, b"BBBB");
    assert_eq!(path, Ok(vec![0, 1]));
    let top = IFFFile::find_chunk(&file.chunks, b"FORM");
    assert_eq!(top, Ok(vec![0]));
    let missing = IFFFile::find_chunk(&file.chunks, b"CAMG");
    assert_eq!(missing, Err(IffError::ChunkNotFound));
}

fn body_and_header() -> (IFFChunk, IFFChunk) {
    // compressed pixel body: one literal run of two bytes per row group
    let body_bytes = chunk(b"BODY", &[0x01, 0b1011_0000, 0b1100_0000]);
    let header_bytes = chunk(b"BMHD", &{
        let mut p = bmhd_payload();
        p[8] = 2; // planes
        p[9] = 0; // no mask
        p[10] = 1; // compression on
        p
    });
    let mut chunks: Vec<IFFChunk> = Vec::new();
    IFFChunk::find_chunks(&body_bytes, &mut chunks);
    let body = chunks.remove(0);
    let mut chunks: Vec<IFFChunk> = Vec::new();
    IFFChunk::find_chunks(&header_bytes, &mut chunks);
    let header = chunks.remove(0);
    (body, header)
}

#[test]
fn prepare_body_decompresses_and_decodes() {
    let (body, header) = body_and_header();
    let prepared = body.prepare_body(&header).unwrap();
    match &prepared.data {
        ChunkContent::BODY { raw_data, decompressed_data, pixel_data } => {
            assert_eq!(*raw_data, vec![0x01, 0b1011_0000, 0b1100_0000]);
            assert_eq!(*decompressed_data, Some(vec![0b1011_0000, 0b1100_0000]));
            // plane 0 = 10110000, plane 1 = 11000000
            assert_eq!(*pixel_data, Some(vec![3, 2, 1, 1, 0, 0, 0, 0]));
        },
        other => panic!("expected a pixel body, got {:?}", other),
    }
}

#[test]
fn prepare_body_twice_yields_identical_buffers() {
    let (body, header) = body_and_header();
    let once = body.prepare_body(&header).unwrap();
    let (first_dec, first_pix) = match &once.data {
        ChunkContent::BODY { decompressed_data, pixel_data, .. } => {
            (decompressed_data.clone().unwrap(), pixel_data.clone().unwrap())
        },
        other => panic!("expected a pixel body, got {:?}", other),
    };
    let diags_once = once.diagnostics.clone();
    let twice = once.prepare_body(&header).unwrap();
    match &twice.data {
        ChunkContent::BODY { decompressed_data, pixel_data, .. } => {
            assert_eq!(*decompressed_data, Some(first_dec));
            assert_eq!(*pixel_data, Some(first_pix));
        },
        other => panic!("expected a pixel body, got {:?}", other),
    }
    assert_eq!(twice.diagnostics, diags_once);
}

#[test]
fn prepare_body_uncompressed_keeps_raw_bytes() {
    let body_bytes = chunk(b"BODY", &[0b1011_0000]);
    let header_bytes = chunk(b"BMHD", &{
        let mut p = bmhd_payload();
        p[8] = 1; // one plane
        p[9] = 0; // no mask
        p[10] = 0; // no compression
        p
    });
    let mut chunks: Vec<IFFChunk> = Vec::new();
    IFFChunk::find_chunks(&body_bytes, &mut chunks);
    let body = chunks.remove(0);
    let mut chunks: Vec<IFFChunk> = Vec::new();
    IFFChunk::find_chunks(&header_bytes, &mut chunks);
    let header = chunks.remove(0);
    let prepared = body.prepare_body(&header).unwrap();
    match &prepared.data {
        ChunkContent::BODY { decompressed_data, pixel_data, .. } => {
            assert_eq!(*decompressed_data, Some(vec![0b1011_0000]));
            assert_eq!(*pixel_data, Some(vec![1, 0, 1, 1, 0, 0, 0, 0]));
        },
        other => panic!("expected a pixel body, got {:?}", other),
    }
}

#[test]
fn prepare_body_rejects_wrong_chunk_kinds() {
    let (body, header) = body_and_header();
    // swapping the roles fails in both directions
    assert!(matches!(header.prepare_body(&body), Err(IffError::NotBodyChunk)));
    let (body2, header2) = body_and_header();
    assert!(matches!(body2.prepare_body(&body_like_generic()), Err(IffError::NotHeaderChunk)));
    drop(header2);
}

fn body_like_generic() -> IFFChunk {
    let data = chunk(b"ANNO", &[0]);
    let mut chunks: Vec<IFFChunk> = Vec::new();
    IFFChunk::find_chunks(&data, &mut chunks);
    chunks.remove(0)
}

#[test]
fn prepare_body_rejects_more_than_eight_planes() {
    let (body, _) = body_and_header();
    let header_bytes = chunk(b"BMHD", &{
        let mut p = bmhd_payload();
        p[8] = 9;
        p
    });
    let mut chunks: Vec<IFFChunk> = Vec::new();
    IFFChunk::find_chunks(&header_bytes, &mut chunks);
    let header = chunks.remove(0);
    assert!(matches!(body.prepare_body(&header), Err(IffError::UnsupportedPlaneCount)));
}

#[test]
fn prepare_body_records_truncated_compression() {
    // control byte declares a 3-byte literal run but only 1 byte follows
    let body_bytes = chunk(b"BODY", &[0x02, 0b1011_0000]);
    let header_bytes = chunk(b"BMHD", &{
        let mut p = bmhd_payload();
        p[8] = 1;
        p[9] = 0;
        p[10] = 1;
        p
    });
    let mut chunks: Vec<IFFChunk> = Vec::new();
    IFFChunk::find_chunks(&body_bytes, &mut chunks);
    let body = chunks.remove(0);
    let mut chunks: Vec<IFFChunk> = Vec::new();
    IFFChunk::find_chunks(&header_bytes, &mut chunks);
    let header = chunks.remove(0);
    let prepared = body.prepare_body(&header).unwrap();
    assert!(prepared.diagnostics.contains(&Diagnostic::StructuralTruncation));
    match &prepared.data {
        ChunkContent::BODY { decompressed_data, pixel_data, .. } => {
            assert_eq!(*decompressed_data, Some(Vec::new()));
            assert_eq!(*pixel_data, Some(Vec::new()));
        },
        other => panic!("expected a pixel body, got {:?}", other),
    }
}

#[test]
fn diagnostics_and_errors_have_messages() {
    assert!(!Diagnostic::StructuralTruncation.message().is_empty());
    assert!(!Diagnostic::MalformedFixedField.message().is_empty());
    assert!(!IffError::UnsupportedPlaneCount.message().is_empty());
    assert!(!IffError::NotBodyChunk.message().is_empty());
    assert!(!IffError::NotHeaderChunk.message().is_empty());
    assert!(!IffError::ChunkNotFound.message().is_empty());
}

#[test]
fn empty_buffer_yields_empty_forest() {
    let data: Vec<u8> = Vec::new();
    let file = IFFFile::from_bytes(&data);
    assert!(file.chunks.is_empty());
}

#[test]
fn trailing_bytes_short_of_a_header_are_ignored() {
    // a complete empty chunk, then 7 bytes: too few for another header
    let mut data = chunk(b"AAAA", &[]);
    data.extend_from_slice(&[1, 2, 3, 4, 5, 6, 7]);
    let mut chunks: Vec<IFFChunk> = Vec::new();
    IFFChunk::find_chunks(&data, &mut chunks);
    assert_eq!(chunks.len(), 1);
    assert_eq!(chunks[0].chunk_type, *b"AAAA");
}

#[test]
fn form_with_declared_length_under_four_is_opaque() {
    // too short to hold the 4 subtype bytes, so not parsed as a container
    let data = chunk(b"FORM", &[1, 2]);
    let mut chunks: Vec<IFFChunk> = Vec::new();
    IFFChunk::find_chunks(&data, &mut chunks);
    assert_eq!(chunks.len(), 1);
    match &chunks[0].data {
        ChunkContent::GenericChunk { data } => assert_eq!(*data, vec![1, 2]),
        other => panic!("expected an opaque payload, got {:?}", other),
    }
}

#[test]
fn containers_nest_recursively() {
    let inner = chunk(b"CMAP", &[1, 2, 3]);
    let mut mid_payload = Vec::new();
    mid_payload.extend_from_slice(b"ILBM");
    mid_payload.extend_from_slice(&inner);
    let mut mid = Vec::new();
    mid.extend_from_slice(b"FORM");
    mid.extend_from_slice(&(mid_payload.len() as u32).to_be_bytes());
    mid.extend_from_slice(&mid_payload);
    if mid_payload.len() % 2 == 1 {
        mid.push(0);
    }
    let mut outer_payload = Vec::new();
    outer_payload.extend_from_slice(b"LIST");
    outer_payload.extend_from_slice(&mid);
    let mut data = Vec::new();
    data.extend_from_slice(b"FORM");
    data.extend_from_slice(&(outer_payload.len() as u32).to_be_bytes());
    data.extend_from_slice(&outer_payload);

    let mut chunks: Vec<IFFChunk> = Vec::new();
    IFFChunk::find_chunks(&data, &mut chunks);
    assert_eq!(chunks.len(), 1);
    let outer = &chunks[0];
    match &outer.data {
        ChunkContent::Container { sub_chunks, container } => {
            let Container::FORM { fourcc } = container;
            assert_eq!(*fourcc, *b"LIST");
            assert_eq!(sub_chunks.len(), 1);
            match &sub_chunks[0].data {
                ChunkContent::Container { sub_chunks, .. } => {
                    assert_eq!(sub_chunks.len(), 1);
                    assert!(matches!(&sub_chunks[0].data, ChunkContent::CMAP { .. }));
                },
                other => panic!("expected a nested container, got {:?}", other),
            }
        },
        other => panic!("expected a container, got {:?}", other),
    }
}

#[test]
fn enumeration_numbers_leaf_roots_too() {
    let mut data = chunk(b"AAAA", &[]);
    data.extend_from_slice(&two_container_forest());
    let file = IFFFile::from_bytes(&data);
    assert_eq!(file.chunks.len(), 3);
    assert_eq!(file.chunks[0].chunk_number, Some(0));
    assert_eq!(file.chunks[1].chunk_number, Some(1));
    assert_eq!(file.chunks[2].chunk_number, Some(2));
    match &file.chunks[1].data {
        ChunkContent::Container { sub_chunks, .. } => {
            assert_eq!(sub_chunks[0].chunk_number, Some(3));
            assert_eq!(sub_chunks[1].chunk_number, Some(4));
        },
        other => panic!("expected a container, got {:?}", other),
    }
}
