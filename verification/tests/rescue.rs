//! Rescuing BGZF files: the intact blocks are kept verbatim, corrupt ones
//! dropped, and the canonical empty block appended when the input lacked
//! one; the output always re-checks clean.

fn push_u16_le(data: &mut Vec<u8>, v: u16) {
    data.push((v % 256) as u8);
    data.push((v / 256) as u8);
}

fn push_u32_le(data: &mut Vec<u8>, v: u32) {
    data.push((v % 256) as u8);
    data.push(((v / 256) % 256) as u8);
    data.push(((v / 65536) % 256) as u8);
    data.push((v / 16777216) as u8);
}

fn bgzf_block(
    deflated_payload: Vec<u8>,
    inflated_payload_size: u32,
    inflated_payload_crc32: u32,
    bgzf_size_delta: i32,
    extra_subfields_before_bgzf: Option<Vec<u8>>,
    extra_subfields_after_bgzf: Option<Vec<u8>>,
) -> Vec<u8> {
    let mut data = vec![
        0x1f, 0x8b, // gzip identifier
        0x08, // method (deflate)
        0x04, // flags (FEXTRA)
        0x00, 0x00, 0x00, 0x00, // modification time
        0x00, // extra flags
        0xff, // operating system (unknown)
    ];

    let bgzf_extra_subfield_header = vec![
        0x42, 0x43, // bgzf identifier
        0x02, 0x00, // extra subfield length (2 bytes)
    ];

    let mut extra_field_size = 6u16;

    let extra_field_before = match extra_subfields_before_bgzf {
        None => vec![],
        Some(extra_subfields) => {
            extra_field_size += extra_subfields.len() as u16;
            extra_subfields
        },
    };

    let extra_field_after = match extra_subfields_after_bgzf {
        None => vec![],
        Some(extra_subfields) => {
            extra_field_size += extra_subfields.len() as u16;
            extra_subfields
        },
    };

    push_u16_le(&mut data, extra_field_size);
    data.extend(&extra_field_before);
    data.extend(&bgzf_extra_subfield_header);
    push_u16_le(
        &mut data,
        (19i32 + extra_field_size as i32 + deflated_payload.len() as i32 + bgzf_size_delta) as u16,
    );
    data.extend(&extra_field_after);

    data.extend(&deflated_payload);
    push_u32_le(&mut data, inflated_payload_crc32);
    push_u32_le(&mut data, inflated_payload_size);

    data
}

fn gzip_extra_subfields() -> Vec<u8> {
    let extra_subfield = vec![
        0x42, 0x21, // arbitrary unknown identifier
        0x07, 0x00, // arbitrary extra subfield length (7 bytes)
        0x01, 0x02, 0x03, 0x04, 0x05, 0x06, 0x7,
    ];

    let mut data = vec![];
    data.extend(&extra_subfield);
    data.extend(&extra_subfield);
    data.extend(&extra_subfield);

    data
}

fn gzip_extra_similar_subfields() -> Vec<u8> {
    let extra_subfield = vec![
        0x42, 0x43, // the bgzf identifier itself
        0x03, 0x00, // but a length the bgzf subfield never has (3 bytes)
        0x01, 0x02, 0x03,
    ];

    let mut data = vec![];
    data.extend(&extra_subfield);
    data.extend(&extra_subfield);
    data.extend(&extra_subfield);

    data
}

fn empty_bgzf_block() -> Vec<u8> {
    bgzf_block(vec![0x03, 0x00], 0, 0, 0, None, None)
}

fn empty_bgzf_block_with_extra_subfields_before() -> Vec<u8> {
    bgzf_block(vec![0x03, 0x00], 0, 0, 0, Some(gzip_extra_subfields()), None)
}

fn empty_bgzf_block_with_extra_subfields_after() -> Vec<u8> {
    bgzf_block(vec![0x03, 0x00], 0, 0, 0, None, Some(gzip_extra_subfields()))
}

fn empty_bgzf_block_with_extra_subfields_before_and_after() -> Vec<u8> {
    bgzf_block(
        vec![0x03, 0x00],
        0,
        0,
        0,
        Some(gzip_extra_subfields()),
        Some(gzip_extra_subfields()),
    )
}

fn empty_bgzf_block_with_extra_similar_subfields_before() -> Vec<u8> {
    bgzf_block(vec![0x03, 0x00], 0, 0, 0, Some(gzip_extra_similar_subfields()), None)
}

fn empty_bgzf_block_with_extra_similar_subfields_after() -> Vec<u8> {
    bgzf_block(vec![0x03, 0x00], 0, 0, 0, None, Some(gzip_extra_similar_subfields()))
}

fn empty_bgzf_block_with_extra_similar_subfields_before_and_after() -> Vec<u8> {
    bgzf_block(
        vec![0x03, 0x00],
        0,
        0,
        0,
        Some(gzip_extra_similar_subfields()),
        Some(gzip_extra_similar_subfields()),
    )
}

fn regular_bgzf_block() -> Vec<u8> {
    bgzf_block(
        vec![0xcb, 0x48, 0xcd, 0xc9, 0xc9, 0x07, 0x00], // deflated "hello"
        5,
        907060870,
        0,
        None,
        None,
    )
}

fn regular_bgzf_block_with_extra_subfields_before() -> Vec<u8> {
    bgzf_block(
        vec![0xcb, 0x48, 0xcd, 0xc9, 0xc9, 0x07, 0x00],
        5,
        907060870,
        0,
        Some(gzip_extra_subfields()),
        None,
    )
}

fn regular_bgzf_block_with_extra_subfields_after() -> Vec<u8> {
    bgzf_block(
        vec![0xcb, 0x48, 0xcd, 0xc9, 0xc9, 0x07, 0x00],
        5,
        907060870,
        0,
        None,
        Some(gzip_extra_subfields()),
    )
}

fn regular_bgzf_block_with_extra_subfields_before_and_after() -> Vec<u8> {
    bgzf_block(
        vec![0xcb, 0x48, 0xcd, 0xc9, 0xc9, 0x07, 0x00],
        5,
        907060870,
        0,
        Some(gzip_extra_subfields()),
        Some(gzip_extra_subfields()),
    )
}

fn regular_bgzf_block_with_extra_similar_subfields_before() -> Vec<u8> {
    bgzf_block(
        vec![0xcb, 0x48, 0xcd, 0xc9, 0xc9, 0x07, 0x00],
        5,
        907060870,
        0,
        Some(gzip_extra_similar_subfields()),
        None,
    )
}

fn regular_bgzf_block_with_extra_similar_subfields_after() -> Vec<u8> {
    bgzf_block(
        vec![0xcb, 0x48, 0xcd, 0xc9, 0xc9, 0x07, 0x00],
        5,
        907060870,
        0,
        None,
        Some(gzip_extra_similar_subfields()),
    )
}

fn regular_bgzf_block_with_extra_similar_subfields_before_and_after() -> Vec<u8> {
    bgzf_block(
        vec![0xcb, 0x48, 0xcd, 0xc9, 0xc9, 0x07, 0x00],
        5,
        907060870,
        0,
        Some(gzip_extra_similar_subfields()),
        Some(gzip_extra_similar_subfields()),
    )
}

fn bad_inflated_payload_crc32_bgzf_block() -> Vec<u8> {
    bgzf_block(
        vec![0xcb, 0x48, 0x25, 0xc9, 0xc9, 0x07, 0x00], // damaged deflated "hello"
        5,
        907060870,
        0,
        None,
        None,
    )
}

fn bad_inflated_payload_size_bgzf_block() -> Vec<u8> {
    bgzf_block(vec![0xcb, 0x48, 0xcd, 0xc9, 0xc9, 0x07, 0x00], 25, 907060870, 0, None, None)
}

fn too_small_bgzf_size_bgzf_block() -> Vec<u8> {
    bgzf_block(vec![0xcb, 0x48, 0xcd, 0xc9, 0xc9, 0x07, 0x00], 25, 907060870, -5i32, None, None)
}

fn too_large_bgzf_size_bgzf_block() -> Vec<u8> {
    bgzf_block(vec![0xcb, 0x48, 0xcd, 0xc9, 0xc9, 0x07, 0x00], 25, 907060870, -5i32, None, None)
}

fn rescue(
    data: &[u8],
    blocks_count: u64,
    bad_blocks_count: u64,
    truncated_in_block: bool,
    truncated_between_blocks: bool,
    rescued_bytes: Vec<u8>,
) {
    let mut writer = vec![];
    {
        let results = bamrescue::rescue(data, &mut writer, 1, &mut bamrescue::NoProgress);
        assert_eq!(results.blocks_count, blocks_count);
        assert_eq!(results.bad_blocks_count, bad_blocks_count);
        assert_eq!(results.truncated_in_block, truncated_in_block);
        assert_eq!(results.truncated_between_blocks, truncated_between_blocks);
        assert_eq!(writer, rescued_bytes);
        let results = bamrescue::check(&writer, true, 4, &mut bamrescue::NoProgress);
        assert_eq!(results.bad_blocks_count, 0);
        assert_eq!(results.truncated_in_block, false);
        assert_eq!(results.truncated_between_blocks, false);
    }
    writer = vec![];
    {
        let results = bamrescue::rescue(data, &mut writer, 4, &mut bamrescue::NoProgress);
        assert_eq!(results.blocks_count, blocks_count);
        assert_eq!(results.bad_blocks_count, bad_blocks_count);
        assert_eq!(results.truncated_in_block, truncated_in_block);
        assert_eq!(results.truncated_between_blocks, truncated_between_blocks);
        assert_eq!(writer, rescued_bytes);
        let results = bamrescue::check(&writer, true, 4, &mut bamrescue::NoProgress);
        assert_eq!(results.bad_blocks_count, 0);
        assert_eq!(results.truncated_in_block, false);
        assert_eq!(results.truncated_between_blocks, false);
    }
}

fn single_block() -> Vec<u8> {
    let mut data = regular_bgzf_block();
    data.extend(&empty_bgzf_block());
    data
}

fn two_blocks() -> Vec<u8> {
    let mut data = regular_bgzf_block();
    data.extend(&regular_bgzf_block());
    data.extend(&empty_bgzf_block());
    data
}

fn three_blocks() -> Vec<u8> {
    let mut data = regular_bgzf_block();
    data.extend(&regular_bgzf_block());
    data.extend(&regular_bgzf_block());
    data.extend(&empty_bgzf_block());
    data
}

fn three_blocks_empty_inside() -> Vec<u8> {
    let mut data = regular_bgzf_block();
    data.extend(&empty_bgzf_block());
    data.extend(&regular_bgzf_block());
    data.extend(&empty_bgzf_block());
    data
}

#[test]
fn rescue_empty_file() {
    rescue(&[], 0, 0, false, false, vec![])
}

#[test]
fn rescue_empty_bam() {
    rescue(&empty_bgzf_block(), 1, 0, false, false, empty_bgzf_block())
}

#[test]
fn rescue_empty_with_extra_subfields_before_bam() {
    rescue(
        &empty_bgzf_block_with_extra_subfields_before(),
        1,
        0,
        false,
        false,
        empty_bgzf_block_with_extra_subfields_before(),
    )
}

#[test]
fn rescue_empty_with_extra_subfields_after_bam() {
    rescue(
        &empty_bgzf_block_with_extra_subfields_after(),
        1,
        0,
        false,
        false,
        empty_bgzf_block_with_extra_subfields_after(),
    )
}

#[test]
fn rescue_empty_with_extra_subfields_before_and_after_bam() {
    rescue(
        &empty_bgzf_block_with_extra_subfields_before_and_after(),
        1,
        0,
        false,
        false,
        empty_bgzf_block_with_extra_subfields_before_and_after(),
    )
}

#[test]
fn rescue_empty_with_extra_similar_subfields_before_bam() {
    rescue(
        &empty_bgzf_block_with_extra_similar_subfields_before(),
        1,
        0,
        false,
        false,
        empty_bgzf_block_with_extra_similar_subfields_before(),
    )
}

#[test]
fn rescue_empty_with_extra_similar_subfields_after_bam() {
    rescue(
        &empty_bgzf_block_with_extra_similar_subfields_after(),
        1,
        0,
        false,
        false,
        empty_bgzf_block_with_extra_similar_subfields_after(),
    )
}

#[test]
fn rescue_empty_with_extra_similar_subfields_before_and_after_bam() {
    rescue(
        &empty_bgzf_block_with_extra_similar_subfields_before_and_after(),
        1,
        0,
        false,
        false,
        empty_bgzf_block_with_extra_similar_subfields_before_and_after(),
    )
}

#[test]
fn rescue_single_block_bam() {
    rescue(&single_block(), 2, 0, false, false, single_block())
}

#[test]
fn rescue_two_blocks_bam() {
    rescue(&two_blocks(), 3, 0, false, false, two_blocks())
}

#[test]
fn rescue_three_blocks_bam() {
    rescue(&three_blocks(), 4, 0, false, false, three_blocks())
}

#[test]
fn rescue_three_blocks_empty_inside_bam() {
    rescue(&three_blocks_empty_inside(), 4, 0, false, false, three_blocks_empty_inside())
}

#[test]
fn rescue_single_block_missing_gzip_identifier() {
    let mut data = single_block();
    data[0] = 42;
    rescue(&data, 2, 1, false, false, empty_bgzf_block())
}

#[test]
fn rescue_single_block_missing_bgzf_identifier() {
    let mut data = single_block();
    data[12] = 21;
    rescue(&data, 2, 1, false, false, empty_bgzf_block())
}

#[test]
fn rescue_single_block_missing_empty_bam() {
    rescue(&regular_bgzf_block(), 1, 0, false, true, single_block())
}

#[test]
fn rescue_two_blocks_missing_empty_bam() {
    let mut data = regular_bgzf_block();
    data.extend(&regular_bgzf_block());
    rescue(&data, 2, 0, false, true, two_blocks())
}

#[test]
fn rescue_three_blocks_bad_inflated_payload_crc32_bam() {
    let mut data = regular_bgzf_block();
    data.extend(&bad_inflated_payload_crc32_bgzf_block());
    data.extend(&regular_bgzf_block());
    data.extend(&empty_bgzf_block());
    rescue(&data, 4, 1, false, false, two_blocks())
}

#[test]
fn rescue_three_blocks_bad_inflated_payload_size_bam() {
    let mut data = regular_bgzf_block();
    data.extend(&bad_inflated_payload_size_bgzf_block());
    data.extend(&regular_bgzf_block());
    data.extend(&empty_bgzf_block());
    rescue(&data, 4, 1, false, false, two_blocks())
}

#[test]
fn rescue_three_blocks_too_small_bgzf_size_bam() {
    let mut data = too_small_bgzf_size_bgzf_block();
    data.extend(&regular_bgzf_block());
    data.extend(&regular_bgzf_block());
    data.extend(&empty_bgzf_block());
    rescue(&data, 4, 1, false, false, two_blocks())
}

#[test]
fn rescue_three_blocks_too_large_bgzf_size_bam() {
    let mut data = too_large_bgzf_size_bgzf_block();
    data.extend(&regular_bgzf_block());
    data.extend(&regular_bgzf_block());
    data.extend(&empty_bgzf_block());
    rescue(&data, 4, 1, false, false, two_blocks())
}

#[test]
fn rescue_three_blocks_with_extra_subfields_before_bam() {
    let mut data = regular_bgzf_block();
    data.extend(&regular_bgzf_block_with_extra_subfields_before());
    data.extend(&regular_bgzf_block());
    data.extend(&empty_bgzf_block());
    rescue(&data.clone(), 4, 0, false, false, data)
}

#[test]
fn rescue_three_blocks_with_extra_subfields_after_bam() {
    let mut data = regular_bgzf_block();
    data.extend(&regular_bgzf_block_with_extra_subfields_after());
    data.extend(&regular_bgzf_block());
    data.extend(&empty_bgzf_block());
    rescue(&data.clone(), 4, 0, false, false, data)
}

#[test]
fn rescue_three_blocks_with_extra_subfields_before_and_after_bam() {
    let mut data = regular_bgzf_block();
    data.extend(&regular_bgzf_block_with_extra_subfields_before_and_after());
    data.extend(&regular_bgzf_block());
    data.extend(&empty_bgzf_block());
    rescue(&data.clone(), 4, 0, false, false, data)
}

#[test]
fn rescue_three_blocks_with_extra_similar_subfields_before_bam() {
    let mut data = regular_bgzf_block();
    data.extend(&regular_bgzf_block_with_extra_similar_subfields_before());
    data.extend(&regular_bgzf_block());
    data.extend(&empty_bgzf_block());
    rescue(&data.clone(), 4, 0, false, false, data)
}

#[test]
fn rescue_three_blocks_with_extra_similar_subfields_after_bam() {
    let mut data = regular_bgzf_block();
    data.extend(&regular_bgzf_block_with_extra_similar_subfields_after());
    data.extend(&regular_bgzf_block());
    data.extend(&empty_bgzf_block());
    rescue(&data.clone(), 4, 0, false, false, data)
}

#[test]
fn rescue_three_blocks_with_extra_similar_subfields_before_and_after_bam() {
    let mut data = regular_bgzf_block();
    data.extend(&regular_bgzf_block_with_extra_similar_subfields_before_and_after());
    data.extend(&regular_bgzf_block());
    data.extend(&empty_bgzf_block());
    rescue(&data.clone(), 4, 0, false, false, data)
}

#[test]
fn rescue_is_idempotent() {
    let mut data = regular_bgzf_block();
    data.extend(&bad_inflated_payload_crc32_bgzf_block());
    data.extend(&regular_bgzf_block());
    let mut once = vec![];
    bamrescue::rescue(&data, &mut once, 1, &mut bamrescue::NoProgress);
    let mut twice = vec![];
    bamrescue::rescue(&once, &mut twice, 1, &mut bamrescue::NoProgress);
    assert_eq!(once, twice);
}

#[test]
fn rescue_appends_canonical_terminator() {
    let canonical: Vec<u8> = vec![
        0x1f, 0x8b, 0x08, 0x04, 0x00, 0x00, 0x00, 0x00, 0x00, 0xff, 0x06, 0x00, 0x42, 0x43, 0x02,
        0x00, 0x1b, 0x00, 0x03, 0x00, 0x00, 0x00, 0x00, 0x00, 0x00, 0x00, 0x00, 0x00,
    ];
    let data = regular_bgzf_block();
    let mut writer = vec![];
    bamrescue::rescue(&data, &mut writer, 1, &mut bamrescue::NoProgress);
    assert_eq!(writer.len(), data.len() + 28);
    assert_eq!(&writer[data.len()..], &canonical[..]);
}

#[test]
fn rescue_drops_only_the_corrupt_block() {
    let mut data = regular_bgzf_block();
    data.extend(&bad_inflated_payload_crc32_bgzf_block());
    data.extend(&regular_bgzf_block());
    data.extend(&empty_bgzf_block());
    let mut writer = vec![];
    let results = bamrescue::rescue(&data, &mut writer, 1, &mut bamrescue::NoProgress);
    assert_eq!(results.blocks_count, 4);
    assert_eq!(results.bad_blocks_count, 1);
    assert_eq!(writer, two_blocks());
}
