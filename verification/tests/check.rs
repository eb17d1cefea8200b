//! Checking BGZF files: block counts, corruption counts and truncation
//! flags over byte-level fixtures.

fn push_u16_le(data: &mut Vec<u8>, v: u16) {
    data.push((v % 256) as u8);
    data.push((v / 256) as u8);
}

fn push_u32_le(data: &mut Vec<u8>, v: u32) {
    data.push((v % 256) as u8);
    data.push(((v / 256) % 256) as u8);
    data.push(((v / 65536) % 256) as u8);
    data.push((v / 16777216) as u8);
}

fn bgzf_block(
    deflated_payload: Vec<u8>,
    inflated_payload_size: u32,
    inflated_payload_crc32: u32,
    bgzf_size_delta: i32,
    extra_subfields_before_bgzf: Option<Vec<u8>>,
    extra_subfields_after_bgzf: Option<Vec<u8>>,
) -> Vec<u8> {
    let mut data = vec![
        0x1f, 0x8b, // gzip identifier
        0x08, // method (deflate)
        0x04, // flags (FEXTRA)
        0x00, 0x00, 0x00, 0x00, // modification time
        0x00, // extra flags
        0xff, // operating system (unknown)
    ];

    let bgzf_extra_subfield_header = vec![
        0x42, 0x43, // bgzf identifier
        0x02, 0x00, // extra subfield length (2 bytes)
    ];

    let mut extra_field_size = 6u16;

    let extra_field_before = match extra_subfields_before_bgzf {
        None => vec![],
        Some(extra_subfields) => {
            extra_field_size += extra_subfields.len() as u16;
            extra_subfields
        },
    };

    let extra_field_after = match extra_subfields_after_bgzf {
        None => vec![],
        Some(extra_subfields) => {
            extra_field_size += extra_subfields.len() as u16;
            extra_subfields
        },
    };

    push_u16_le(&mut data, extra_field_size);
    data.extend(&extra_field_before);
    data.extend(&bgzf_extra_subfield_header);
    push_u16_le(
        &mut data,
        (19i32 + extra_field_size as i32 + deflated_payload.len() as i32 + bgzf_size_delta) as u16,
    );
    data.extend(&extra_field_after);

    data.extend(&deflated_payload);
    push_u32_le(&mut data, inflated_payload_crc32);
    push_u32_le(&mut data, inflated_payload_size);

    data
}

fn gzip_extra_subfields() -> Vec<u8> {
    let extra_subfield = vec![
        0x42, 0x21, // arbitrary unknown identifier
        0x07, 0x00, // arbitrary extra subfield length (7 bytes)
        0x01, 0x02, 0x03, 0x04, 0x05, 0x06, 0x7,
    ];

    let mut data = vec![];
    data.extend(&extra_subfield);
    data.extend(&extra_subfield);
    data.extend(&extra_subfield);

    data
}

fn gzip_extra_similar_subfields() -> Vec<u8> {
    let extra_subfield = vec![
        0x42, 0x43, // the bgzf identifier itself
        0x03, 0x00, // but a length the bgzf subfield never has (3 bytes)
        0x01, 0x02, 0x03,
    ];

    let mut data = vec![];
    data.extend(&extra_subfield);
    data.extend(&extra_subfield);
    data.extend(&extra_subfield);

    data
}

fn empty_bgzf_block() -> Vec<u8> {
    bgzf_block(vec![0x03, 0x00], 0, 0, 0, None, None)
}

fn empty_bgzf_block_with_extra_subfields_before() -> Vec<u8> {
    bgzf_block(vec![0x03, 0x00], 0, 0, 0, Some(gzip_extra_subfields()), None)
}

fn empty_bgzf_block_with_extra_subfields_after() -> Vec<u8> {
    bgzf_block(vec![0x03, 0x00], 0, 0, 0, None, Some(gzip_extra_subfields()))
}

fn empty_bgzf_block_with_extra_subfields_before_and_after() -> Vec<u8> {
    bgzf_block(
        vec![0x03, 0x00],
        0,
        0,
        0,
        Some(gzip_extra_subfields()),
        Some(gzip_extra_subfields()),
    )
}

fn empty_bgzf_block_with_extra_similar_subfields_before() -> Vec<u8> {
    bgzf_block(vec![0x03, 0x00], 0, 0, 0, Some(gzip_extra_similar_subfields()), None)
}

fn empty_bgzf_block_with_extra_similar_subfields_after() -> Vec<u8> {
    bgzf_block(vec![0x03, 0x00], 0, 0, 0, None, Some(gzip_extra_similar_subfields()))
}

fn empty_bgzf_block_with_extra_similar_subfields_before_and_after() -> Vec<u8> {
    bgzf_block(
        vec![0x03, 0x00],
        0,
        0,
        0,
        Some(gzip_extra_similar_subfields()),
        Some(gzip_extra_similar_subfields()),
    )
}

fn regular_bgzf_block() -> Vec<u8> {
    bgzf_block(
        vec![0xcb, 0x48, 0xcd, 0xc9, 0xc9, 0x07, 0x00], // deflated "hello"
        5,
        907060870,
        0,
        None,
        None,
    )
}

fn regular_bgzf_block_with_extra_subfields_before() -> Vec<u8> {
    bgzf_block(
        vec![0xcb, 0x48, 0xcd, 0xc9, 0xc9, 0x07, 0x00],
        5,
        907060870,
        0,
        Some(gzip_extra_subfields()),
        None,
    )
}

fn regular_bgzf_block_with_extra_subfields_after() -> Vec<u8> {
    bgzf_block(
        vec![0xcb, 0x48, 0xcd, 0xc9, 0xc9, 0x07, 0x00],
        5,
        907060870,
        0,
        None,
        Some(gzip_extra_subfields()),
    )
}

fn regular_bgzf_block_with_extra_subfields_before_and_after() -> Vec<u8> {
    bgzf_block(
        vec![0xcb, 0x48, 0xcd, 0xc9, 0xc9, 0x07, 0x00],
        5,
        907060870,
        0,
        Some(gzip_extra_subfields()),
        Some(gzip_extra_subfields()),
    )
}

fn regular_bgzf_block_with_extra_similar_subfields_before() -> Vec<u8> {
    bgzf_block(
        vec![0xcb, 0x48, 0xcd, 0xc9, 0xc9, 0x07, 0x00],
        5,
        907060870,
        0,
        Some(gzip_extra_similar_subfields()),
        None,
    )
}

fn regular_bgzf_block_with_extra_similar_subfields_after() -> Vec<u8> {
    bgzf_block(
        vec![0xcb, 0x48, 0xcd, 0xc9, 0xc9, 0x07, 0x00],
        5,
        907060870,
        0,
        None,
        Some(gzip_extra_similar_subfields()),
    )
}

fn regular_bgzf_block_with_extra_similar_subfields_before_and_after() -> Vec<u8> {
    bgzf_block(
        vec![0xcb, 0x48, 0xcd, 0xc9, 0xc9, 0x07, 0x00],
        5,
        907060870,
        0,
        Some(gzip_extra_similar_subfields()),
        Some(gzip_extra_similar_subfields()),
    )
}

fn bad_inflated_payload_crc32_bgzf_block() -> Vec<u8> {
    bgzf_block(
        vec![0xcb, 0x48, 0x25, 0xc9, 0xc9, 0x07, 0x00], // damaged deflated "hello"
        5,
        907060870,
        0,
        None,
        None,
    )
}

fn bad_inflated_payload_size_bgzf_block() -> Vec<u8> {
    bgzf_block(vec![0xcb, 0x48, 0xcd, 0xc9, 0xc9, 0x07, 0x00], 25, 907060870, 0, None, None)
}

fn too_small_bgzf_size_bgzf_block() -> Vec<u8> {
    bgzf_block(vec![0xcb, 0x48, 0xcd, 0xc9, 0xc9, 0x07, 0x00], 25, 907060870, -5i32, None, None)
}

fn too_large_bgzf_size_bgzf_block() -> Vec<u8> {
    bgzf_block(vec![0xcb, 0x48, 0xcd, 0xc9, 0xc9, 0x07, 0x00], 25, 907060870, -5i32, None, None)
}

fn check(
    data: &[u8],
    blocks_count: u64,
    bad_blocks_count: u64,
    truncated_in_block: bool,
    truncated_between_blocks: bool,
) {
    {
        let results = bamrescue::check(data, false, 1, &mut bamrescue::NoProgress);
        assert_eq!(results.blocks_count, blocks_count);
        assert_eq!(results.bad_blocks_count, bad_blocks_count);
        assert_eq!(results.truncated_in_block, truncated_in_block);
        assert_eq!(results.truncated_between_blocks, truncated_between_blocks);
    }
    {
        let results = bamrescue::check(data, false, 4, &mut bamrescue::NoProgress);
        assert_eq!(results.blocks_count, blocks_count);
        assert_eq!(results.bad_blocks_count, bad_blocks_count);
        assert_eq!(results.truncated_in_block, truncated_in_block);
        assert_eq!(results.truncated_between_blocks, truncated_between_blocks);
    }
    {
        let results = bamrescue::check(data, true, 1, &mut bamrescue::NoProgress);
        assert!(bad_blocks_count == 0 || results.bad_blocks_count > 0);
        assert_eq!(results.truncated_in_block, truncated_in_block);
        assert_eq!(results.truncated_between_blocks, truncated_between_blocks);
    }
    {
        let results = bamrescue::check(data, true, 4, &mut bamrescue::NoProgress);
        assert!(bad_blocks_count == 0 || results.bad_blocks_count > 0);
        assert_eq!(results.truncated_in_block, truncated_in_block);
        assert_eq!(results.truncated_between_blocks, truncated_between_blocks);
    }
}

#[test]
fn check_empty_file() {
    check(&[], 0, 0, false, false)
}

#[test]
fn check_empty_bam() {
    check(&empty_bgzf_block(), 1, 0, false, false)
}

#[test]
fn check_empty_with_extra_subfields_before_bam() {
    check(&empty_bgzf_block_with_extra_subfields_before(), 1, 0, false, false)
}

#[test]
fn check_empty_with_extra_subfields_after_bam() {
    check(&empty_bgzf_block_with_extra_subfields_after(), 1, 0, false, false)
}

#[test]
fn check_empty_with_extra_subfields_before_and_after_bam() {
    check(&empty_bgzf_block_with_extra_subfields_before_and_after(), 1, 0, false, false)
}

#[test]
fn check_empty_with_extra_similar_subfields_before_bam() {
    check(&empty_bgzf_block_with_extra_similar_subfields_before(), 1, 0, false, false)
}

#[test]
fn check_empty_with_extra_similar_subfields_after_bam() {
    check(&empty_bgzf_block_with_extra_similar_subfields_after(), 1, 0, false, false)
}

#[test]
fn check_empty_with_extra_similar_subfields_before_and_after_bam() {
    check(&empty_bgzf_block_with_extra_similar_subfields_before_and_after(), 1, 0, false, false)
}

#[test]
fn check_single_block_bam() {
    let mut data = regular_bgzf_block();
    data.extend(&empty_bgzf_block());
    check(&data, 2, 0, false, false)
}

#[test]
fn check_two_blocks_bam() {
    let mut data = regular_bgzf_block();
    data.extend(&regular_bgzf_block());
    data.extend(&empty_bgzf_block());
    check(&data, 3, 0, false, false)
}

#[test]
fn check_three_blocks_bam() {
    let mut data = regular_bgzf_block();
    data.extend(&regular_bgzf_block());
    data.extend(&regular_bgzf_block());
    data.extend(&empty_bgzf_block());
    check(&data, 4, 0, false, false)
}

#[test]
fn check_three_blocks_empty_inside_bam() {
    let mut data = regular_bgzf_block();
    data.extend(&empty_bgzf_block());
    data.extend(&regular_bgzf_block());
    data.extend(&empty_bgzf_block());
    check(&data, 4, 0, false, false)
}

#[test]
fn check_single_block_missing_gzip_identifier() {
    let mut data = regular_bgzf_block();
    data.extend(&empty_bgzf_block());
    data[0] = 42;
    check(&data, 2, 1, false, false)
}

#[test]
fn check_single_block_missing_bgzf_identifier() {
    let mut data = regular_bgzf_block();
    data.extend(&empty_bgzf_block());
    data[12] = 21;
    check(&data, 2, 1, false, false)
}

#[test]
fn check_single_block_missing_empty_bam() {
    check(&regular_bgzf_block(), 1, 0, false, true)
}

#[test]
fn check_two_blocks_missing_empty_bam() {
    let mut data = regular_bgzf_block();
    data.extend(&regular_bgzf_block());
    check(&data, 2, 0, false, true)
}

#[test]
fn check_three_blocks_bad_inflated_payload_crc32_bam() {
    let mut data = regular_bgzf_block();
    data.extend(&bad_inflated_payload_crc32_bgzf_block());
    data.extend(&regular_bgzf_block());
    data.extend(&empty_bgzf_block());
    check(&data, 4, 1, false, false)
}

#[test]
fn check_three_blocks_bad_inflated_payload_size_bam() {
    let mut data = regular_bgzf_block();
    data.extend(&bad_inflated_payload_size_bgzf_block());
    data.extend(&regular_bgzf_block());
    data.extend(&empty_bgzf_block());
    check(&data, 4, 1, false, false)
}

#[test]
fn check_three_blocks_too_small_bgzf_size_bam() {
    let mut data = too_small_bgzf_size_bgzf_block();
    data.extend(&regular_bgzf_block());
    data.extend(&regular_bgzf_block());
    data.extend(&empty_bgzf_block());
    check(&data, 4, 1, false, false)
}

#[test]
fn check_three_blocks_too_large_bgzf_size_bam() {
    let mut data = too_large_bgzf_size_bgzf_block();
    data.extend(&regular_bgzf_block());
    data.extend(&regular_bgzf_block());
    data.extend(&empty_bgzf_block());
    check(&data, 4, 1, false, false)
}

#[test]
fn check_three_blocks_with_extra_subfields_before_bam() {
    let mut data = regular_bgzf_block();
    data.extend(&regular_bgzf_block_with_extra_subfields_before());
    data.extend(&regular_bgzf_block());
    data.extend(&empty_bgzf_block());
    check(&data, 4, 0, false, false)
}

#[test]
fn check_three_blocks_with_extra_subfields_after_bam() {
    let mut data = regular_bgzf_block();
    data.extend(&regular_bgzf_block_with_extra_subfields_after());
    data.extend(&regular_bgzf_block());
    data.extend(&empty_bgzf_block());
    check(&data, 4, 0, false, false)
}

#[test]
fn check_three_blocks_with_extra_subfields_before_and_after_bam() {
    let mut data = regular_bgzf_block();
    data.extend(&regular_bgzf_block_with_extra_subfields_before_and_after());
    data.extend(&regular_bgzf_block());
    data.extend(&empty_bgzf_block());
    check(&data, 4, 0, false, false)
}

#[test]
fn check_three_blocks_with_extra_similar_subfields_before_bam() {
    let mut data = regular_bgzf_block();
    data.extend(&regular_bgzf_block_with_extra_similar_subfields_before());
    data.extend(&regular_bgzf_block());
    data.extend(&empty_bgzf_block());
    check(&data, 4, 0, false, false)
}

#[test]
fn check_three_blocks_with_extra_similar_subfields_after_bam() {
    let mut data = regular_bgzf_block();
    data.extend(&regular_bgzf_block_with_extra_similar_subfields_after());
    data.extend(&regular_bgzf_block());
    data.extend(&empty_bgzf_block());
    check(&data, 4, 0, false, false)
}

#[test]
fn check_three_blocks_with_extra_similar_subfields_before_and_after_bam() {
    let mut data = regular_bgzf_block();
    data.extend(&regular_bgzf_block_with_extra_similar_subfields_before_and_after());
    data.extend(&regular_bgzf_block());
    data.extend(&empty_bgzf_block());
    check(&data, 4, 0, false, false)
}

#[test]
fn check_truncated_inside_block() {
    let data = regular_bgzf_block();
    check(&data[0..20], 0, 0, true, false)
}

#[test]
fn check_truncated_header() {
    let mut data = regular_bgzf_block();
    data.extend(&regular_bgzf_block()[0..6]);
    let results = bamrescue::check(&data, false, 1, &mut bamrescue::NoProgress);
    assert_eq!(results.blocks_count, 1);
    assert_eq!(results.bad_blocks_count, 1);
    assert_eq!(results.truncated_in_block, true);
    assert_eq!(results.truncated_between_blocks, true);
    // fail-fast returns on the first corruption, before the end of the
    // input classifies the file as truncated between blocks
    let results = bamrescue::check(&data, true, 1, &mut bamrescue::NoProgress);
    assert_eq!(results.bad_blocks_count, 1);
    assert_eq!(results.truncated_in_block, true);
    assert_eq!(results.truncated_between_blocks, false);
}

#[test]
fn check_version_is_set() {
    assert!(!bamrescue::version().is_empty());
}

#[test]
fn check_counts_payload_sizes() {
    let mut data = regular_bgzf_block();
    data.extend(&bad_inflated_payload_crc32_bgzf_block());
    data.extend(&regular_bgzf_block());
    data.extend(&empty_bgzf_block());
    let results = bamrescue::check(&data, false, 1, &mut bamrescue::NoProgress);
    assert_eq!(results.blocks_count, 4);
    assert_eq!(results.blocks_size, 15);
    assert_eq!(results.bad_blocks_count, 1);
    assert_eq!(results.bad_blocks_size, 5);
}

struct CountingListener {
    targets: u64,
    progressed: u64,
    bad: u64,
    finished: u64,
}

impl bamrescue::ListenProgress for CountingListener {
    fn on_new_target(&mut self, _target: u64) {
        self.targets += 1;
    }

    fn on_progress(&mut self, _progress: u64) {
        self.progressed += 1;
    }

    fn on_bad_block(&mut self) {
        self.bad += 1;
    }

    fn on_finished(&mut self) {
        self.finished += 1;
    }
}

#[test]
fn check_reports_progress() {
    let mut data = regular_bgzf_block();
    data.extend(&bad_inflated_payload_crc32_bgzf_block());
    data.extend(&regular_bgzf_block());
    data.extend(&empty_bgzf_block());
    let mut listener = CountingListener { targets: 0, progressed: 0, bad: 0, finished: 0 };
    bamrescue::check(&data, false, 1, &mut listener);
    assert_eq!(listener.targets, 1);
    assert_eq!(listener.progressed, 3); // the corrupted block is dropped unreported
    assert_eq!(listener.bad, 1);
    assert_eq!(listener.finished, 1);
}
