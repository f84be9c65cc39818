use memdecomp::scan::{is_all_zero, scan_range, Hit};
use memdecomp::xpress::{decompress, round_up_next, CHUNK_ALIGN, PAGE_SIZE};

#[test]
fn all_zero_buffer_yields_no_hits() {
    let data = vec![0u8; PAGE_SIZE * 4];
    let hits = scan_range(&data, 0, data.len(), 1024);
    assert!(hits.is_empty());
}

/// A page of nothing but `byte`, compressed to 11 bytes and stored in 16.
fn block(byte: u8) -> Vec<u8> {
    vec![
        0, 0, 0, 0x40, byte, 7, 0, 0x0F, 0xFF, 0xFC, 0x0F, 0, 0, 0, 0, 0,
    ]
}

/// `bytes` as literals: groups of up to 32, each behind a flag word of zero.
fn literal_stream(bytes: &[u8]) -> Vec<u8> {
    let mut stream = Vec::new();
    for group in bytes.chunks(32) {
        stream.extend_from_slice(&[0, 0, 0, 0]);
        stream.extend_from_slice(group);
    }
    stream
}

fn summary(hits: &[Hit]) -> Vec<(usize, Vec<u8>, usize)> {
    hits.iter()
        .map(|hit| (hit.offset, hit.page.clone(), hit.compressed_len))
        .collect()
}

#[test]
fn adjacent_pages_are_found() {
    let mut data = block(1);
    data.extend_from_slice(&block(2));
    data.extend_from_slice(&block(3));
    let hits = scan_range(&data, 0, data.len(), 1024);
    assert_eq!(
        summary(&hits),
        vec![
            (0, vec![1u8; PAGE_SIZE], 11),
            (16, vec![2u8; PAGE_SIZE], 11),
            (32, vec![3u8; PAGE_SIZE], 11),
        ]
    );
}

#[test]
fn short_page_is_padded_with_zeros() {
    let bytes: Vec<u8> = (0..1024u32).map(|i| (i % 250 + 1) as u8).collect();
    let data = literal_stream(&bytes);
    let hits = scan_range(&data, 0, data.len(), 1024);
    assert_eq!(hits[0].offset, 0);
    assert_eq!(hits[0].compressed_len, 1152);
    assert_eq!(hits[0].page.len(), PAGE_SIZE);
    assert_eq!(hits[0].page[..1024], bytes[..]);
    assert!(hits[0].page[1024..].iter().all(|&b| b == 0));
    assert_eq!(hits.len(), 1);
}

#[test]
fn minimum_size_decides() {
    let data = literal_stream(&[7; 28]);
    assert_eq!(scan_range(&data, 0, 1, 28).len(), 1);
    assert_eq!(scan_range(&data, 0, 1, 29).len(), 0);
}

#[test]
fn nothing_decodes_to_more_than_a_page() {
    let data = block(1);
    assert_eq!(scan_range(&data, 0, data.len(), PAGE_SIZE).len(), 1);
    assert_eq!(scan_range(&data, 0, data.len(), PAGE_SIZE + 1).len(), 0);
}

#[test]
fn failed_decode_counts_one_compressed_byte() {
    // Too short for a flag word: nothing is decoded, and nothing asked for.
    let data = vec![1u8, 2];
    let hits = scan_range(&data, 0, data.len(), 0);
    assert_eq!(summary(&hits), vec![(0, vec![0u8; PAGE_SIZE], 1)]);
}

#[test]
fn zero_window_is_skipped_as_a_whole() {
    let mut data = vec![0u8; PAGE_SIZE];
    data.extend_from_slice(&block(9));
    let hits = scan_range(&data, 0, data.len(), PAGE_SIZE);
    assert_eq!(summary(&hits), vec![(PAGE_SIZE, vec![9u8; PAGE_SIZE], 11)]);
}

#[test]
fn end_bounds_only_where_candidates_start() {
    let mut data = block(1);
    data.extend_from_slice(&block(2));
    let whole = scan_range(&data, 0, data.len(), PAGE_SIZE);
    assert_eq!(whole.len(), 2);
    for end in 0..40 {
        let hits = scan_range(&data, 0, end, PAGE_SIZE);
        let expected = if end == 0 {
            0
        } else if end <= 16 {
            1
        } else {
            2
        };
        assert_eq!(summary(&hits), summary(&whole[..expected]));
    }
}

#[test]
fn scan_can_be_resumed() {
    let mut data = Vec::new();
    for i in 0..20 {
        data.extend_from_slice(&block(i));
    }
    let whole = scan_range(&data, 0, data.len(), PAGE_SIZE);
    assert_eq!(whole.len(), 20);
    let mut parts = scan_range(&data, 0, 100, PAGE_SIZE);
    assert_eq!(parts.len(), 7);
    parts.extend(scan_range(&data, 112, data.len(), PAGE_SIZE));
    assert_eq!(summary(&parts), summary(&whole));
}

#[test]
fn hits_are_aligned_to_the_start_and_do_not_overlap() {
    let mut data = vec![0u8; 3];
    for i in 0..50u8 {
        data.extend_from_slice(&block(i));
        data.extend_from_slice(&literal_stream(&vec![i; (i as usize * 13) % 97]));
    }
    for start in [0, 3, 16, 21] {
        let hits = scan_range(&data, start, data.len(), 40);
        assert!(!hits.is_empty());
        let mut free = start;
        for hit in &hits {
            assert_eq!((hit.offset - start) % 16, 0);
            assert!(hit.offset >= free);
            assert_eq!(hit.page.len(), PAGE_SIZE);
            free = hit.offset + hit.compressed_len;
        }
    }
}

#[test]
fn range_behind_the_data_is_empty() {
    let data = block(1);
    assert!(scan_range(&data, 16, 100, 0).is_empty());
    assert!(scan_range(&data, 1000, usize::MAX, 0).is_empty());
    assert!(scan_range(&data, 8, 8, 0).is_empty());
    assert!(scan_range(&data, usize::MAX, usize::MAX, 0).is_empty());
    assert!(scan_range(&[], 0, usize::MAX, 0).is_empty());
}

#[test]
fn truncated_page_is_recovered() {
    let bytes: Vec<u8> = (0..2000u32).map(|i| (i % 250 + 1) as u8).collect();
    let data = literal_stream(&bytes);
    let whole = scan_range(&data, 0, 1, 100);
    for cut in (200..data.len()).step_by(37) {
        let part = scan_range(&data[..cut], 0, 1, 100);
        assert_eq!(part.len(), 1);
        let decoded = cut / 36 * 32 + (cut % 36).saturating_sub(4);
        assert_eq!(part[0].page[..decoded], whole[0].page[..decoded]);
        assert!(part[0].page[decoded..].iter().all(|&b| b == 0));
    }
}

#[test]
fn all_zero_splits_anywhere() {
    assert!(is_all_zero(&[]));
    let mut buf = vec![0u8; 50];
    for at in [None, Some(0), Some(20), Some(49)] {
        buf.fill(0);
        if let Some(at) = at {
            buf[at] = 1;
        }
        assert_eq!(is_all_zero(&buf), at.is_none());
        for k in 0..=buf.len() {
            let parts = is_all_zero(&buf[..k]) && is_all_zero(&buf[k..]);
            assert_eq!(is_all_zero(&buf), parts);
        }
    }
}

#[test]
fn shorter_range_holds_the_hits_before_its_end() {
    let mut data = Vec::new();
    for i in 0..12u8 {
        data.extend_from_slice(&block(i));
        data.extend_from_slice(&literal_stream(&vec![i; i as usize * 9]));
    }
    let long = scan_range(&data, 0, data.len(), 40);
    for end in 0..data.len() {
        let short = scan_range(&data, 0, end, 40);
        let before = long.iter().take_while(|hit| hit.offset < end).count();
        assert_eq!(summary(&short), summary(&long[..before]));
    }
}

#[test]
fn nothing_decodable_is_missed() {
    let mut data = vec![0u8; 64];
    for i in 1..30u8 {
        data.extend_from_slice(&block(i));
        data.extend_from_slice(&literal_stream(&vec![i; i as usize * 3]));
        data.extend_from_slice(&vec![0; i as usize * 5]);
    }
    let hits = scan_range(&data, 0, data.len(), 40);
    for p in (0..data.len()).step_by(CHUNK_ALIGN) {
        let near = &data[p..(p + CHUNK_ALIGN).min(data.len())];
        let window = &data[p..(p + PAGE_SIZE).min(data.len())];
        if is_all_zero(near) || decompress(window, PAGE_SIZE).data.len() < 40 {
            continue;
        }
        assert!(hits.iter().any(|hit| {
            let reach = hit.offset + round_up_next(hit.compressed_len, CHUNK_ALIGN);
            hit.offset <= p && p < reach
        }));
    }
}
