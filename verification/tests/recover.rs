use memdecomp::recover::{gather, scan_slice, Totals, WORK_CHUNK};
use memdecomp::scan::{scan_range, Hit};
use memdecomp::xpress::PAGE_SIZE;

/// A page of nothing but `byte`, compressed to 30 bytes and stored in 32.
fn long_block(byte: u8) -> Vec<u8> {
    let mut stream = vec![0u8, 8, 0, 0];
    stream.extend_from_slice(&[byte; 20]);
    // 4073 = 0x0FE9.
    stream.extend_from_slice(&[7, 0, 0x0F, 0xFF, 0xE9, 0x0F, 0, 0]);
    stream
}

#[test]
fn work_is_split_by_64_mib() {
    assert_eq!(WORK_CHUNK, 64 * 1024 * 1024);
}

#[test]
fn empty_data_hold_no_pages() {
    let (out, totals) = scan_slice(&[], 0);
    assert!(out.is_empty());
    assert_eq!(totals.pages, 0);
    assert_eq!(totals.compressed_bytes, 0);
}

#[test]
fn pages_come_out_in_scan_order() {
    let mut data = Vec::new();
    for i in 1..=130 {
        data.extend_from_slice(&long_block(i));
    }
    let (out, totals) = scan_slice(&data, 1024);
    assert_eq!(totals.pages, 130);
    assert_eq!(totals.compressed_bytes, 130 * 30);
    assert_eq!(totals.decompressed_bytes(), Some(532480));
    assert_eq!(out.len(), 532480);
    for (i, page) in out.chunks(PAGE_SIZE).enumerate() {
        assert_eq!(page, vec![i as u8 + 1; PAGE_SIZE]);
    }
}

#[test]
fn one_range_is_scanned_in_one_go() {
    let mut data = Vec::new();
    for i in 0..100 {
        data.extend_from_slice(&long_block(i));
        data.extend_from_slice(&vec![i; i as usize % 7]);
    }
    let hits = scan_range(&data, 0, data.len(), 64);
    let mut expected = Vec::new();
    for hit in &hits {
        expected.extend_from_slice(&hit.page);
    }
    let (out, totals) = scan_slice(&data, 64);
    assert_eq!(out, expected);
    assert_eq!(totals.pages as usize, hits.len());
    let compressed: usize = hits.iter().map(|hit| hit.compressed_len).sum();
    assert_eq!(totals.compressed_bytes as usize, compressed);
}

#[test]
fn block_that_straddles_two_ranges_is_recovered() {
    let mut data = vec![0u8; WORK_CHUNK + 2 * PAGE_SIZE];
    let straddling = WORK_CHUNK - 16;
    // Bytes that decode to nothing, so that no earlier candidate takes in the
    // block.
    data[WORK_CHUNK - PAGE_SIZE..straddling].fill(0xFF);
    data[straddling..straddling + 32].copy_from_slice(&long_block(0x42));
    let later = WORK_CHUNK + 16 + PAGE_SIZE;
    data[later..later + 32].copy_from_slice(&long_block(0x43));
    let (out, totals) = scan_slice(&data, PAGE_SIZE);
    assert_eq!(totals.pages, 2);
    assert_eq!(totals.compressed_bytes, 60);
    let mut expected = vec![0x42u8; PAGE_SIZE];
    expected.extend_from_slice(&vec![0x43u8; PAGE_SIZE]);
    assert_eq!(out, expected);
}

#[test]
fn block_on_the_start_of_a_range_is_recovered() {
    let mut data = vec![0u8; WORK_CHUNK];
    data.extend_from_slice(&long_block(0x44));
    let (out, totals) = scan_slice(&data, PAGE_SIZE);
    assert_eq!(totals.pages, 1);
    assert_eq!(totals.compressed_bytes, 30);
    assert_eq!(out, vec![0x44u8; PAGE_SIZE]);
}

#[test]
fn hits_are_gathered_in_order() {
    let chunks = vec![
        vec![
            Hit {
                offset: 0,
                page: vec![1; PAGE_SIZE],
                compressed_len: 5,
            },
            Hit {
                offset: 16,
                page: vec![2; PAGE_SIZE],
                compressed_len: 7,
            },
        ],
        vec![],
        vec![Hit {
            offset: 64,
            page: vec![3; PAGE_SIZE],
            compressed_len: PAGE_SIZE,
        }],
    ];
    let (out, totals) = gather(&chunks);
    let mut expected = vec![1u8; PAGE_SIZE];
    expected.extend_from_slice(&vec![2u8; PAGE_SIZE]);
    expected.extend_from_slice(&vec![3u8; PAGE_SIZE]);
    assert_eq!(out, expected);
    assert_eq!(totals.pages, 3);
    assert_eq!(totals.compressed_bytes, 12 + 4096);
}

#[test]
fn totals_add_up() {
    let a = Totals {
        pages: 3,
        compressed_bytes: 40,
    };
    let b = Totals {
        pages: 4,
        compressed_bytes: 50,
    };
    let sum = a.checked_add(&b).unwrap();
    assert_eq!((sum.pages, sum.compressed_bytes), (7, 90));
}

#[test]
fn totals_that_outgrow_their_type() {
    let one = Totals {
        pages: 1,
        compressed_bytes: 1,
    };
    let many_pages = Totals {
        pages: u64::MAX,
        compressed_bytes: 0,
    };
    let many_bytes = Totals {
        pages: 0,
        compressed_bytes: u64::MAX,
    };
    assert!(many_pages.checked_add(&one).is_none());
    assert!(many_bytes.checked_add(&one).is_none());
    assert!(many_pages.checked_add(&many_bytes).is_some());
    assert_eq!(many_pages.decompressed_bytes(), None);
    assert_eq!(many_bytes.decompressed_bytes(), Some(0));
}
