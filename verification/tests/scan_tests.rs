use dumpscan::entry::{Pattern, ResultEntry, Summary};
use dumpscan::scan::{analyze_dump, detect_patterns, find_ascii_strings};

fn table() -> Vec<Pattern> {
    vec![
        Pattern { name: "PDF".to_string(), bytes: b"%PDF".to_vec() },
        Pattern { name: "JPEG".to_string(), bytes: vec![0xFF, 0xD8, 0xFF, 0xE0] },
        Pattern { name: "ZIP".to_string(), bytes: vec![0x50, 0x4B, 0x03, 0x04] },
        Pattern { name: "PNG".to_string(), bytes: vec![0x89, 0x50, 0x4E, 0x47] },
    ]
}

#[test]
fn empty_buffer_gives_nothing() {
    let (entries, summary) = analyze_dump(&[], &table(), 1024, 6);
    assert!(entries.is_empty());
    assert_eq!(
        summary,
        Summary { total_entries: 0, total_patterns: 0, total_ascii_strings: 0 }
    );
}

#[test]
fn zip_signature_at_offset_sixteen() {
    let mut data = vec![0u8; 0x20];
    data[0x10..0x14].copy_from_slice(&[0x50, 0x4B, 0x03, 0x04]);
    let (entries, summary) = analyze_dump(&data, &table(), 1024 * 1024, 6);
    assert_eq!(
        entries,
        vec![ResultEntry {
            content: "Pattern 'ZIP'".to_string(),
            address: 0x10,
            bytes: vec![0x50, 0x4B, 0x03, 0x04],
        }]
    );
    assert_eq!(
        summary,
        Summary { total_entries: 1, total_patterns: 1, total_ascii_strings: 0 }
    );
}

#[test]
fn hello_world_between_unprintable_bytes() {
    let mut data = vec![0u8, 1, 2, 3];
    data.extend_from_slice(b"Hello, World!");
    data.extend_from_slice(&[0xFF, 0x00, 0x1F]);
    let (entries, summary) = analyze_dump(&data, &table(), 1024 * 1024, 6);
    assert_eq!(
        entries,
        vec![ResultEntry {
            content: "ASCII String 'Hello, World!'".to_string(),
            address: 4,
            bytes: b"Hello, World!".to_vec(),
        }]
    );
    assert_eq!(summary.total_ascii_strings, 1);
    assert_eq!(summary.total_patterns, 0);
    assert_eq!(summary.total_entries, 1);
}

#[test]
fn run_of_five_is_too_short() {
    let mut data = vec![0u8; 3];
    data.extend_from_slice(b"Hello");
    data.extend_from_slice(&[0u8; 3]);
    assert!(find_ascii_strings(&data, 0, 6).is_empty());
    let (entries, summary) = analyze_dump(&data, &table(), 1024, 6);
    assert!(entries.is_empty());
    assert_eq!(summary.total_entries, 0);
}

#[test]
fn run_of_exactly_the_minimum_is_reported() {
    let mut data = vec![0u8];
    data.extend_from_slice(b"Hello!");
    let found = find_ascii_strings(&data, 100, 6);
    assert_eq!(found.len(), 1);
    assert_eq!(found[0].address, 101);
    assert_eq!(found[0].bytes, b"Hello!".to_vec());
    assert_eq!(found[0].content, "ASCII String 'Hello!'");
}

#[test]
fn space_counts_as_text_and_tab_does_not() {
    let found = find_ascii_strings(b"ab cd ef\tgh ij kl", 0, 6);
    assert_eq!(found.len(), 2);
    assert_eq!(found[0].bytes, b"ab cd ef".to_vec());
    assert_eq!(found[0].address, 0);
    assert_eq!(found[1].bytes, b"gh ij kl".to_vec());
    assert_eq!(found[1].address, 9);
}

#[test]
fn tilde_is_text_and_delete_is_not() {
    let found = find_ascii_strings(&[0x7E, 0x7E, 0x7E, 0x7F, 0x20, 0x21, 0x7E], 0, 3);
    assert_eq!(found.len(), 2);
    assert_eq!(found[0].bytes, vec![0x7E, 0x7E, 0x7E]);
    assert_eq!(found[1].bytes, vec![0x20, 0x21, 0x7E]);
    assert_eq!(found[1].address, 4);
}

#[test]
fn run_that_reaches_the_end_is_reported() {
    let found = find_ascii_strings(b"\x00\x00trailing", 0, 6);
    assert_eq!(found.len(), 1);
    assert_eq!(found[0].address, 2);
    assert_eq!(found[0].bytes, b"trailing".to_vec());
}

#[test]
fn overlapping_occurrences_are_all_found() {
    let patterns = vec![Pattern { name: "AA".to_string(), bytes: vec![0xAA, 0xAA] }];
    let found = detect_patterns(&[0xAA, 0xAA, 0xAA, 0x00, 0xAA, 0xAA], 0x100, &patterns);
    let addresses: Vec<usize> = found.iter().map(|e| e.address).collect();
    assert_eq!(addresses, vec![0x100, 0x101, 0x104]);
    for e in &found {
        assert_eq!(e.bytes, vec![0xAA, 0xAA]);
        assert_eq!(e.content, "Pattern 'AA'");
    }
}

#[test]
fn patterns_come_in_table_order_not_address_order() {
    let mut data = vec![0x89, 0x50, 0x4E, 0x47, 0x00];
    data.extend_from_slice(&[0xFF, 0xD8, 0xFF, 0xE0]);
    let found = detect_patterns(&data, 0, &table());
    assert_eq!(found.len(), 2);
    assert_eq!(found[0].content, "Pattern 'JPEG'");
    assert_eq!(found[0].address, 5);
    assert_eq!(found[1].content, "Pattern 'PNG'");
    assert_eq!(found[1].address, 0);
}

#[test]
fn pattern_absent_gives_nothing() {
    assert!(detect_patterns(&[1, 2, 3, 4, 5], 0, &table()).is_empty());
    assert!(detect_patterns(&[], 0, &table()).is_empty());
    assert!(detect_patterns(&[0x50, 0x4B, 0x03], 0, &table()).is_empty());
}

#[test]
fn text_stands_before_signatures_within_a_chunk() {
    let mut data = b"%PDF-1.4 header".to_vec();
    data.push(0);
    let (entries, summary) = analyze_dump(&data, &table(), 1024, 6);
    assert_eq!(entries.len(), 2);
    assert_eq!(entries[0].content, "ASCII String '%PDF-1.4 header'");
    assert_eq!(entries[0].address, 0);
    assert_eq!(entries[1].content, "Pattern 'PDF'");
    assert_eq!(entries[1].address, 0);
    assert_eq!(summary.total_ascii_strings, 1);
    assert_eq!(summary.total_patterns, 1);
}

#[test]
fn addresses_are_absolute_across_chunks() {
    let mut data = vec![0u8; 24];
    data[2..6].copy_from_slice(&[0x50, 0x4B, 0x03, 0x04]);
    data[17..21].copy_from_slice(&[0xFF, 0xD8, 0xFF, 0xE0]);
    let (entries, _) = analyze_dump(&data, &table(), 8, 6);
    assert_eq!(entries.len(), 2);
    assert_eq!(entries[0].content, "Pattern 'ZIP'");
    assert_eq!(entries[0].address, 2);
    assert_eq!(entries[1].content, "Pattern 'JPEG'");
    assert_eq!(entries[1].address, 17);
}

#[test]
fn signature_across_a_chunk_boundary_is_missed() {
    let mut data = vec![0u8; 16];
    data[6..10].copy_from_slice(&[0x50, 0x4B, 0x03, 0x04]);
    let (split, _) = analyze_dump(&data, &table(), 8, 6);
    assert!(split.is_empty());
    let (whole, _) = analyze_dump(&data, &table(), 16, 6);
    assert_eq!(whole.len(), 1);
    assert_eq!(whole[0].address, 6);
}

#[test]
fn text_across_a_chunk_boundary_is_cut() {
    let mut data = vec![0u8; 2];
    data.extend_from_slice(b"abcdefghijkl");
    data.extend_from_slice(&[0u8; 2]);
    let (entries, summary) = analyze_dump(&data, &[], 8, 6);
    assert_eq!(entries.len(), 2);
    assert_eq!(entries[0].address, 2);
    assert_eq!(entries[0].bytes, b"abcdef".to_vec());
    assert_eq!(entries[1].address, 8);
    assert_eq!(entries[1].bytes, b"ghijkl".to_vec());
    assert_eq!(summary.total_ascii_strings, 2);
    let (entries, _) = analyze_dump(&data, &[], 8, 8);
    assert!(entries.is_empty());
    let (entries, _) = analyze_dump(&data, &[], 16, 8);
    assert_eq!(entries.len(), 1);
    assert_eq!(entries[0].bytes, b"abcdefghijkl".to_vec());
}

#[test]
fn store_is_ordered_by_chunk_then_class() {
    let mut data = Vec::new();
    data.extend_from_slice(&[0x50, 0x4B, 0x03, 0x04]);
    data.extend_from_slice(&[0u8; 2]);
    data.extend_from_slice(b"textual123");
    data.extend_from_slice(&[0u8; 4]);
    data.extend_from_slice(&[0x89, 0x50, 0x4E, 0x47, 0, 0]);
    data.extend_from_slice(b"more text!");
    let (entries, summary) = analyze_dump(&data, &table(), 20, 6);
    let seen: Vec<(usize, String)> =
        entries.iter().map(|e| (e.address, e.content.clone())).collect();
    assert_eq!(
        seen,
        vec![
            (6, "ASCII String 'textual123'".to_string()),
            (0, "Pattern 'ZIP'".to_string()),
            (26, "ASCII String 'more text!'".to_string()),
            (20, "Pattern 'PNG'".to_string()),
        ]
    );
    assert_eq!(
        summary,
        Summary { total_entries: 4, total_patterns: 2, total_ascii_strings: 2 }
    );
}

#[test]
fn totals_add_up_for_every_chunk_size() {
    let mut data = Vec::new();
    for i in 0..300usize {
        data.push((i * 37 % 251) as u8);
    }
    data.extend_from_slice(b"%PDF-1.7 some printable text");
    data.extend_from_slice(&[0xFF, 0xD8, 0xFF, 0xE0, 0x00, 0x50, 0x4B, 0x03, 0x04]);
    for chunk_size in 1..=data.len() + 3 {
        let (entries, summary) = analyze_dump(&data, &table(), chunk_size, 6);
        assert_eq!(summary.total_entries, entries.len());
        assert_eq!(
            summary.total_entries,
            summary.total_patterns + summary.total_ascii_strings
        );
        let patterns = entries.iter().filter(|e| e.content.starts_with("Pattern '")).count();
        let texts = entries.iter().filter(|e| e.content.starts_with("ASCII String '")).count();
        assert_eq!(summary.total_patterns, patterns);
        assert_eq!(summary.total_ascii_strings, texts);
    }
}

#[test]
fn chunk_size_one_finds_no_run_and_no_signature() {
    let data = b"%PDF printable".to_vec();
    let (entries, summary) = analyze_dump(&data, &table(), 1, 2);
    assert!(entries.is_empty());
    assert_eq!(summary.total_entries, 0);
}

#[test]
fn minimum_of_one_reports_every_run() {
    let found = find_ascii_strings(&[b'a', 0, b'b', b'c', 0, 0, b'd'], 10, 1);
    let seen: Vec<(usize, Vec<u8>)> = found.iter().map(|e| (e.address, e.bytes.clone())).collect();
    assert_eq!(
        seen,
        vec![(10, b"a".to_vec()), (12, b"bc".to_vec()), (16, b"d".to_vec())]
    );
}
