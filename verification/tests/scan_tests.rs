use strung::scan::{perform_scan, scan_batch, Encoding, Extracted};

fn texts(items: &[Extracted]) -> Vec<(String, u64, u8)> {
    items.iter().map(|e| (e.content.clone(), e.offset, e.xor_key)).collect()
}

#[test]
fn single_byte_runs_are_found_with_offsets() {
    let data = b"hello\x00world\x01";
    let found = perform_scan(data, 0, 4, Encoding::Single, 0, true);
    assert_eq!(texts(&found), vec![("hello".to_string(), 0, 0), ("world".to_string(), 6, 0)]);
}

#[test]
fn base_offset_is_added() {
    let data = b"\x00abcd\x00";
    let found = perform_scan(data, 1000, 4, Encoding::Single, 0, true);
    assert_eq!(texts(&found), vec![("abcd".to_string(), 1001, 0)]);
}

#[test]
fn short_runs_are_dropped() {
    let data = b"ab\x00abcd\x00";
    let found = perform_scan(data, 0, 4, Encoding::Single, 0, true);
    assert_eq!(texts(&found), vec![("abcd".to_string(), 3, 0)]);
}

#[test]
fn run_open_at_a_window_end_is_left_for_the_next_window() {
    let data = b"abcd\x00efgh";
    let found = perform_scan(data, 0, 4, Encoding::Single, 0, false);
    assert_eq!(texts(&found), vec![("abcd".to_string(), 0, 0)]);
}

#[test]
fn run_reaching_the_end_of_the_input_is_reported() {
    let data = b"abcd\x00efgh";
    let found = perform_scan(data, 0, 4, Encoding::Single, 0, true);
    assert_eq!(texts(&found), vec![("abcd".to_string(), 0, 0), ("efgh".to_string(), 5, 0)]);
}

#[test]
fn whole_input_printable_is_one_string() {
    let found = perform_scan(b"abcd", 0, 4, Encoding::Single, 0, true);
    assert_eq!(texts(&found), vec![("abcd".to_string(), 0, 0)]);
    let short = perform_scan(b"abc", 0, 4, Encoding::Single, 0, true);
    assert!(short.is_empty());
}

#[test]
fn utf16_run_at_the_end_is_reported() {
    let le = perform_scan(b"\x01\x02h\0i\0!\0", 7, 3, Encoding::Utf16Le, 0, true);
    assert_eq!(texts(&le), vec![("hi!".to_string(), 9, 0)]);
    let le_odd = perform_scan(b"h\0i\0!\0x", 0, 3, Encoding::Utf16Le, 0, true);
    assert_eq!(texts(&le_odd), vec![("hi!".to_string(), 0, 0)]);
    let be = perform_scan(b"\0h\0i\0!", 0, 3, Encoding::Utf16Be, 0, true);
    assert_eq!(texts(&be), vec![("hi!".to_string(), 0, 0)]);
    let open = perform_scan(b"\0h\0i\0!", 0, 3, Encoding::Utf16Be, 0, false);
    assert!(open.is_empty());
}

#[test]
fn found_offsets_increase() {
    let data = b"ab\x00cd\x01\x02ef\x03gh";
    let found = perform_scan(data, 0, 0, Encoding::Single, 0, true);
    let offsets: Vec<u64> = found.iter().map(|e| e.offset).collect();
    assert_eq!(offsets, vec![0, 3, 6, 7, 10]);
}

#[test]
fn spaces_are_printable() {
    let data = b"a b c\n";
    let found = perform_scan(data, 0, 4, Encoding::Single, 0, true);
    assert_eq!(texts(&found), vec![("a b c".to_string(), 0, 0)]);
}

#[test]
fn zero_min_len_reports_empty_runs() {
    let data = b"\x00\x01";
    let found = perform_scan(data, 0, 0, Encoding::Single, 0, false);
    assert_eq!(texts(&found), vec![("".to_string(), 0, 0), ("".to_string(), 1, 0)]);
    let at_end = perform_scan(data, 0, 0, Encoding::Single, 0, true);
    assert_eq!(
        texts(&at_end),
        vec![("".to_string(), 0, 0), ("".to_string(), 1, 0), ("".to_string(), 2, 0)]
    );
}

#[test]
fn xor_key_decodes_bytes() {
    let plain = b"hello\xff";
    let data: Vec<u8> = plain.iter().map(|b| b ^ 0x5a).collect();
    let found = perform_scan(&data, 0, 4, Encoding::Single, 0x5a, true);
    assert_eq!(texts(&found), vec![("hello".to_string(), 0, 0x5a)]);
}

#[test]
fn utf16_little_endian() {
    let data = b"h\0i\0!\0\x01\x02";
    let found = perform_scan(data, 0, 3, Encoding::Utf16Le, 0, true);
    assert_eq!(texts(&found), vec![("hi!".to_string(), 0, 0)]);
}

#[test]
fn utf16_little_endian_resyncs_after_a_bad_pair() {
    // "\x01" cannot start a character: the pair (0x01, 'a') fails and 'a' starts the next pair.
    let data = b"\x01a\0b\0c\0\x02\x03";
    let found = perform_scan(data, 10, 3, Encoding::Utf16Le, 0, true);
    assert_eq!(texts(&found), vec![("abc".to_string(), 11, 0)]);
}

#[test]
fn utf16_big_endian() {
    let data = b"\0h\0i\0!\x01\x02";
    let found = perform_scan(data, 0, 3, Encoding::Utf16Be, 0, true);
    assert_eq!(texts(&found), vec![("hi!".to_string(), 0, 0)]);
}

#[test]
fn encoding_names() {
    assert_eq!(Encoding::from_name("l"), Encoding::Utf16Le);
    assert_eq!(Encoding::from_name("b"), Encoding::Utf16Be);
    assert_eq!(Encoding::from_name("s"), Encoding::Single);
    assert_eq!(Encoding::from_name("ll"), Encoding::Other);
    assert_eq!(Encoding::from_name(""), Encoding::Other);
    assert_eq!(Encoding::from_name("S"), Encoding::Other);
}

#[test]
fn batch_without_xor_is_the_raw_scan() {
    let data = b"hello\x00";
    let found = scan_batch(data, 0, 4, Encoding::Single, false, true);
    assert_eq!(texts(&found), vec![("hello".to_string(), 0, 0)]);
}

#[test]
fn batch_with_xor_tries_every_key_after_the_raw_scan() {
    let data: Vec<u8> = b"ABCD\xfe".iter().map(|b| b ^ 1).collect();
    let found = scan_batch(&data, 0, 4, Encoding::Single, true, true);
    let all = texts(&found);
    assert_eq!(all[0], ("@CBE".to_string(), 0, 0));
    assert!(all.contains(&("ABCD".to_string(), 0, 1)));
    let keys: Vec<u8> = all.iter().map(|t| t.2).collect();
    let mut sorted = keys.clone();
    sorted.sort();
    assert_eq!(keys, sorted);
}

#[test]
fn xor_law_on_values() {
    // Scanning under key k finds what a raw scan of the data XOR k finds.
    let data: Vec<u8> = b"\x10text here\x00more\x11".to_vec();
    let key = 0x33u8;
    let xored: Vec<u8> = data.iter().map(|b| b ^ key).collect();
    let under_key = perform_scan(&data, 0, 4, Encoding::Single, key, true);
    let raw = perform_scan(&xored, 0, 4, Encoding::Single, 0, true);
    let a: Vec<(String, u64)> = under_key.iter().map(|e| (e.content.clone(), e.offset)).collect();
    let b: Vec<(String, u64)> = raw.iter().map(|e| (e.content.clone(), e.offset)).collect();
    assert_eq!(a, b);
}

#[test]
fn found_strings_stand_at_their_offsets() {
    let data = b"\x01alpha\x02\x03beta gamma\x04x\x05";
    for e in perform_scan(data, 0, 3, Encoding::Single, 0, true) {
        let start = e.offset as usize;
        assert_eq!(&data[start..start + e.content.len()], e.content.as_bytes());
    }
}

#[test]
fn every_maximal_run_is_found() {
    let data = b"\x00one two\x01\x02three\x03fo\x04fives\x05six";
    let found = texts(&perform_scan(data, 0, 3, Encoding::Single, 0, true));
    assert_eq!(
        found,
        vec![
            ("one two".to_string(), 1, 0),
            ("three".to_string(), 10, 0),
            ("fives".to_string(), 19, 0),
            ("six".to_string(), 25, 0),
        ]
    );
}

#[test]
fn utf16_big_endian_run_after_junk_is_found_at_its_start() {
    let data = b"\x05\0a\0b\0c\x05\x06";
    let found = perform_scan(data, 0, 3, Encoding::Utf16Be, 0, true);
    assert_eq!(texts(&found), vec![("abc".to_string(), 1, 0)]);
}

#[test]
fn other_encoding_reads_single_bytes_and_counts_two_per_character() {
    // "abcd" starts at 11 and ends at 15; its offset counts back 8 bytes.
    let found = perform_scan(b"\x00abcd\x00", 10, 4, Encoding::Other, 0, true);
    assert_eq!(texts(&found), vec![("abcd".to_string(), 7, 0)]);
    let raw = perform_scan(b"\x00abcd\x00", 10, 4, Encoding::Single, 0, true);
    assert_eq!(texts(&raw), vec![("abcd".to_string(), 11, 0)]);
}

#[test]
fn other_encoding_offset_wraps_below_zero() {
    let found = perform_scan(b"abcd\x00", 0, 4, Encoding::Other, 0, true);
    assert_eq!(texts(&found), vec![("abcd".to_string(), u64::MAX - 3, 0)]);
}
