use strung::config::{merge_options, CliOptions, Config, OffsetFormat, SortOrder};
use strung::entropy::byte_histogram;
use strung::regions::{entropy_windows, scan_windows, section_regions, windows};
use strung::scan::Encoding;
use strung::style::{compile_ipv4_pattern, smart_style, Origin, Style};
use strung::text::bytes_contain;

fn no_options() -> CliOptions {
    CliOptions {
        no_duplicate: false,
        no_sort: false,
        debug: false,
        order: None,
        offset: None,
        regex: None,
        encoding: "s".to_string(),
        context: 0,
        section: None,
        smart: false,
        entropy: false,
        base64: false,
        xor: false,
    }
}

#[test]
fn defaults() {
    let c = Config::default();
    assert!(c.no_number && c.mix_cons_voy && c.rx_symbole && c.english_filter);
    assert_eq!(c.rx_effective_length, 10);
    assert!(c.remove_duplicate && c.sort_significance && !c.debug);
    assert_eq!(c.sort_by, SortOrder::Probability);
    assert_eq!(c.encoding, Encoding::Single);
    assert_eq!(c.context, 0);
    assert!(c.show_offset.is_none() && c.match_regex.is_none() && c.section.is_none());
    assert!(!c.smart && !c.entropy && !c.base64 && !c.xor);
}

#[test]
fn no_options_keep_the_config() {
    let mut c = Config::default();
    c.encoding = Encoding::Utf16Be;
    c.context = 7;
    let m = merge_options(c, &no_options());
    assert_eq!(m.encoding, Encoding::Utf16Be);
    assert_eq!(m.context, 7);
    assert!(m.remove_duplicate && m.sort_significance);
}

#[test]
fn options_override() {
    let mut o = no_options();
    o.no_duplicate = true;
    o.no_sort = true;
    o.order = Some("n".to_string());
    o.offset = Some("x".to_string());
    o.regex = Some("abc".to_string());
    o.encoding = "l".to_string();
    o.context = 4;
    o.section = Some(".rodata".to_string());
    o.xor = true;
    let m = merge_options(Config::default(), &o);
    assert!(!m.remove_duplicate);
    assert!(m.sort_significance);
    assert_eq!(m.sort_by, SortOrder::Count);
    assert_eq!(m.show_offset, Some(OffsetFormat::Hex));
    assert_eq!(m.match_regex, Some("abc".to_string()));
    assert_eq!(m.encoding, Encoding::Utf16Le);
    assert_eq!(m.context, 4);
    assert_eq!(m.section, Some(".rodata".to_string()));
    assert!(m.xor && !m.base64);
}

#[test]
fn no_sort_without_order_turns_sorting_off() {
    let mut o = no_options();
    o.no_sort = true;
    assert!(!merge_options(Config::default(), &o).sort_significance);
    o.smart = true;
    let m = merge_options(Config::default(), &o);
    assert!(m.sort_significance && m.smart);
}

#[test]
fn unknown_names() {
    assert_eq!(SortOrder::from_name("l"), SortOrder::Length);
    assert_eq!(SortOrder::from_name("p"), SortOrder::Probability);
    assert_eq!(SortOrder::from_name("zz"), SortOrder::Probability);
    assert_eq!(OffsetFormat::from_name("d"), OffsetFormat::Decimal);
    assert_eq!(OffsetFormat::from_name("x"), OffsetFormat::Hex);
    let mut o = no_options();
    o.encoding = "q".to_string();
    let mut c = Config::default();
    c.encoding = Encoding::Utf16Le;
    assert_eq!(merge_options(c, &o).encoding, Encoding::Other);
}

#[test]
fn window_plans() {
    assert_eq!(windows(10, 4, 1), vec![(0, 5), (4, 9), (8, 10)]);
    assert_eq!(windows(8, 4, 0), vec![(0, 4), (4, 8)]);
    assert_eq!(windows(9, 4, 1), vec![(0, 5), (4, 9)]);
    assert!(windows(0, 4, 1).is_empty());
    assert_eq!(scan_windows(3), vec![(0, 3)]);
    assert_eq!(scan_windows(1048576 + 1024), vec![(0, 1048576 + 1024)]);
    assert_eq!(scan_windows(1048576 + 1025), vec![(0, 1048576 + 1024), (1048576, 1048576 + 1025)]);
    assert_eq!(entropy_windows(5000), vec![(0, 4096), (4096, 5000)]);
}

#[test]
fn windows_cover_every_byte() {
    let w = windows(1000, 37, 5);
    assert_eq!(w[0].0, 0);
    assert_eq!(w.last().unwrap().1, 1000);
    for p in 0..1000 {
        assert!(w.iter().any(|&(s, e)| s <= p && p < e));
    }
}

#[test]
fn sections_of_data_that_is_no_object_file() {
    assert!(section_regions(b"not an object file", &".text".to_string()).is_empty());
}

#[test]
fn histogram() {
    let h = byte_histogram(&[1, 2, 2, 255]);
    assert_eq!(h.len(), 256);
    assert_eq!(h[0], 0);
    assert_eq!(h[1], 1);
    assert_eq!(h[2], 2);
    assert_eq!(h[255], 1);
    assert_eq!(h.iter().sum::<usize>(), 4);
}

#[test]
fn smart_styles() {
    let ip = compile_ipv4_pattern().unwrap();
    assert_eq!(smart_style("anything", Origin::Raw, true, &ip), Style::Secret);
    assert_eq!(smart_style("see http://x", Origin::Raw, false, &ip), Style::Link);
    assert_eq!(smart_style("go to www.site", Origin::Xor(3), false, &ip), Style::Link);
    assert_eq!(smart_style("me@home", Origin::Raw, false, &ip), Style::Link);
    assert_eq!(smart_style("host 10.0.0.1", Origin::Raw, false, &ip), Style::Link);
    assert_eq!(smart_style("plaintext", Origin::Base64, false, &ip), Style::Decoded);
    assert_eq!(smart_style("plaintext", Origin::Xor(9), false, &ip), Style::Xor);
    assert_eq!(smart_style("abcdef", Origin::Raw, false, &ip), Style::ByScore);
    assert_eq!(smart_style("abcde", Origin::Raw, false, &ip), Style::Plain);
}

#[test]
fn origins() {
    assert_eq!(Origin::of_key(0), Origin::Raw);
    assert_eq!(Origin::of_key(7), Origin::Xor(7));
}

#[test]
fn substring_search() {
    assert!(bytes_contain(b"hello", b"ll"));
    assert!(bytes_contain(b"hello", b""));
    assert!(bytes_contain(b"", b""));
    assert!(!bytes_contain(b"hel", b"hello"));
    assert!(bytes_contain(b"hello", b"hello"));
    assert!(!bytes_contain(b"hello", b"lo!"));
}

fn push16(v: &mut Vec<u8>, x: u16) {
    v.extend_from_slice(&x.to_le_bytes());
}
fn push32(v: &mut Vec<u8>, x: u32) {
    v.extend_from_slice(&x.to_le_bytes());
}
fn push64(v: &mut Vec<u8>, x: u64) {
    v.extend_from_slice(&x.to_le_bytes());
}

fn section_header(v: &mut Vec<u8>, name: u32, kind: u32, flags: u64, offset: u64, size: u64) {
    push32(v, name);
    push32(v, kind);
    push64(v, flags);
    push64(v, 0);
    push64(v, offset);
    push64(v, size);
    push32(v, 0);
    push32(v, 0);
    push64(v, 1);
    push64(v, 0);
}

/// A small ELF file with a `.rodata` section holding "secret text\0" at offset 64.
fn tiny_elf() -> Vec<u8> {
    let mut v = vec![0x7f, b'E', b'L', b'F', 2, 1, 1, 0, 0, 0, 0, 0, 0, 0, 0, 0];
    push16(&mut v, 1);
    push16(&mut v, 0x3e);
    push32(&mut v, 1);
    push64(&mut v, 0);
    push64(&mut v, 0);
    push64(&mut v, 96);
    push32(&mut v, 0);
    push16(&mut v, 64);
    push16(&mut v, 0);
    push16(&mut v, 0);
    push16(&mut v, 64);
    push16(&mut v, 3);
    push16(&mut v, 1);
    assert_eq!(v.len(), 64);
    v.extend_from_slice(b"secret text\0");
    v.extend_from_slice(b"\0.shstrtab\0.rodata\0");
    v.push(0);
    assert_eq!(v.len(), 96);
    v.extend_from_slice(&[0u8; 64]);
    section_header(&mut v, 1, 3, 0, 76, 19);
    section_header(&mut v, 11, 1, 2, 64, 12);
    v
}

#[test]
fn sections_of_an_elf_file() {
    let elf = tiny_elf();
    assert_eq!(
        section_regions(&elf, &".rodata".to_string()),
        vec![(b"secret text\0".to_vec(), 64u64)]
    );
    assert!(section_regions(&elf, &".text".to_string()).is_empty());
}

#[test]
fn short_ranges_fit_in_one_window() {
    let w = windows(100, 10, 3);
    for p in 0..100usize {
        for n in 0..=4usize {
            if p + n <= 100 {
                assert!(w.iter().any(|&(s, e)| s <= p && p + n <= e));
            }
        }
    }
}
