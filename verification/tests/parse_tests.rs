use hic_resolution::codec::{read_cstring, read_i16, read_i32, read_i64, read_magic, read_u8};
use hic_resolution::filter::{line_matches_region, parse_span, Region, RegionError};
use hic_resolution::header::{apply_header_entry, parse_header_line};
use hic_resolution::parser::{parse_line_juicer, parse_line_pairs};
use hic_resolution::utils::{
    create_default_chr_map, fast_map_from_default, get_default_genome_lengths, parse_chr,
    parse_u32_fast, FastChrMap,
};

#[test]
fn parse_u32_fast_reads_digit_strings() {
    assert_eq!(parse_u32_fast(b"0"), Some(0));
    assert_eq!(parse_u32_fast(b"123"), Some(123));
    assert_eq!(parse_u32_fast(b"4294967295"), Some(u32::MAX));
    assert_eq!(parse_u32_fast(b""), None);
    assert_eq!(parse_u32_fast(b"12a"), None);
    assert_eq!(parse_u32_fast(b"-5"), None);
    // The accumulator wraps modulo 2^32, as the original release build does.
    assert_eq!(parse_u32_fast(b"4294967296"), Some(0));
}

#[test]
fn default_genome_lengths_are_the_builtin_table() {
    let lengths = get_default_genome_lengths();
    assert_eq!(lengths.len(), 24);
    assert_eq!(lengths[0], 249_250_621);
    assert_eq!(lengths[23], 59_373_566);
}

#[test]
fn default_chr_map_resolves_names_and_aliases() {
    let m = create_default_chr_map();
    assert_eq!(parse_chr(b"1", &m), Some(1));
    assert_eq!(parse_chr(b"chr7", &m), Some(7));
    assert_eq!(parse_chr(b"X", &m), Some(23));
    assert_eq!(parse_chr(b"chrY", &m), Some(24));
    assert_eq!(parse_chr(b"23", &m), Some(23));
    assert_eq!(parse_chr(b"chrM", &m), None);
    assert_eq!(parse_chr(&[0xff, 0xfe], &m), None);
}

#[test]
fn fast_chr_map_first_entry_wins() {
    let names = vec!["1".to_owned(), "chr1".to_owned(), "1".to_owned()];
    let codes = vec![1u8, 1, 9];
    let m = FastChrMap::from_names_codes(names, codes);
    assert_eq!(m.get("1"), Some(1));
    assert_eq!(m.get_bytes(b"chr1"), Some(1));
    assert_eq!(m.get_bytes(b"2"), None);
    let d = fast_map_from_default();
    assert_eq!(d.get("chrX"), Some(23));
    assert_eq!(d.get("22"), Some(22));
    assert_eq!(d.get("chrM"), None);
}

#[test]
fn juicer_lines_parse_and_filter() {
    let m = create_default_chr_map();
    // str1 chr1 pos1 frag1 str2 chr2 pos2 frag2 mapq1 cigar seq mapq2
    let good = b"0 1 100 1 0 2 200 2 30 x y 30";
    let p = parse_line_juicer(good, &m).expect("record should survive");
    assert_eq!((p.chr1, p.pos1, p.chr2, p.pos2), (1, 100, 2, 200));
    // Equal fragments are filtered out.
    assert_eq!(parse_line_juicer(b"0 1 100 7 0 2 200 7 30 x y 30", &m), None);
    // Zero mapping quality is filtered out.
    assert_eq!(parse_line_juicer(b"0 1 100 1 0 2 200 2 0 x y 30", &m), None);
    // Missing field 11 reads mapping quality 2 as zero.
    assert_eq!(parse_line_juicer(b"0 1 100 1 0 2 200 2 30", &m), None);
    // Too few fields.
    assert_eq!(parse_line_juicer(b"0 1 100 1 0 2 200 2", &m), None);
    // Unknown chromosome.
    assert_eq!(parse_line_juicer(b"0 zz 100 1 0 2 200 2 30 x y 30", &m), None);
}

#[test]
fn pairs_lines_parse_and_filter() {
    let m = create_default_chr_map();
    let good = b"r1\tchr1\t100\tchr2\t200\t+\t-\tUU\n";
    let p = parse_line_pairs(good, &m).expect("record should survive");
    assert_eq!((p.chr1, p.pos1, p.chr2, p.pos2), (1, 100, 2, 200));
    assert_eq!(parse_line_pairs(b"#columns: ...\n", &m), None);
    assert_eq!(parse_line_pairs(b"\n", &m), None);
    assert_eq!(parse_line_pairs(b"r1\tchr1\t100\tchr2\t200\t+\t-\tUR\n", &m), None);
    assert_eq!(parse_line_pairs(b"r1\tchr1\t100\tchr2\t200\t+\tUU\n", &m), None);
    assert_eq!(parse_line_pairs(b"r1\tchr1\tx\tchr2\t200\t+\t-\tUU\n", &m), None);
}

#[test]
fn region_strings_parse_with_every_span_form() {
    let r = Region::parse("chr1:1,000-2,000", None).unwrap();
    assert_eq!((r.chrom, r.start, r.end), ("chr1", 1000, 2000));
    let r = Region::parse("chr2", Some("5..10")).unwrap();
    assert_eq!((r.chrom, r.start, r.end), ("chr2", 5, 10));
    let r = Region::parse("chr3", Some("7_9")).unwrap();
    assert_eq!((r.chrom, r.start, r.end), ("chr3", 7, 9));
    assert_eq!(parse_span("75-100"), Ok((75, 100)));
    assert_eq!(Region::parse("chr1", None).unwrap_err(), RegionError::MissingSpan);
    assert_eq!(Region::parse("chr1", Some("abc")).unwrap_err(), RegionError::InvalidSpan);
    assert_eq!(Region::parse("chr1", Some("a-b")).unwrap_err(), RegionError::InvalidNumber);
    assert_eq!(Region::parse("chr1", Some("10-5")).unwrap_err(), RegionError::StartAfterEnd);
    assert_eq!(parse_span("99999999999-5"), Err(RegionError::InvalidNumber));
}

#[test]
fn region_filter_matches_either_endpoint() {
    let line = "x 1 100 1 0 2 200 2 30 x x 30";
    assert!(line_matches_region(line, "1", 50, 150, false));
    assert!(line_matches_region(line, "2", 150, 250, false));
    assert!(!line_matches_region(line, "3", 0, 1000, false));
    assert!(!line_matches_region(line, "1", 101, 150, false));
    assert!(line_matches_region(line, "1", 50, 150, true));
    // Equal fragments fail the uniqueness pre-filter.
    let dup = "x 1 100 7 0 2 200 7 30 x x 30";
    assert!(!line_matches_region(dup, "1", 50, 150, true));
    assert!(line_matches_region(dup, "1", 50, 150, false));
    // Too few fields never match.
    assert!(!line_matches_region("a b c", "1", 0, 100, false));
}

#[test]
fn header_lines_yield_layout_entries() {
    let e = parse_header_line(b"#chromsize: chr1 1000\n").expect("chromsize entry");
    assert_eq!((e.0.as_slice(), e.1), (b"chr1".as_slice(), 1000));
    let e = parse_header_line(b"#samheader: @SQ\tSN:chr2\tLN:500\n").expect("samheader entry");
    assert_eq!((e.0.as_slice(), e.1), (b"chr2".as_slice(), 500));
    assert_eq!(parse_header_line(b"#columns: readID chrom1\n"), None);
    assert_eq!(parse_header_line(b"#chromsize: chr1\n"), None);
    assert_eq!(parse_header_line(b"#samheader: @SQ SN:chr2\n"), None);
    assert_eq!(parse_header_line(b"data line\n"), None);
}

#[test]
fn header_entries_deduplicate_by_name() {
    let mut names: Vec<Vec<u8>> = Vec::new();
    let mut lengths: Vec<u32> = Vec::new();
    apply_header_entry(&mut names, &mut lengths, b"chr1".to_vec(), 100);
    apply_header_entry(&mut names, &mut lengths, b"chr2".to_vec(), 200);
    apply_header_entry(&mut names, &mut lengths, b"chr1".to_vec(), 150);
    assert_eq!(names, vec![b"chr1".to_vec(), b"chr2".to_vec()]);
    assert_eq!(lengths, vec![150, 200]);
}

#[test]
fn codec_reads_little_endian_and_cstrings() {
    assert_eq!(read_u8(&[7, 9]), 7);
    assert_eq!(read_i16(&[0x01, 0x00]), 1);
    assert_eq!(read_i16(&[0xff, 0xff]), -1);
    assert_eq!(read_i32(&[0x78, 0x56, 0x34, 0x12]), 0x12345678);
    assert_eq!(read_i32(&[0xff, 0xff, 0xff, 0xff]), -1);
    assert_eq!(read_i64(&[1, 0, 0, 0, 0, 0, 0, 0x80]), i64::MIN + 1);
    assert_eq!(read_i64(&[0xd2, 0x02, 0x96, 0x49, 0, 0, 0, 0]), 1234567890);
    let (s, used) = read_cstring(b"HIC\0rest").expect("terminated string");
    assert_eq!((s.as_str(), used), ("HIC", 4));
    assert_eq!(read_cstring(b"no nul"), None);
    let (ok, used) = read_magic(b"HIC\0...").expect("magic tag");
    assert!(ok);
    assert_eq!(used, 4);
    let (ok, _) = read_magic(b"HI\0").expect("short tag");
    assert!(!ok);
}

#[test]
fn numeric_fields_reject_overflow() {
    let m = create_default_chr_map();
    // A position past the u32 range fails the checked parse and drops the line.
    assert_eq!(
        parse_line_juicer(b"0 1 99999999999 1 0 2 200 2 30 x y 30", &m),
        None
    );
    // The region filter's loose parser instead wraps, like the original
    // accumulator, so the line still fails the range check.
    assert!(!line_matches_region(
        "x 1 99999999999 1 0 2 200 2 30 x x 30",
        "1",
        0,
        1000,
        false
    ));
}

#[test]
fn empty_tables_answer_no_lookup() {
    let m = FastChrMap::from_names_codes(Vec::new(), Vec::new());
    assert_eq!(m.get("chr1"), None);
    assert_eq!(m.get_bytes(b""), None);
}
