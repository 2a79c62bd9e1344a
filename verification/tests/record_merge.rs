use scatac_fragment_tools::merge::{
    merge_core, merge_fragment_lines, parse_files, parse_stream, render_entries, Entry, MergeError,
    MergeQueue,
};
use scatac_fragment_tools::order::{bytes_compare, key_compare, tag_before, Rel};
use scatac_fragment_tools::record::{
    parse_line, parse_usize, render, render_usize, Fragment, ParseError,
};

fn b(s: &str) -> Vec<u8> {
    s.as_bytes().to_vec()
}

fn lines(ss: &[&str]) -> Vec<Vec<u8>> {
    ss.iter().map(|s| b(s)).collect()
}

fn frag(chrom: &str, start: usize, end: usize, barcode: &str, score: Option<usize>) -> Fragment {
    Fragment { chrom: b(chrom), start, end, barcode: b(barcode), score }
}

#[test]
fn parse_four_fields() {
    let f = parse_line(b"chr1\t100\t200\tAACATCGATGGATG-1").unwrap();
    assert_eq!(f.chrom, b("chr1"));
    assert_eq!(f.start, 100);
    assert_eq!(f.end, 200);
    assert_eq!(f.barcode, b("AACATCGATGGATG-1"));
    assert_eq!(f.score, None);
}

#[test]
fn parse_five_fields() {
    let f = Fragment::new_from_string("chr1\t100\t200\tAACATCGATGGATG-1\t10").unwrap();
    assert_eq!(f.chrom, b("chr1"));
    assert_eq!(f.start, 100);
    assert_eq!(f.end, 200);
    assert_eq!(f.barcode, b("AACATCGATGGATG-1"));
    assert_eq!(f.score, Some(10));
}

#[test]
fn parse_two_fields_fails() {
    // a truncated line must fail, never yield a partial record
    assert_eq!(parse_line(b"chr1\t100"), Err(ParseError::WrongFieldCount));
}

#[test]
fn parse_six_fields_fails() {
    assert_eq!(
        parse_line(b"chr1\t100\t200\tbc1\t5\textra"),
        Err(ParseError::WrongFieldCount)
    );
}

#[test]
fn parse_empty_line_fails() {
    assert_eq!(parse_line(b""), Err(ParseError::WrongFieldCount));
}

#[test]
fn parse_bad_coordinate_fails() {
    assert_eq!(parse_line(b"chr1\t10a\t200\tbc1"), Err(ParseError::BadNumber));
    assert_eq!(parse_line(b"chr1\t\t200\tbc1"), Err(ParseError::BadNumber));
    assert_eq!(parse_line(b"chr1\t100\t200\tbc1\t-1"), Err(ParseError::BadNumber));
}

#[test]
fn parse_overflowing_number_fails() {
    // one more than usize::MAX on a 64-bit machine
    assert_eq!(
        parse_line(b"chr1\t18446744073709551616\t2\tbc1"),
        Err(ParseError::BadNumber)
    );
    assert_eq!(parse_usize(b"18446744073709551616"), None);
    assert_eq!(parse_usize(b"18446744073709551615"), Some(usize::MAX));
}

#[test]
fn render_number() {
    assert_eq!(render_usize(0), b("0"));
    assert_eq!(render_usize(907), b("907"));
}

#[test]
fn render_with_and_without_score() {
    let f = frag("chr1", 100, 200, "bc1", None);
    assert_eq!(render(&f), b("chr1\t100\t200\tbc1"));
    let g = frag("chr1", 100, 200, "bc1", Some(7));
    assert_eq!(render(&g), b("chr1\t100\t200\tbc1\t7"));
}

#[test]
fn round_trip_render_parse() {
    // render(parse(render(record))) == render(record)
    for f in [
        frag("chr1", 0, 1, "bc-1", None),
        frag("chrX", 12345, 99999, "AACG", Some(42)),
        frag("1", usize::MAX, usize::MAX, "b", Some(usize::MAX)),
    ] {
        let text = render(&f);
        let reparsed = parse_line(&text).unwrap();
        assert_eq!(render(&reparsed), text);
        assert_eq!(reparsed.chrom, f.chrom);
        assert_eq!(reparsed.start, f.start);
        assert_eq!(reparsed.end, f.end);
        assert_eq!(reparsed.barcode, f.barcode);
        assert_eq!(reparsed.score, f.score);
    }
}

#[test]
fn byte_order_is_lexicographic() {
    assert_eq!(bytes_compare(&b("chr1"), &b("chr2")), Rel::Less);
    assert_eq!(bytes_compare(&b("chr10"), &b("chr2")), Rel::Less);
    assert_eq!(bytes_compare(&b("chr2"), &b("chr2")), Rel::Equal);
    assert_eq!(bytes_compare(&b("chr2"), &b("chr10")), Rel::Greater);
    assert_eq!(bytes_compare(&b("a"), &b("ab")), Rel::Less);
}

#[test]
fn key_order_ignores_score() {
    let a = frag("chr1", 100, 200, "bc1", Some(1));
    let c = frag("chr1", 100, 200, "bc1", Some(9));
    assert_eq!(key_compare(&a, &c), Rel::Equal);
    let d = frag("chr1", 100, 201, "bc1", None);
    assert_eq!(key_compare(&a, &d), Rel::Less);
    let e = frag("chr1", 100, 200, "bc2", None);
    assert_eq!(key_compare(&a, &e), Rel::Less);
}

#[test]
fn merge_queue_pops_in_merge_order() {
    let mut q = MergeQueue::new(3);
    q.insert(2, frag("chr1", 100, 200, "bc", Some(2)));
    q.insert(0, frag("chr1", 100, 200, "bc", Some(0)));
    q.insert(1, frag("chr1", 50, 60, "bc", Some(1)));
    // least key first
    let e = q.pop_min().unwrap();
    assert_eq!(e.src, 1);
    assert_eq!(e.frag.start, 50);
    // equal keys: least source index first
    let e = q.pop_min().unwrap();
    assert_eq!(e.src, 0);
    let e = q.pop_min().unwrap();
    assert_eq!(e.src, 2);
    assert!(q.pop_min().is_none());
}

#[test]
fn tag_order_breaks_ties_by_source() {
    let a = frag("chr1", 1, 2, "bc", None);
    let c = frag("chr1", 1, 2, "bc", None);
    assert!(tag_before(&a, 0, &c, 1));
    assert!(!tag_before(&a, 1, &c, 0));
    assert!(!tag_before(&a, 0, &c, 0));
}

#[test]
fn merge_example_two_inputs() {
    // merging A and B keeps every record and sorts them
    let a = vec![frag("chr1", 100, 200, "bc1", None), frag("chr1", 300, 400, "bc2", None)];
    let bb = vec![frag("chr1", 150, 250, "bc1", None)];
    let merged = merge_core(&vec![a, bb]);
    let got: Vec<(usize, usize, usize)> =
        merged.iter().map(|e: &Entry| (e.frag.start, e.frag.end, e.src)).collect();
    assert_eq!(got, vec![(100, 200, 0), (150, 250, 1), (300, 400, 0)]);
}

#[test]
fn merge_is_stable_for_equal_keys() {
    // identical ordering keys from different inputs keep source order
    let a = vec![frag("chr1", 100, 200, "bc", Some(1))];
    let bb = vec![frag("chr1", 100, 200, "bc", Some(2))];
    let merged = merge_core(&vec![a, bb]);
    assert_eq!(merged.len(), 2);
    assert_eq!(merged[0].src, 0);
    assert_eq!(merged[0].frag.score, Some(1));
    assert_eq!(merged[1].src, 1);
    assert_eq!(merged[1].frag.score, Some(2));
}

#[test]
fn merge_keeps_coordinate_order_without_barcode_order() {
    // one stream, sorted by coordinates but not by barcode at equal
    // coordinates: the merge keeps it intact, coordinate order included
    let a = vec![frag("chr1", 100, 200, "zz", None), frag("chr1", 100, 200, "aa", None)];
    let merged = merge_core(&vec![a]);
    assert_eq!(merged.len(), 2);
    assert_eq!(merged[0].frag.barcode, b("zz"));
    assert_eq!(merged[1].frag.barcode, b("aa"));
}

#[test]
fn merge_across_chromosomes() {
    let a = vec![frag("chr2", 10, 20, "bc1", None)];
    let bb = vec![frag("chr1", 500, 600, "bc2", None)];
    let merged = merge_core(&vec![a, bb]);
    assert_eq!(merged[0].frag.chrom, b("chr1"));
    assert_eq!(merged[1].frag.chrom, b("chr2"));
}

#[test]
fn parse_stream_skips_headers_and_reports_bad_line() {
    let good = lines(&["# comment", "chr1\t1\t2\tbc1", "chr1\t3\t4\tbc2"]);
    let v = parse_stream(&good).unwrap();
    assert_eq!(v.len(), 2);
    assert_eq!(v[0].start, 1);
    let bad = lines(&["chr1\t1\t2\tbc1", "chr1\t100"]);
    assert_eq!(parse_stream(&bad), Err(1));
}

#[test]
fn parse_files_names_first_bad_file_and_line() {
    let f0 = lines(&["chr1\t1\t2\tbc1"]);
    let f1 = lines(&["# ok", "oops"]);
    let r = parse_files(&vec![f0, f1]);
    assert_eq!(r.unwrap_err(), MergeError { file: 1, line: 1 });
}

#[test]
fn merge_fragment_lines_example() {
    let a = lines(&["chr1\t100\t200\tbc1", "chr1\t300\t400\tbc2"]);
    let bb = lines(&["chr1\t150\t250\tbc1"]);
    let out = merge_fragment_lines(&vec![a, bb]).unwrap();
    assert_eq!(
        out,
        b("chr1\t100\t200\tbc1\nchr1\t150\t250\tbc1\nchr1\t300\t400\tbc2\n")
    );
}

#[test]
fn empty_input_is_an_exhausted_stream_not_an_error() {
    // a stream with no records merges cleanly alongside full ones
    let a: Vec<Fragment> = vec![];
    let bb = vec![frag("chr1", 1, 2, "bc1", None)];
    let merged = merge_core(&vec![a, bb]);
    assert_eq!(merged.len(), 1);
    assert_eq!(merged[0].src, 1);
    let out = merge_fragment_lines(&vec![lines(&[]), lines(&["chr1\t1\t2\tbc1"])]).unwrap();
    assert_eq!(out, b("chr1\t1\t2\tbc1\n"));
}

#[test]
fn merge_of_no_inputs_is_empty() {
    let merged = merge_core(&Vec::new());
    assert!(merged.is_empty());
    assert_eq!(merge_fragment_lines(&Vec::new()).unwrap(), Vec::<u8>::new());
}

#[test]
fn render_entries_appends_newlines() {
    let entries = vec![
        Entry { frag: frag("chr1", 1, 2, "bc1", None), src: 0 },
        Entry { frag: frag("chr1", 3, 4, "bc2", Some(5)), src: 1 },
    ];
    assert_eq!(render_entries(&entries), b("chr1\t1\t2\tbc1\nchr1\t3\t4\tbc2\t5\n"));
}
