use scatac_fragment_tools::errors::{InvalidFragmentFileError, ValueError};
use scatac_fragment_tools::partition::{partition_chromosome, partition_label, PartitionError};
use scatac_fragment_tools::scan::{
    collect_filtered, contains_bytes, next_valid_fragment, skip_to_chromosome, ChromIndex,
};
use scatac_fragment_tools::split::{
    find_malformed, nonempty_labels, plan_contigs, routed_lines, sanitize_string_for_filename,
    split_records_by_barcode, SplitPlan,
};

fn b(s: &str) -> Vec<u8> {
    s.as_bytes().to_vec()
}

fn lines(ss: &[&str]) -> Vec<Vec<u8>> {
    ss.iter().map(|s| b(s)).collect()
}

#[test]
fn scan_skips_headers_and_other_chromosomes() {
    let f = lines(&["# header", "chr1\t1\t2\tbc1", "chr2\t5\t6\tbc1", "chr2\t7\t8\tbc2"]);
    assert_eq!(skip_to_chromosome(&f, 0, &b("chr1")), Ok(1));
    assert_eq!(skip_to_chromosome(&f, 0, &b("chr2")), Ok(2));
    // a chromosome that does not occur leaves the cursor exhausted
    assert_eq!(skip_to_chromosome(&f, 0, &b("chr3")), Ok(4));
    // scanning from a later position finds the later block
    assert_eq!(skip_to_chromosome(&f, 2, &b("chr2")), Ok(2));
}

#[test]
fn scan_reports_malformed_line() {
    let f = lines(&["# header", "chr1\t100"]);
    assert_eq!(skip_to_chromosome(&f, 0, &b("chr9")), Err(1));
}

#[test]
fn index_lookup_finds_named_chromosome() {
    let idx = ChromIndex { names: vec![b("chr1"), b("chr2")], offsets: vec![10, 20] };
    assert_eq!(idx.lookup(&b("chr2")), Some(20));
    assert_eq!(idx.lookup(&b("chr1")), Some(10));
    assert_eq!(idx.lookup(&b("chr3")), None);
}

#[test]
fn filter_pulls_one_record_per_call() {
    let f = lines(&["chr1\t1\t2\tbc1", "chr1\t3\t4\tbc2", "chr1\t5\t6\tbc1", "chr2\t7\t8\tbc1"]);
    let allow = vec![b("bc1")];
    let (r, pos) = next_valid_fragment(&f, 0, &b("chr1"), &allow).unwrap();
    assert_eq!(r.unwrap().start, 1);
    assert_eq!(pos, 1);
    // the disallowed record in between is passed over
    let (r, pos) = next_valid_fragment(&f, pos, &b("chr1"), &allow).unwrap();
    assert_eq!(r.unwrap().start, 5);
    assert_eq!(pos, 3);
    // the chromosome change stops the pull without consuming
    let (r, pos) = next_valid_fragment(&f, pos, &b("chr1"), &allow).unwrap();
    assert!(r.is_none());
    assert_eq!(pos, 3);
}

#[test]
fn collect_filtered_takes_whole_block() {
    let f = lines(&["chr1\t1\t2\tbc1", "chr1\t3\t4\tbc2", "chr2\t5\t6\tbc1"]);
    let got = collect_filtered(&f, 0, &b("chr1"), &vec![b("bc1"), b("bc2")]).unwrap();
    assert_eq!(got.len(), 2);
    assert_eq!(got[0].barcode, b("bc1"));
    assert_eq!(got[1].barcode, b("bc2"));
}

#[test]
fn contains_bytes_matches_exactly() {
    let list = vec![b("bc1"), b("bc22")];
    assert!(contains_bytes(&list, &b("bc1")));
    assert!(!contains_bytes(&list, &b("bc2")));
}

#[test]
fn partition_example_by_label() {
    // labels {"T": {"bc1"}, "B": {"bc2"}} over one input
    let a = lines(&["chr1\t100\t200\tbc1", "chr1\t300\t400\tbc2"]);
    let t = partition_chromosome(&vec![a.clone()], &vec![vec![b("bc1")]], &b("chr1")).unwrap();
    assert_eq!(t.len(), 1);
    assert_eq!(t[0].frag.start, 100);
    assert_eq!(t[0].frag.barcode, b("bc1"));
    let bt = partition_chromosome(&vec![a], &vec![vec![b("bc2")]], &b("chr1")).unwrap();
    assert_eq!(bt.len(), 1);
    assert_eq!(bt[0].frag.start, 300);
    assert_eq!(bt[0].frag.barcode, b("bc2"));
}

#[test]
fn partition_merges_two_inputs_in_order() {
    let f0 = lines(&["chr1\t100\t200\tbc1", "chr1\t300\t400\tbc1"]);
    let f1 = lines(&["chr1\t150\t250\tbc2"]);
    let allows = vec![vec![b("bc1")], vec![b("bc2")]];
    let out = partition_chromosome(&vec![f0, f1], &allows, &b("chr1")).unwrap();
    let got: Vec<(usize, usize)> = out.iter().map(|e| (e.frag.start, e.src)).collect();
    assert_eq!(got, vec![(100, 0), (150, 1), (300, 0)]);
}

#[test]
fn partition_keeps_coordinate_order_for_coordinate_sorted_inputs() {
    // inputs sorted by (chromosome, start, end) only; ends stay in order
    let f0 = lines(&["chr1\t100\t150\tzz", "chr1\t100\t200\taa"]);
    let out = partition_chromosome(&vec![f0], &vec![vec![b("zz"), b("aa")]], &b("chr1")).unwrap();
    let got: Vec<(usize, usize)> = out.iter().map(|e| (e.frag.start, e.frag.end)).collect();
    assert_eq!(got, vec![(100, 150), (100, 200)]);
}

#[test]
fn partition_reports_malformed_input() {
    let f0 = lines(&["chr1\t1\t2\tbc1"]);
    let f1 = lines(&["chr1\tnot-a-number\t2\tbc1"]);
    let r = partition_chromosome(&vec![f0, f1], &vec![vec![b("bc1")], vec![b("bc1")]], &b("chr1"));
    assert_eq!(r.unwrap_err(), PartitionError::Malformed { file: 1, line: 0 });
}

#[test]
fn partition_reports_unsorted_input() {
    // starts go backwards inside one chromosome: fatal, names the input
    let f0 = lines(&["chr1\t300\t400\tbc1", "chr1\t100\t200\tbc1"]);
    let r = partition_chromosome(&vec![f0], &vec![vec![b("bc1")]], &b("chr1"));
    assert_eq!(r.unwrap_err(), PartitionError::Unsorted { file: 0, start: 100 });
}

#[test]
fn partition_label_concatenates_in_chromosome_order() {
    let f = lines(&["chr1\t100\t200\tbc1", "chr2\t10\t20\tbc1"]);
    let out = partition_label(
        &vec![f],
        &vec![vec![b("bc1")]],
        &vec![b("chr2"), b("chr1")],
    )
    .unwrap();
    // caller's chromosome order, not coordinate order
    assert_eq!(out.unwrap(), b("chr2\t10\t20\tbc1\nchr1\t100\t200\tbc1\n"));
}

#[test]
fn label_with_no_records_yields_no_output() {
    // no matching barcode on any chromosome: nothing to write at all
    let f = lines(&["chr1\t100\t200\tbc1"]);
    let out = partition_label(
        &vec![f],
        &vec![vec![b("absent")]],
        &vec![b("chr1"), b("chr2")],
    )
    .unwrap();
    assert!(out.is_none());
}

#[test]
fn chromosomes_without_records_are_skipped_without_error() {
    let f = lines(&["chr1\t100\t200\tbc1"]);
    let out = partition_label(
        &vec![f],
        &vec![vec![b("bc1")]],
        &vec![b("chrM"), b("chr1"), b("chr2")],
    )
    .unwrap();
    // only the chromosome with records contributes to the label's file
    assert_eq!(out.unwrap(), b("chr1\t100\t200\tbc1\n"));
}

#[test]
fn split_example_by_barcode() {
    // labels {"T": {"bc1"}, "B": {"bc2"}} over input A
    let f = lines(&["chr1\t100\t200\tbc1", "chr1\t300\t400\tbc2"]);
    let barcodes = vec![b("bc1"), b("bc2")];
    let labelsets = vec![vec![b("T")], vec![b("B")]];
    let plan = split_records_by_barcode(&f, &vec![b("chr1")], &barcodes, &labelsets).unwrap();
    assert_eq!(plan.contigs, vec![b("chr1")]);
    assert_eq!(plan.labels, vec![b("T"), b("B")]);
    assert_eq!(plan.outputs[0], lines(&["chr1\t100\t200\tbc1"]));
    assert_eq!(plan.outputs[1], lines(&["chr1\t300\t400\tbc2"]));
}

#[test]
fn split_processes_contigs_in_sorted_order() {
    // the file is in karyotype order; output groups by contig in ascending
    // byte order, chr10 before chr2
    let f = lines(&["chr2\t5\t6\tbc1", "chr10\t1\t2\tbc1"]);
    let requested = vec![b("chr2"), b("chr10"), b("chr7")];
    let plan =
        split_records_by_barcode(&f, &requested, &vec![b("bc1")], &vec![vec![b("T")]]).unwrap();
    assert_eq!(plan.contigs, vec![b("chr10"), b("chr2")]);
    assert_eq!(plan.outputs[0], lines(&["chr10\t1\t2\tbc1", "chr2\t5\t6\tbc1"]));
}

#[test]
fn split_drops_unrequested_contigs() {
    // a record of a contig outside the requested list is carried nowhere
    let f = lines(&["chr1\t1\t2\tbc1", "chr9\t5\t6\tbc1"]);
    let plan =
        split_records_by_barcode(&f, &vec![b("chr1")], &vec![b("bc1")], &vec![vec![b("T")]])
            .unwrap();
    assert_eq!(plan.contigs, vec![b("chr1")]);
    assert_eq!(plan.outputs[0], lines(&["chr1\t1\t2\tbc1"]));
}

#[test]
fn split_deduplicates_labels_keeping_first_occurrence() {
    let f = lines(&["chr1\t1\t2\tbc1"]);
    let barcodes = vec![b("bc1"), b("bc2")];
    // "T" occurs twice across the mapping; it must appear once
    let labelsets = vec![vec![b("T"), b("B")], vec![b("T")]];
    let plan = split_records_by_barcode(&f, &vec![b("chr1")], &barcodes, &labelsets).unwrap();
    assert_eq!(plan.labels, vec![b("T"), b("B")]);
}

#[test]
fn split_sends_multi_label_barcode_to_every_label() {
    let f = lines(&["chr1\t1\t2\tbc1", "chr1\t3\t4\tbc2"]);
    let barcodes = vec![b("bc1"), b("bc2")];
    let labelsets = vec![vec![b("T"), b("B")], vec![b("B")]];
    let plan = split_records_by_barcode(&f, &vec![b("chr1")], &barcodes, &labelsets).unwrap();
    assert_eq!(plan.labels, vec![b("T"), b("B")]);
    assert_eq!(plan.outputs[0], lines(&["chr1\t1\t2\tbc1"]));
    assert_eq!(plan.outputs[1], lines(&["chr1\t1\t2\tbc1", "chr1\t3\t4\tbc2"]));
}

#[test]
fn split_drops_unmapped_barcodes() {
    let f = lines(&["chr1\t1\t2\tunknown", "chr1\t3\t4\tbc1"]);
    let plan = split_records_by_barcode(&f, &vec![b("chr1")], &vec![b("bc1")], &vec![vec![b("T")]])
        .unwrap();
    assert_eq!(plan.outputs[0], lines(&["chr1\t3\t4\tbc1"]));
}

#[test]
fn split_fails_on_malformed_line() {
    let f = lines(&["chr1\t1\t2\tbc1", "# late header", "chr1\t100"]);
    let r = split_records_by_barcode(&f, &vec![b("chr1")], &vec![b("bc1")], &vec![vec![b("T")]]);
    assert_eq!(r, Err(2));
    assert_eq!(find_malformed(&f), Some(2));
}

#[test]
fn routed_lines_keeps_stream_order_within_a_contig() {
    let f = lines(&["chr1\t3\t4\tbc1", "chr2\t9\t10\tbc1", "chr1\t1\t2\tbc1"]);
    let got = routed_lines(&f, &vec![b("bc1")], &vec![vec![b("T")]], &b("T"), &b("chr1"));
    assert_eq!(got, lines(&["chr1\t3\t4\tbc1", "chr1\t1\t2\tbc1"]));
}

#[test]
fn empty_outputs_earn_no_artifact() {
    let plan = SplitPlan {
        contigs: vec![b("chr1")],
        labels: vec![b("T"), b("B"), b("C")],
        outputs: vec![lines(&["chr1\t1\t2\tbc1"]), lines(&[]), lines(&["chr1\t5\t6\tbc2"])],
    };
    assert_eq!(nonempty_labels(&plan), vec![b("T"), b("C")]);
}

#[test]
fn contigs_are_processed_in_sorted_order() {
    let requested = vec![b("chr9"), b("chr10"), b("chr2"), b("chrM")];
    let present = vec![b("chr2"), b("chr9"), b("chr10")];
    // absent contigs are skipped; byte-wise sorted order, so chr10 < chr2
    assert_eq!(plan_contigs(&requested, &present), vec![b("chr10"), b("chr2"), b("chr9")]);
}

#[test]
fn sanitize_replaces_unsafe_characters() {
    assert_eq!(sanitize_string_for_filename(b("B cell/CD4")), b("B_cell_CD4"));
    assert_eq!(sanitize_string_for_filename(b("plain")), b("plain"));
}

#[test]
fn error_values_carry_their_context() {
    let e = InvalidFragmentFileError::new("sample.fragments.tsv.gz");
    assert_eq!(e.filename, "sample.fragments.tsv.gz");
    let v = ValueError::new(String::from("Fragment file: x.tsv.gz is not sorted!"));
    assert_eq!(v.message, "Fragment file: x.tsv.gz is not sorted!");
}
