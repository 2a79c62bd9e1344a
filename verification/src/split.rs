//! Splitting one fragment stream into per-label outputs by cell barcode.
//!
//! A caller-provided mapping takes each barcode to the labels it belongs
//! to, and a caller-provided contig list bounds the work: the requested
//! contigs that occur in the stream are processed in ascending name order,
//! and each of their record lines is carried into the output of every label
//! its barcode maps to, grouped by contig in that order.  Records of
//! unrequested contigs are carried nowhere, and labels that match no line
//! get no output artifact.

use vstd::prelude::*;

use itertools::Itertools;

use crate::order::{bytes_le, bytes_compare, Rel};
use crate::record::{
    bytes_views, copy_bytes, is_header, parse_line, spec_parse_line, stream_views,
};
use crate::scan::contains_bytes;

verus! {

/// First-occurrence de-duplication: each distinct element once, in the
/// order it first appears.
pub open spec fn dedup_first(s: Seq<Seq<u8>>) -> Seq<Seq<u8>>
    decreases s.len(),
{
    if s.len() == 0 {
        Seq::empty()
    } else {
        let d = dedup_first(s.drop_last());
        if d.contains(s.last()) {
            d
        } else {
            d.push(s.last())
        }
    }
}

/// Relies on itertools' `unique` (over hash and equality of `Vec<u8>`): it
/// yields the distinct elements in first-occurrence order.
#[verifier::external_body]
fn unique_bytes(v: &Vec<Vec<u8>>) -> (r: Vec<Vec<u8>>)
    ensures
        bytes_views(r@) == dedup_first(bytes_views(v@)),
{
    v.iter().cloned().unique().collect()
}

/// A sequence of byte strings in ascending byte-wise lexicographic order.
pub open spec fn sorted_bytes(s: Seq<Seq<u8>>) -> bool {
    forall|i: int, j: int| #![trigger s[i], s[j]] 0 <= i < j < s.len() ==> bytes_le(s[i], s[j])
}

/// Relies on itertools' `sorted`, which sorts a `Vec` by `Ord`; `Ord` on
/// `Vec<u8>` is byte-wise lexicographic order.  The result is a sorted
/// permutation of the input.
#[verifier::external_body]
fn sorted_byte_strings(v: &Vec<Vec<u8>>) -> (r: Vec<Vec<u8>>)
    ensures
        sorted_bytes(bytes_views(r@)),
        bytes_views(r@).to_multiset() == bytes_views(v@).to_multiset(),
{
    v.iter().cloned().sorted().collect()
}

/// The elements of `s` that occur in `keep`, in order.
pub open spec fn seq_keep(s: Seq<Seq<u8>>, keep: Seq<Seq<u8>>) -> Seq<Seq<u8>>
    decreases s.len(),
{
    if s.len() == 0 {
        Seq::empty()
    } else {
        let d = seq_keep(s.drop_last(), keep);
        if keep.contains(s.last()) {
            d.push(s.last())
        } else {
            d
        }
    }
}

/// Orders the requested contigs for processing: those present in the
/// fragment stream, in ascending name order.  Sortedness and the multiset
/// of kept names pin the result exactly.
pub fn plan_contigs(requested: &Vec<Vec<u8>>, present: &Vec<Vec<u8>>) -> (r: Vec<Vec<u8>>)
    ensures
        sorted_bytes(bytes_views(r@)),
        bytes_views(r@).to_multiset() == seq_keep(
            bytes_views(requested@),
            bytes_views(present@),
        ).to_multiset(),
{
    let ghost rv = bytes_views(requested@);
    let ghost pv = bytes_views(present@);
    let mut kept: Vec<Vec<u8>> = Vec::new();
    let mut i: usize = 0;
    while i < requested.len()
        invariant
            0 <= i <= requested@.len(),
            rv == bytes_views(requested@),
            pv == bytes_views(present@),
            bytes_views(kept@) == seq_keep(rv.take(i as int), pv),
        decreases requested@.len() - i,
    {
        proof {
            assert(rv.take(i as int + 1).drop_last() =~= rv.take(i as int));
            assert(rv.take(i as int + 1).last() == rv[i as int]);
        }
        if contains_bytes(present, &requested[i]) {
            let c = copy_bytes(&requested[i]);
            kept.push(c);
            proof {
                assert(bytes_views(kept@) =~= seq_keep(rv.take(i as int), pv).push(rv[i as int]));
            }
        }
        i += 1;
    }
    proof {
        assert(rv.take(rv.len() as int) =~= rv);
    }
    sorted_byte_strings(&kept)
}

/// The labels a barcode maps to, by first match in the mapping.
pub open spec fn spec_labels_of(
    barcodes: Seq<Seq<u8>>,
    labelsets: Seq<Seq<Seq<u8>>>,
    b: Seq<u8>,
    i: int,
) -> Option<Seq<Seq<u8>>>
    decreases barcodes.len() - i,
{
    if i < 0 || i >= barcodes.len() {
        None
    } else if barcodes[i] == b {
        Some(labelsets[i])
    } else {
        spec_labels_of(barcodes, labelsets, b, i + 1)
    }
}

/// Whether a line is carried into `label`'s output for `contig`: it is a
/// record line of that contig, its barcode maps to some labels, and
/// `label` is one of them.
pub open spec fn routes_to(
    l: Seq<u8>,
    barcodes: Seq<Seq<u8>>,
    labelsets: Seq<Seq<Seq<u8>>>,
    label: Seq<u8>,
    contig: Seq<u8>,
) -> bool {
    &&& !is_header(l)
    &&& match spec_parse_line(l) {
        Ok(f) => f.chrom == contig && match spec_labels_of(barcodes, labelsets, f.barcode, 0) {
            Some(ls) => ls.contains(label),
            None => false,
        },
        Err(_) => false,
    }
}

/// The lines of one contig carried into `label`'s output, in stream order.
pub open spec fn spec_routed(
    lines: Seq<Seq<u8>>,
    barcodes: Seq<Seq<u8>>,
    labelsets: Seq<Seq<Seq<u8>>>,
    label: Seq<u8>,
    contig: Seq<u8>,
) -> Seq<Seq<u8>>
    decreases lines.len(),
{
    if lines.len() == 0 {
        Seq::empty()
    } else {
        let d = spec_routed(lines.drop_last(), barcodes, labelsets, label, contig);
        if routes_to(lines.last(), barcodes, labelsets, label, contig) {
            d.push(lines.last())
        } else {
            d
        }
    }
}

/// `label`'s whole output: its lines for each contig of `order`, contig by
/// contig in that order, each contig's lines in stream order.
pub open spec fn spec_routed_contigs(
    lines: Seq<Seq<u8>>,
    barcodes: Seq<Seq<u8>>,
    labelsets: Seq<Seq<Seq<u8>>>,
    label: Seq<u8>,
    order: Seq<Seq<u8>>,
) -> Seq<Seq<u8>>
    decreases order.len(),
{
    if order.len() == 0 {
        Seq::empty()
    } else {
        spec_routed_contigs(lines, barcodes, labelsets, label, order.drop_last()) + spec_routed(
            lines,
            barcodes,
            labelsets,
            label,
            order.last(),
        )
    }
}

/// The chromosome name of each record line, in stream order; header lines
/// and lines that do not parse contribute nothing.
pub open spec fn spec_chroms(lines: Seq<Seq<u8>>) -> Seq<Seq<u8>>
    decreases lines.len(),
{
    if lines.len() == 0 {
        Seq::empty()
    } else {
        let d = spec_chroms(lines.drop_last());
        if !is_header(lines.last()) && spec_parse_line(lines.last()) is Ok {
            d.push(spec_parse_line(lines.last()) ->Ok_0.chrom)
        } else {
            d
        }
    }
}

/// The first malformed record line, headers skipped; `None` when every
/// record line parses.
pub open spec fn spec_split_err(lines: Seq<Seq<u8>>, i: int) -> Option<int>
    decreases lines.len() - i,
{
    if i < 0 || i >= lines.len() {
        None
    } else if is_header(lines[i]) {
        spec_split_err(lines, i + 1)
    } else if spec_parse_line(lines[i]) is Err {
        Some(i)
    } else {
        spec_split_err(lines, i + 1)
    }
}

/// Finds the first malformed record line, headers skipped.
pub fn find_malformed(lines: &Vec<Vec<u8>>) -> (r: Option<usize>)
    ensures
        match r {
            Some(i) => spec_split_err(bytes_views(lines@), 0) == Some(i as int) && i
                < lines@.len(),
            None => spec_split_err(bytes_views(lines@), 0) is None,
        },
{
    let ghost lv = bytes_views(lines@);
    let mut i: usize = 0;
    while i < lines.len()
        invariant
            0 <= i <= lines@.len(),
            lv == bytes_views(lines@),
            spec_split_err(lv, 0) == spec_split_err(lv, i as int),
        decreases lines@.len() - i,
    {
        let l = &lines[i];
        proof {
            assert(lv[i as int] == l@);
        }
        if !(l.len() > 0 && l[0] == 35) {
            match parse_line(l.as_slice()) {
                Err(_) => {
                    return Some(i);
                },
                Ok(_) => {},
            }
        }
        i += 1;
    }
    None
}

/// The index in the mapping of the entry for barcode `b`, if any.
fn lookup_labels(barcodes: &Vec<Vec<u8>>, b: &Vec<u8>) -> (r: Option<usize>)
    ensures
        match r {
            Some(ix) => ix < barcodes@.len() && bytes_views(barcodes@)[ix as int] == b@ && forall|
                j: int,
            | 0 <= j < ix ==> bytes_views(barcodes@)[j] != b@,
            None => forall|j: int| 0 <= j < barcodes@.len() ==> bytes_views(barcodes@)[j] != b@,
        },
{
    let ghost bv = bytes_views(barcodes@);
    let mut i: usize = 0;
    while i < barcodes.len()
        invariant
            0 <= i <= barcodes@.len(),
            bv == bytes_views(barcodes@),
            forall|j: int| 0 <= j < i ==> bv[j] != b@,
        decreases barcodes@.len() - i,
    {
        if bytes_compare(&barcodes[i], b) == Rel::Equal {
            proof {
                assert(bv[i as int] == b@);
            }
            return Some(i);
        }
        i += 1;
    }
    None
}

/// First-match lookup agrees with the first matching index.
proof fn lemma_labels_of_at(
    barcodes: Seq<Seq<u8>>,
    labelsets: Seq<Seq<Seq<u8>>>,
    b: Seq<u8>,
    ix: int,
)
    requires
        0 <= ix < barcodes.len(),
        barcodes[ix] == b,
        forall|j: int| 0 <= j < ix ==> barcodes[j] != b,
    ensures
        spec_labels_of(barcodes, labelsets, b, 0) == Some(labelsets[ix]),
{
    lemma_labels_of_from(barcodes, labelsets, b, 0, ix);
}

proof fn lemma_labels_of_from(
    barcodes: Seq<Seq<u8>>,
    labelsets: Seq<Seq<Seq<u8>>>,
    b: Seq<u8>,
    i: int,
    ix: int,
)
    requires
        0 <= i <= ix < barcodes.len(),
        barcodes[ix] == b,
        forall|j: int| i <= j < ix ==> barcodes[j] != b,
    ensures
        spec_labels_of(barcodes, labelsets, b, i) == Some(labelsets[ix]),
    decreases ix - i,
{
    if i < ix {
        lemma_labels_of_from(barcodes, labelsets, b, i + 1, ix);
    }
}

proof fn lemma_labels_of_none(barcodes: Seq<Seq<u8>>, labelsets: Seq<Seq<Seq<u8>>>, b: Seq<u8>, i: int)
    requires
        0 <= i,
        forall|j: int| i <= j < barcodes.len() ==> barcodes[j] != b,
    ensures
        spec_labels_of(barcodes, labelsets, b, i) is None,
    decreases barcodes.len() - i,
{
    if i < barcodes.len() {
        lemma_labels_of_none(barcodes, labelsets, b, i + 1);
    }
}

/// The lines of `label`'s output for one contig: every record line of that
/// contig whose barcode maps to `label`, in stream order.  Header lines and
/// lines that do not parse route nowhere.
pub fn routed_lines(
    lines: &Vec<Vec<u8>>,
    barcodes: &Vec<Vec<u8>>,
    labelsets: &Vec<Vec<Vec<u8>>>,
    label: &Vec<u8>,
    contig: &Vec<u8>,
) -> (out: Vec<Vec<u8>>)
    requires
        barcodes@.len() == labelsets@.len(),
    ensures
        bytes_views(out@) == spec_routed(
            bytes_views(lines@),
            bytes_views(barcodes@),
            stream_views(labelsets@),
            label@,
            contig@,
        ),
{
    let ghost lv = bytes_views(lines@);
    let ghost bv = bytes_views(barcodes@);
    let ghost sv = stream_views(labelsets@);
    let mut out: Vec<Vec<u8>> = Vec::new();
    let mut i: usize = 0;
    while i < lines.len()
        invariant
            0 <= i <= lines@.len(),
            lv == bytes_views(lines@),
            bv == bytes_views(barcodes@),
            sv == stream_views(labelsets@),
            barcodes@.len() == labelsets@.len(),
            bytes_views(out@) == spec_routed(lv.take(i as int), bv, sv, label@, contig@),
        decreases lines@.len() - i,
    {
        let l = &lines[i];
        proof {
            assert(lv[i as int] == l@);
            assert(lv.take(i as int + 1).drop_last() =~= lv.take(i as int));
            assert(lv.take(i as int + 1).last() == lv[i as int]);
        }
        let mut keep = false;
        if !(l.len() > 0 && l[0] == 35) {
            match parse_line(l.as_slice()) {
                Err(_) => {},
                Ok(f) => {
                    if bytes_compare(&f.chrom, contig) == Rel::Equal {
                        match lookup_labels(barcodes, &f.barcode) {
                            Some(ix) => {
                                proof {
                                    lemma_labels_of_at(bv, sv, f@.barcode, ix as int);
                                    assert(sv[ix as int] == bytes_views(labelsets@[ix as int]@));
                                }
                                keep = contains_bytes(&labelsets[ix], label);
                            },
                            None => {
                                proof {
                                    lemma_labels_of_none(bv, sv, f@.barcode, 0);
                                }
                            },
                        }
                    }
                },
            }
        }
        if keep {
            let c = copy_bytes(l);
            out.push(c);
            proof {
                assert(bytes_views(out@) =~= spec_routed(
                    lv.take(i as int),
                    bv,
                    sv,
                    label@,
                    contig@,
                ).push(lv[i as int]));
            }
        }
        i += 1;
    }
    proof {
        assert(lv.take(lv.len() as int) =~= lv);
    }
    out
}

/// The chromosome name of each record line, in stream order.
fn chroms_of(lines: &Vec<Vec<u8>>) -> (r: Vec<Vec<u8>>)
    ensures
        bytes_views(r@) == spec_chroms(bytes_views(lines@)),
{
    let ghost lv = bytes_views(lines@);
    let mut r: Vec<Vec<u8>> = Vec::new();
    let mut i: usize = 0;
    while i < lines.len()
        invariant
            0 <= i <= lines@.len(),
            lv == bytes_views(lines@),
            bytes_views(r@) == spec_chroms(lv.take(i as int)),
        decreases lines@.len() - i,
    {
        let l = &lines[i];
        proof {
            assert(lv[i as int] == l@);
            assert(lv.take(i as int + 1).drop_last() =~= lv.take(i as int));
            assert(lv.take(i as int + 1).last() == lv[i as int]);
        }
        if !(l.len() > 0 && l[0] == 35) {
            match parse_line(l.as_slice()) {
                Ok(f) => {
                    let ghost prev = bytes_views(r@);
                    let chrom = f.chrom;
                    r.push(chrom);
                    proof {
                        assert(bytes_views(r@) =~= prev.push(spec_parse_line(lv[i as int]) ->Ok_0.chrom));
                    }
                },
                Err(_) => {},
            }
        }
        i += 1;
    }
    proof {
        assert(lv.take(lv.len() as int) =~= lv);
    }
    r
}

/// The flattening of all label sets of the mapping, in mapping order.
pub open spec fn flatten_labels(sv: Seq<Seq<Seq<u8>>>) -> Seq<Seq<u8>>
    decreases sv.len(),
{
    if sv.len() == 0 {
        Seq::empty()
    } else {
        flatten_labels(sv.drop_last()) + sv.last()
    }
}

/// A per-label partition of a fragment stream: the contigs to process, in
/// order; the labels of the mapping, each distinct label once in
/// first-occurrence order; and for each label the lines carried into it.
#[derive(Debug, PartialEq, Eq)]
pub struct SplitPlan {
    pub contigs: Vec<Vec<u8>>,
    pub labels: Vec<Vec<u8>>,
    pub outputs: Vec<Vec<Vec<u8>>>,
}

/// Splits a stream of record lines by cell barcode, restricted to the
/// requested contigs: the contigs of `contigs` that occur in the stream are
/// processed in ascending name order, and each record line of such a contig
/// goes to the output of every label its barcode maps to, grouped by contig
/// in that processing order.  A record of an unrequested contig is carried
/// into no output, and a label that matches no line ends with an empty
/// output, which the caller must not turn into a file.  Fails with the
/// index of the first malformed record line.
pub fn split_records_by_barcode(
    lines: &Vec<Vec<u8>>,
    contigs: &Vec<Vec<u8>>,
    barcodes: &Vec<Vec<u8>>,
    labelsets: &Vec<Vec<Vec<u8>>>,
) -> (r: Result<SplitPlan, usize>)
    requires
        barcodes@.len() == labelsets@.len(),
    ensures
        match r {
            Ok(plan) => {
                &&& spec_split_err(bytes_views(lines@), 0) is None
                &&& sorted_bytes(bytes_views(plan.contigs@))
                &&& bytes_views(plan.contigs@).to_multiset() == seq_keep(
                    bytes_views(contigs@),
                    spec_chroms(bytes_views(lines@)),
                ).to_multiset()
                &&& bytes_views(plan.labels@) == dedup_first(
                    flatten_labels(stream_views(labelsets@)),
                )
                &&& plan.outputs@.len() == plan.labels@.len()
                &&& forall|j: int|
                    0 <= j < plan.labels@.len() ==> bytes_views(#[trigger] plan.outputs@[j]@)
                        == spec_routed_contigs(
                        bytes_views(lines@),
                        bytes_views(barcodes@),
                        stream_views(labelsets@),
                        bytes_views(plan.labels@)[j],
                        bytes_views(plan.contigs@),
                    )
            },
            Err(i) => spec_split_err(bytes_views(lines@), 0) == Some(i as int),
        },
{
    let ghost lv = bytes_views(lines@);
    let ghost bv = bytes_views(barcodes@);
    let ghost sv = stream_views(labelsets@);
    match find_malformed(lines) {
        Some(i) => {
            return Err(i);
        },
        None => {},
    }
    let present = chroms_of(lines);
    let order = plan_contigs(contigs, &present);
    let ghost ordv = bytes_views(order@);
    let mut flat: Vec<Vec<u8>> = Vec::new();
    let mut k: usize = 0;
    while k < labelsets.len()
        invariant
            0 <= k <= labelsets@.len(),
            sv == stream_views(labelsets@),
            bytes_views(flat@) == flatten_labels(sv.take(k as int)),
        decreases labelsets@.len() - k,
    {
        proof {
            assert(sv.take(k as int + 1).drop_last() =~= sv.take(k as int));
            assert(sv.take(k as int + 1).last() == sv[k as int]);
            assert(sv[k as int] == bytes_views(labelsets@[k as int]@));
        }
        let set = &labelsets[k];
        let mut t: usize = 0;
        while t < set.len()
            invariant
                0 <= t <= set@.len(),
                sv == stream_views(labelsets@),
                k < labelsets@.len(),
                set@ == labelsets@[k as int]@,
                bytes_views(flat@) == flatten_labels(sv.take(k as int)) + bytes_views(
                    set@,
                ).take(t as int),
            decreases set@.len() - t,
        {
            let ghost flat0 = bytes_views(flat@);
            let c = copy_bytes(&set[t]);
            let ghost cv = c@;
            flat.push(c);
            proof {
                assert(cv == set@[t as int]@);
                assert(bytes_views(flat@) =~= flat0.push(cv));
                assert(bytes_views(set@).take(t as int + 1) =~= bytes_views(set@).take(
                    t as int,
                ).push(set@[t as int]@));
                assert(flat0.push(cv) =~= flatten_labels(sv.take(k as int)) + bytes_views(
                    set@,
                ).take(t as int + 1));
            }
            t += 1;
        }
        proof {
            assert(bytes_views(set@).take(set@.len() as int) =~= bytes_views(set@));
            assert(bytes_views(flat@) =~= flatten_labels(sv.take(k as int + 1)));
        }
        k += 1;
    }
    proof {
        assert(sv.take(sv.len() as int) =~= sv);
    }
    let labels = unique_bytes(&flat);
    let mut outputs: Vec<Vec<Vec<u8>>> = Vec::new();
    let mut j: usize = 0;
    while j < labels.len()
        invariant
            0 <= j <= labels@.len(),
            lv == bytes_views(lines@),
            bv == bytes_views(barcodes@),
            sv == stream_views(labelsets@),
            ordv == bytes_views(order@),
            barcodes@.len() == labelsets@.len(),
            outputs@.len() == j,
            forall|j2: int|
                0 <= j2 < j ==> bytes_views(#[trigger] outputs@[j2]@) == spec_routed_contigs(
                    lv,
                    bv,
                    sv,
                    bytes_views(labels@)[j2],
                    ordv,
                ),
        decreases labels@.len() - j,
    {
        let mut routed: Vec<Vec<u8>> = Vec::new();
        let mut c: usize = 0;
        while c < order.len()
            invariant
                0 <= c <= order@.len(),
                j < labels@.len(),
                lv == bytes_views(lines@),
                bv == bytes_views(barcodes@),
                sv == stream_views(labelsets@),
                ordv == bytes_views(order@),
                barcodes@.len() == labelsets@.len(),
                bytes_views(routed@) == spec_routed_contigs(
                    lv,
                    bv,
                    sv,
                    labels@[j as int]@,
                    ordv.take(c as int),
                ),
            decreases order@.len() - c,
        {
            proof {
                assert(ordv.take(c as int + 1).drop_last() =~= ordv.take(c as int));
                assert(ordv.take(c as int + 1).last() == ordv[c as int]);
                assert(ordv[c as int] == order@[c as int]@);
            }
            let mut part = routed_lines(lines, barcodes, labelsets, &labels[j], &order[c]);
            let ghost routed0 = bytes_views(routed@);
            let ghost partv = bytes_views(part@);
            routed.append(&mut part);
            proof {
                assert(bytes_views(routed@) =~= routed0 + partv);
            }
            c += 1;
        }
        proof {
            assert(ordv.take(ordv.len() as int) =~= ordv);
            assert(bytes_views(labels@)[j as int] == labels@[j as int]@);
        }
        outputs.push(routed);
        j += 1;
    }
    proof {
        assert(bytes_views(present@) == spec_chroms(lv));
    }
    Ok(SplitPlan { contigs: order, labels, outputs })
}

/// Which labels of a plan earn an output artifact: exactly those with at
/// least one matching line, in label order.  A label with no matching line
/// is absent, so no empty artifact is ever created for it.
pub open spec fn spec_nonempty(labelsv: Seq<Seq<u8>>, outputsv: Seq<Seq<Seq<u8>>>) -> Seq<
    Seq<u8>,
>
    decreases labelsv.len(),
{
    if labelsv.len() == 0 {
        Seq::empty()
    } else {
        let d = spec_nonempty(labelsv.drop_last(), outputsv.drop_last());
        if outputsv.last().len() > 0 {
            d.push(labelsv.last())
        } else {
            d
        }
    }
}

/// The labels of the plan that have at least one matching line: only these
/// get output files.
pub fn nonempty_labels(plan: &SplitPlan) -> (r: Vec<Vec<u8>>)
    requires
        plan.outputs@.len() == plan.labels@.len(),
    ensures
        bytes_views(r@) == spec_nonempty(
            bytes_views(plan.labels@),
            stream_views(plan.outputs@),
        ),
{
    let ghost labv = bytes_views(plan.labels@);
    let ghost outv = stream_views(plan.outputs@);
    let mut r: Vec<Vec<u8>> = Vec::new();
    let mut j: usize = 0;
    while j < plan.labels.len()
        invariant
            0 <= j <= plan.labels@.len(),
            plan.outputs@.len() == plan.labels@.len(),
            labv == bytes_views(plan.labels@),
            outv == stream_views(plan.outputs@),
            bytes_views(r@) == spec_nonempty(labv.take(j as int), outv.take(j as int)),
        decreases plan.labels@.len() - j,
    {
        proof {
            assert(labv.take(j as int + 1).drop_last() =~= labv.take(j as int));
            assert(outv.take(j as int + 1).drop_last() =~= outv.take(j as int));
            assert(labv.take(j as int + 1).last() == labv[j as int]);
            assert(outv.take(j as int + 1).last() == outv[j as int]);
            assert(outv[j as int] == bytes_views(plan.outputs@[j as int]@));
        }
        if plan.outputs[j].len() > 0 {
            let c = copy_bytes(&plan.labels[j]);
            r.push(c);
            proof {
                assert(bytes_views(r@) =~= spec_nonempty(labv.take(j as int), outv.take(
                    j as int,
                )).push(labv[j as int]));
            }
        }
        j += 1;
    }
    proof {
        assert(labv.take(labv.len() as int) =~= labv);
        assert(outv.take(outv.len() as int) =~= outv);
    }
    r
}

/// What each byte of a label becomes in a filename: the space and the path
/// separator turn into an underscore, all else is kept.
pub open spec fn sanitize_byte(b: u8) -> u8 {
    if b == 32 || b == 47 {
        95
    } else {
        b
    }
}

/// Replaces characters unsafe for filesystem paths, the space and the path
/// separator, with an underscore.
pub fn sanitize_string_for_filename(s: Vec<u8>) -> (r: Vec<u8>)
    ensures
        r@.len() == s@.len(),
        forall|i: int| 0 <= i < s@.len() ==> r@[i] == sanitize_byte(#[trigger] s@[i]),
{
    let mut r: Vec<u8> = Vec::new();
    let mut i: usize = 0;
    while i < s.len()
        invariant
            0 <= i <= s@.len(),
            r@.len() == i,
            forall|j: int| 0 <= j < i ==> r@[j] == sanitize_byte(#[trigger] s@[j]),
        decreases s@.len() - i,
    {
        let b = s[i];
        if b == 32 || b == 47 {
            r.push(95);
        } else {
            r.push(b);
        }
        i += 1;
    }
    r
}

} // verus!
