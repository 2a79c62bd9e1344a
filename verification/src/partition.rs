//! Partition jobs: one `(label, chromosome)` unit of work scans every input
//! to the target chromosome, filters its records by the label's allow-list
//! for that input, merges the filtered streams, and enforces that emitted
//! start coordinates never go backwards.  A label's jobs, one per requested
//! chromosome, concatenate in the caller's chromosome order; a label with no
//! matching record at all yields no output.

use vstd::prelude::*;

use crate::merge::{
    all_coord_sorted, all_sorted, coord_sorted_frags, coord_sorted_out, entry_views, frag_views,
    input_views, lemma_render_lines_len, merge_core, proj, render_entries, sorted_frags,
    sorted_stable, spec_render_lines, Entry, EntryV,
};
use crate::order::{coord_le, lemma_bytes_lt_irrefl};
use crate::record::{
    bytes_views, is_header, push_bytes, spec_parse_line, stream_views, FragV, Fragment, ParseError,
};
use crate::scan::{
    collect_filtered, lemma_filter_covers, lemma_filter_sound, lemma_scan_finds_first,
    skip_to_chromosome, spec_filtered, spec_scan,
};

verus! {

/// Why a partition job failed.
#[derive(PartialEq, Eq, Structural, Clone, Copy, Debug)]
pub enum PartitionError {
    /// Input `file` holds a malformed line at index `line`.
    Malformed { file: usize, line: usize },
    /// The job's merged emissions went backwards in start coordinate, which
    /// cannot happen with sorted inputs; `file` produced the offending
    /// record, whose start coordinate is `start`.
    Unsorted { file: usize, start: usize },
}

/// What one input contributes to a `(label, chromosome)` job: scan to the
/// target chromosome, then pull its records through the allow-list filter.
pub open spec fn spec_job(lines: Seq<Seq<u8>>, target: Seq<u8>, allow: Seq<Seq<u8>>) -> Result<
    Seq<FragV>,
    int,
> {
    match spec_scan(lines, 0, target) {
        Err(j) => Err(j),
        Ok(p) => spec_filtered(lines, p, target, allow),
    }
}

/// Every input's contribution to the job is well defined.
pub open spec fn jobs_ok(
    filesv: Seq<Seq<Seq<u8>>>,
    allowsv: Seq<Seq<Seq<u8>>>,
    target: Seq<u8>,
) -> bool {
    forall|k: int|
        0 <= k < filesv.len() ==> spec_job(#[trigger] filesv[k], target, allowsv[k]) is Ok
}

/// The records input `k` contributes to the job.
pub open spec fn job_of(
    filesv: Seq<Seq<Seq<u8>>>,
    allowsv: Seq<Seq<Seq<u8>>>,
    target: Seq<u8>,
    k: int,
) -> Seq<FragV> {
    spec_job(filesv[k], target, allowsv[k]) ->Ok_0
}

/// Every input's contribution is sorted by the coordinates
/// `(chromosome, start, end)` alone, the least each input must guarantee.
pub open spec fn jobs_coord_sorted(
    filesv: Seq<Seq<Seq<u8>>>,
    allowsv: Seq<Seq<Seq<u8>>>,
    target: Seq<u8>,
) -> bool {
    forall|k: int|
        0 <= k < filesv.len() ==> coord_sorted_frags(#[trigger] job_of(filesv, allowsv, target, k))
}

/// Every input's contribution is sorted by the ordering key.
pub open spec fn jobs_sorted(
    filesv: Seq<Seq<Seq<u8>>>,
    allowsv: Seq<Seq<Seq<u8>>>,
    target: Seq<u8>,
) -> bool {
    forall|k: int|
        0 <= k < filesv.len() ==> sorted_frags(#[trigger] job_of(filesv, allowsv, target, k))
}

/// Emitted start coordinates never go backwards.
pub open spec fn starts_monotone(outv: Seq<EntryV>) -> bool {
    forall|x: int|
        0 < x < outv.len() ==> (#[trigger] outv[x]).frag.start >= outv[x - 1].frag.start
}

/// A finished `(label, chromosome)` job: every input's contribution is well
/// defined and carried completely, in order, as the emissions tagged with
/// that input; starts never go backwards; and sorted contributions make the
/// whole emission sequence sorted and stable.
pub open spec fn chromosome_job_post(
    outv: Seq<EntryV>,
    filesv: Seq<Seq<Seq<u8>>>,
    allowsv: Seq<Seq<Seq<u8>>>,
    target: Seq<u8>,
) -> bool {
    &&& jobs_ok(filesv, allowsv, target)
    &&& forall|j: int| 0 <= j < outv.len() ==> 0 <= (#[trigger] outv[j]).src < filesv.len()
    &&& forall|k: int|
        0 <= k < filesv.len() ==> #[trigger] proj(outv, k) == job_of(filesv, allowsv, target, k)
    &&& starts_monotone(outv)
    &&& (jobs_sorted(filesv, allowsv, target) ==> sorted_stable(outv))
    &&& (jobs_coord_sorted(filesv, allowsv, target) ==> coord_sorted_out(outv))
}

/// How a failed job relates to the inputs.
pub open spec fn chromosome_job_err(
    e: PartitionError,
    filesv: Seq<Seq<Seq<u8>>>,
    allowsv: Seq<Seq<Seq<u8>>>,
    target: Seq<u8>,
) -> bool {
    match e {
        PartitionError::Malformed { file, line } => {
            &&& file < filesv.len()
            &&& spec_job(filesv[file as int], target, allowsv[file as int]) == Err::<
                Seq<FragV>,
                int,
            >(line as int)
            &&& forall|k: int|
                0 <= k < file ==> spec_job(#[trigger] filesv[k], target, allowsv[k]) is Ok
        },
        PartitionError::Unsorted { file, start } => {
            &&& file < filesv.len()
            &&& jobs_ok(filesv, allowsv, target)
            &&& !jobs_coord_sorted(filesv, allowsv, target)
            &&& exists|f: FragV|
                #[trigger] job_of(filesv, allowsv, target, file as int).contains(f) && f.start
                    == start
        },
    }
}

/// An emission's record is among its own stream's records in the output.
proof fn lemma_proj_contains(s: Seq<EntryV>, j: int)
    requires
        0 <= j < s.len(),
    ensures
        proj(s, s[j].src).contains(s[j].frag),
    decreases s.len(),
{
    if j == s.len() - 1 {
        let pr = proj(s, s[j].src);
        assert(s.last() == s[j]);
        assert(pr.last() == s[j].frag);
        assert(pr[pr.len() - 1] == s[j].frag);
    } else {
        lemma_proj_contains(s.drop_last(), j);
        assert(s.drop_last()[j] == s[j]);
        let k = s[j].src;
        let pd = proj(s.drop_last(), k);
        let x = choose|x: int| 0 <= x < pd.len() && pd[x] == s[j].frag;
        if s.last().src == k {
            assert(proj(s, k)[x] == s[j].frag);
        } else {
            assert(proj(s, k) == pd);
        }
    }
}

/// Partition soundness: everything one input contributes to a job is a
/// record of the target chromosome whose barcode is on that input's
/// allow-list, parsed from a line of that input.  A record is thus never
/// carried into a label that does not list its barcode.
pub proof fn lemma_partition_soundness(
    lines: Seq<Seq<u8>>,
    target: Seq<u8>,
    allow: Seq<Seq<u8>>,
    s: Seq<FragV>,
)
    requires
        spec_job(lines, target, allow) == Ok::<Seq<FragV>, int>(s),
    ensures
        forall|x: int|
            0 <= x < s.len() ==> (#[trigger] s[x]).chrom == target && allow.contains(s[x].barcode)
                && exists|j: int|
                0 <= j < lines.len() && spec_parse_line(#[trigger] lines[j]) == Ok::<
                    FragV,
                    ParseError,
                >(s[x]),
{
    let p = spec_scan(lines, 0, target) ->Ok_0;
    lemma_scan_finds_first(lines, 0, target, p);
    lemma_filter_sound(lines, p, target, allow, s);
}

/// Partition completeness: a record of the target chromosome whose barcode
/// is on the allow-list is carried into the job, provided it lies in the
/// target chromosome's block (no earlier record at or after the scan
/// position has left the chromosome).  Together with soundness: a record
/// appears in exactly the jobs of the labels whose allow-list for its input
/// holds its barcode.
pub proof fn lemma_partition_completeness(
    lines: Seq<Seq<u8>>,
    target: Seq<u8>,
    allow: Seq<Seq<u8>>,
    s: Seq<FragV>,
    j: int,
    f: FragV,
)
    requires
        spec_job(lines, target, allow) == Ok::<Seq<FragV>, int>(s),
        spec_scan(lines, 0, target) ->Ok_0 <= j < lines.len(),
        !is_header(lines[j]),
        spec_parse_line(lines[j]) == Ok::<FragV, ParseError>(f),
        f.chrom == target,
        allow.contains(f.barcode),
        forall|x: int|
            spec_scan(lines, 0, target) ->Ok_0 <= x < j && !is_header(#[trigger] lines[x]) ==> (
            spec_parse_line(lines[x]) matches Ok(g) && g.chrom == target),
    ensures
        s.contains(f),
{
    let p = spec_scan(lines, 0, target) ->Ok_0;
    lemma_scan_finds_first(lines, 0, target, p);
    lemma_filter_covers(lines, p, target, allow, s, j, f);
}

/// Runs one `(label, chromosome)` job over in-memory streams of lines:
/// scans each input to the target chromosome, filters by that input's
/// allow-list, merges the filtered streams, and checks that emitted start
/// coordinates never go backwards.
/// The first emission whose start coordinate is lower than its
/// predecessor's, if any.
fn first_start_regression(entries: &Vec<Entry>) -> (r: Option<usize>)
    ensures
        match r {
            None => starts_monotone(entry_views(entries@)),
            Some(x) => 0 < x < entries@.len() && entry_views(entries@)[x as int].frag.start
                < entry_views(entries@)[x as int - 1].frag.start,
        },
{
    let mut x: usize = 1;
    while x < entries.len()
        invariant
            1 <= x,
            forall|y: int|
                0 < y < x ==> (#[trigger] entry_views(entries@)[y]).frag.start >= entry_views(
                    entries@,
                )[y - 1].frag.start,
        decreases entries@.len() - x,
    {
        if entries[x].frag.start < entries[x - 1].frag.start {
            return Some(x);
        }
        x += 1;
    }
    None
}

#[verifier::loop_isolation(false)]
#[verifier::rlimit(50)]
pub fn partition_chromosome(
    files: &Vec<Vec<Vec<u8>>>,
    allows: &Vec<Vec<Vec<u8>>>,
    target: &Vec<u8>,
) -> (r: Result<Vec<Entry>, PartitionError>)
    requires
        files@.len() == allows@.len(),
    ensures
        match r {
            Ok(out) => chromosome_job_post(
                entry_views(out@),
                stream_views(files@),
                stream_views(allows@),
                target@,
            ),
            Err(e) => chromosome_job_err(e, stream_views(files@), stream_views(allows@), target@),
        },
{
    let ghost fv = stream_views(files@);
    let ghost av = stream_views(allows@);
    let mut streams: Vec<Vec<Fragment>> = Vec::new();
    let mut k: usize = 0;
    while k < files.len()
        invariant
            0 <= k <= files@.len(),
            streams@.len() == k,
            forall|k2: int|
                0 <= k2 < k ==> spec_job(#[trigger] fv[k2], target@, av[k2]) == Ok::<
                    Seq<FragV>,
                    int,
                >(frag_views(streams@[k2]@)),
        decreases files@.len() - k,
    {
        proof {
            assert(fv[k as int] == bytes_views(files@[k as int]@));
            assert(av[k as int] == bytes_views(allows@[k as int]@));
        }
        let p = match skip_to_chromosome(&files[k], 0, target) {
            Ok(p) => p,
            Err(line) => {
                return Err(PartitionError::Malformed { file: k, line });
            },
        };
        match collect_filtered(&files[k], p, target, &allows[k]) {
            Ok(v) => {
                streams.push(v);
            },
            Err(line) => {
                return Err(PartitionError::Malformed { file: k, line });
            },
        }
        k += 1;
    }
    let merged = merge_core(&streams);
    proof {
        assert forall|k2: int| 0 <= k2 < fv.len() implies #[trigger] input_views(streams@)[k2]
            == job_of(fv, av, target@, k2) by {
            assert(input_views(streams@)[k2] == frag_views(streams@[k2]@));
        }
        assert forall|k2: int| 0 <= k2 < fv.len() implies #[trigger] proj(
            entry_views(merged@),
            k2,
        ) == job_of(fv, av, target@, k2) by {
            assert(proj(entry_views(merged@), k2) == input_views(streams@)[k2]);
        }
        if jobs_sorted(fv, av, target@) {
            assert forall|k2: int| 0 <= k2 < input_views(streams@).len() implies sorted_frags(
                #[trigger] input_views(streams@)[k2],
            ) by {
                assert(input_views(streams@)[k2] == job_of(fv, av, target@, k2));
            }
            assert(all_sorted(input_views(streams@)));
        }
        if jobs_coord_sorted(fv, av, target@) {
            assert forall|k2: int|
                0 <= k2 < input_views(streams@).len() implies coord_sorted_frags(
                #[trigger] input_views(streams@)[k2],
            ) by {
                assert(input_views(streams@)[k2] == job_of(fv, av, target@, k2));
            }
            assert(all_coord_sorted(input_views(streams@)));
        }
    }
    let ghost ov = entry_views(merged@);
    match first_start_regression(&merged) {
        None => Ok(merged),
        Some(x) => {
            let file = merged[x].src;
            let start = merged[x].frag.start;
            proof {
                lemma_proj_contains(ov, x - 1);
                lemma_proj_contains(ov, x as int);
                let sa = ov[x - 1].src;
                let sb = ov[x as int].src;
                lemma_partition_soundness(fv[sa], target@, av[sa], job_of(fv, av, target@, sa));
                lemma_partition_soundness(fv[sb], target@, av[sb], job_of(fv, av, target@, sb));
                let pa = proj(ov, sa);
                let pb = proj(ov, sb);
                let ia = choose|i: int| 0 <= i < pa.len() && pa[i] == ov[x - 1].frag;
                let ib = choose|i: int| 0 <= i < pb.len() && pb[i] == ov[x as int].frag;
                assert(ov[x - 1].frag.chrom == target@);
                assert(ov[x as int].frag.chrom == target@);
                if jobs_coord_sorted(fv, av, target@) {
                    assert(coord_sorted_out(ov));
                    let eb = ov[x as int];
                    assert(coord_le(ov[x - 1].frag, eb.frag));
                    lemma_bytes_lt_irrefl(target@);
                    assert(false);
                }
                assert(job_of(fv, av, target@, sb).contains(ov[x as int].frag));
                assert(ov[x as int].frag.start == start);
            }
            Err(PartitionError::Unsorted { file, start })
        },
    }
}

/// Partition membership, soundness direction: a record carried into a
/// finished job's emissions for input `k` is a record of the target
/// chromosome whose barcode that input's allow-list holds, parsed from a
/// line of that input.
pub proof fn lemma_partition_membership_sound(
    outv: Seq<EntryV>,
    filesv: Seq<Seq<Seq<u8>>>,
    allowsv: Seq<Seq<Seq<u8>>>,
    target: Seq<u8>,
    k: int,
    f: FragV,
)
    requires
        chromosome_job_post(outv, filesv, allowsv, target),
        0 <= k < filesv.len(),
        proj(outv, k).contains(f),
    ensures
        f.chrom == target,
        allowsv[k].contains(f.barcode),
        exists|j: int|
            0 <= j < filesv[k].len() && spec_parse_line(#[trigger] filesv[k][j]) == Ok::<
                FragV,
                ParseError,
            >(f),
{
    let s = job_of(filesv, allowsv, target, k);
    assert(proj(outv, k) == s);
    lemma_partition_soundness(filesv[k], target, allowsv[k], s);
    let x = choose|x: int| 0 <= x < s.len() && s[x] == f;
    assert(s[x].chrom == target);
}

/// Partition membership, completeness direction: within the target
/// chromosome's block of input `k`, a record whose barcode is on that
/// input's allow-list is carried into the finished job's emissions for `k`.
/// Together with the soundness direction: a record appears in exactly the
/// jobs of the labels whose allow-list for its input holds its barcode.
pub proof fn lemma_partition_membership_complete(
    outv: Seq<EntryV>,
    filesv: Seq<Seq<Seq<u8>>>,
    allowsv: Seq<Seq<Seq<u8>>>,
    target: Seq<u8>,
    k: int,
    j: int,
    f: FragV,
)
    requires
        chromosome_job_post(outv, filesv, allowsv, target),
        0 <= k < filesv.len(),
        spec_scan(filesv[k], 0, target) ->Ok_0 <= j < filesv[k].len(),
        !is_header(filesv[k][j]),
        spec_parse_line(filesv[k][j]) == Ok::<FragV, ParseError>(f),
        f.chrom == target,
        allowsv[k].contains(f.barcode),
        forall|x: int|
            spec_scan(filesv[k], 0, target) ->Ok_0 <= x < j && !is_header(
                #[trigger] filesv[k][x],
            ) ==> (spec_parse_line(filesv[k][x]) matches Ok(g) && g.chrom == target),
    ensures
        proj(outv, k).contains(f),
{
    let s = job_of(filesv, allowsv, target, k);
    assert(proj(outv, k) == s);
    lemma_partition_completeness(filesv[k], target, allowsv[k], s, j, f);
}

/// The rendered concatenation of a label's per-chromosome emissions, in the
/// caller's chromosome order.
pub open spec fn flatten_render(outs: Seq<Seq<EntryV>>) -> Seq<u8>
    decreases outs.len(),
{
    if outs.len() == 0 {
        Seq::empty()
    } else {
        flatten_render(outs.drop_last()) + spec_render_lines(outs.last())
    }
}

/// The concatenation is empty exactly when every job emitted nothing.
proof fn lemma_flatten_empty(outs: Seq<Seq<EntryV>>)
    ensures
        (flatten_render(outs).len() == 0) == (forall|c: int|
            0 <= c < outs.len() ==> (#[trigger] outs[c]).len() == 0),
    decreases outs.len(),
{
    if outs.len() > 0 {
        lemma_flatten_empty(outs.drop_last());
        lemma_render_lines_len(outs.last());
        if flatten_render(outs).len() == 0 {
            assert forall|c: int| 0 <= c < outs.len() implies (#[trigger] outs[c]).len() == 0 by {
                if c < outs.len() - 1 {
                    assert(outs.drop_last()[c] == outs[c]);
                } else {
                    assert(outs[c] == outs.last());
                }
            }
        } else {
            if forall|c: int| 0 <= c < outs.len() ==> (#[trigger] outs[c]).len() == 0 {
                assert forall|c: int|
                    0 <= c < outs.drop_last().len() implies (#[trigger] outs.drop_last()[c]).len()
                    == 0 by {
                    assert(outs.drop_last()[c] == outs[c]);
                }
                assert(outs.last().len() == 0);
                assert(spec_render_lines(outs.last()) =~= Seq::<u8>::empty());
            }
        }
    }
}

/// Runs a whole label: one job per requested chromosome, in the caller's
/// order, concatenated into one output text.  Returns `Ok(None)`, and hands
/// the caller nothing to write, exactly when no chromosome yielded any
/// record for this label: a label with zero matching records produces no
/// output artifact.
#[verifier::loop_isolation(false)]
pub fn partition_label(
    files: &Vec<Vec<Vec<u8>>>,
    allows: &Vec<Vec<Vec<u8>>>,
    chromosomes: &Vec<Vec<u8>>,
) -> (r: Result<Option<Vec<u8>>, PartitionError>)
    requires
        files@.len() == allows@.len(),
    ensures
        match r {
            Ok(og) => match og {
                None => forall|c: int, k: int|
                    0 <= c < chromosomes@.len() && 0 <= k < files@.len() ==> spec_job(
                        #[trigger] stream_views(files@)[k],
                        #[trigger] bytes_views(chromosomes@)[c],
                        stream_views(allows@)[k],
                    ) == Ok::<Seq<FragV>, int>(Seq::empty()),
                Some(bytes) => bytes@.len() > 0 && !(forall|c: int, k: int|
                    0 <= c < chromosomes@.len() && 0 <= k < files@.len() ==> spec_job(
                        #[trigger] stream_views(files@)[k],
                        #[trigger] bytes_views(chromosomes@)[c],
                        stream_views(allows@)[k],
                    ) == Ok::<Seq<FragV>, int>(Seq::empty())) && exists|outs: Seq<Seq<EntryV>>|
                    {
                        &&& outs.len() == chromosomes@.len()
                        &&& (forall|c: int|
                            0 <= c < outs.len() ==> chromosome_job_post(
                                #[trigger] outs[c],
                                stream_views(files@),
                                stream_views(allows@),
                                bytes_views(chromosomes@)[c],
                            ))
                        &&& bytes@ == flatten_render(outs)
                    },
            },
            Err(e) => exists|c: int|
                0 <= c < chromosomes@.len() && chromosome_job_err(
                    e,
                    stream_views(files@),
                    stream_views(allows@),
                    #[trigger] bytes_views(chromosomes@)[c],
                ),
        },
{
    let ghost fv = stream_views(files@);
    let ghost av = stream_views(allows@);
    let ghost cv = bytes_views(chromosomes@);
    let mut out: Vec<u8> = Vec::new();
    let ghost mut outs = Seq::<Seq<EntryV>>::empty();
    let mut c: usize = 0;
    while c < chromosomes.len()
        invariant
            0 <= c <= chromosomes@.len(),
            outs.len() == c,
            out@ == flatten_render(outs),
            forall|c2: int|
                0 <= c2 < c ==> chromosome_job_post(#[trigger] outs[c2], fv, av, cv[c2]),
        decreases chromosomes@.len() - c,
    {
        proof {
            assert(cv[c as int] == chromosomes@[c as int]@);
        }
        match partition_chromosome(files, allows, &chromosomes[c]) {
            Ok(merged) => {
                let rendered = render_entries(&merged);
                push_bytes(&mut out, &rendered);
                proof {
                    let prev = outs;
                    outs = outs.push(entry_views(merged@));
                    assert(outs.drop_last() =~= prev);
                    assert(outs.last() == entry_views(merged@));
                }
            },
            Err(e) => {
                proof {
                    assert(chromosome_job_err(e, fv, av, cv[c as int]));
                }
                return Err(e);
            },
        }
        c += 1;
    }
    proof {
        lemma_flatten_empty(outs);
    }
    if out.len() == 0 {
        proof {
            assert forall|c2: int, k: int|
                0 <= c2 < chromosomes@.len() && 0 <= k < files@.len() implies spec_job(
                #[trigger] fv[k],
                #[trigger] cv[c2],
                av[k],
            ) == Ok::<Seq<FragV>, int>(Seq::empty()) by {
                assert(outs[c2].len() == 0);
                assert(proj(outs[c2], k) == job_of(fv, av, cv[c2], k));
                assert(proj(outs[c2], k) =~= Seq::<FragV>::empty());
            }
        }
        Ok(None)
    } else {
        proof {
            let cbad = choose|c2: int| 0 <= c2 < outs.len() && outs[c2].len() != 0;
            assert(outs[cbad].len() > 0);
            let e0 = outs[cbad][0];
            lemma_proj_contains(outs[cbad], 0);
            assert(proj(outs[cbad], e0.src) == job_of(fv, av, cv[cbad], e0.src));
            assert(job_of(fv, av, cv[cbad], e0.src).len() > 0);
            assert(spec_job(fv[e0.src], cv[cbad], av[e0.src]) is Ok);
            assert(!(spec_job(fv[e0.src], cv[cbad], av[e0.src]) == Ok::<Seq<FragV>, int>(
                Seq::empty(),
            )));
        }
        Ok(Some(out))
    }
}

} // verus!
