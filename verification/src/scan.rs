//! Positioning a cursor at a target chromosome, and pulling the records of
//! that chromosome whose barcode is on an allow-list.
//!
//! A cursor over a stream of lines is a position into the stream.  Scanning
//! skips header lines and records of other chromosomes; filtering yields the
//! target chromosome's records with allowed barcodes, one per call, and
//! stops as soon as the chromosome changes.

use vstd::prelude::*;

use crate::order::{bytes_compare, Rel};
use crate::record::{
    bytes_views, is_header, parse_line, spec_parse_line, FragV, Fragment, ParseError,
};

verus! {

/// Where a scan for `target` starting at `i` ends: `Ok(p)` with `p` the
/// index of the first record of the target chromosome at or after `i`, or
/// the line count when the chromosome does not occur; `Err(j)` when line `j`
/// is malformed before any such record.  Header lines are skipped, never
/// parsed.
pub open spec fn spec_scan(lines: Seq<Seq<u8>>, i: int, target: Seq<u8>) -> Result<int, int>
    decreases lines.len() - i,
{
    if i < 0 || i >= lines.len() {
        Ok(lines.len() as int)
    } else if is_header(lines[i]) {
        spec_scan(lines, i + 1, target)
    } else {
        match spec_parse_line(lines[i]) {
            Err(_) => Err(i),
            Ok(f) => if f.chrom == target {
                Ok(i)
            } else {
                spec_scan(lines, i + 1, target)
            },
        }
    }
}

/// Scan correctness: a successful scan lands either at the end of the
/// stream or on the first record of the target chromosome at or after the
/// start; no earlier line at or after the start is such a record.
pub proof fn lemma_scan_finds_first(lines: Seq<Seq<u8>>, i: int, target: Seq<u8>, p: int)
    requires
        0 <= i <= lines.len(),
        spec_scan(lines, i, target) == Ok::<int, int>(p),
    ensures
        i <= p <= lines.len(),
        p < lines.len() ==> !is_header(lines[p]) && (spec_parse_line(lines[p]) matches Ok(f)
            && f.chrom == target),
        forall|j: int|
            i <= j < p ==> is_header(#[trigger] lines[j]) || !(spec_parse_line(lines[j]) matches Ok(
                f,
            ) && f.chrom == target),
    decreases lines.len() - i,
{
    if i < lines.len() {
        if is_header(lines[i]) {
            lemma_scan_finds_first(lines, i + 1, target, p);
        } else {
            match spec_parse_line(lines[i]) {
                Err(_) => {},
                Ok(f) => {
                    if f.chrom != target {
                        lemma_scan_finds_first(lines, i + 1, target, p);
                    }
                },
            }
        }
    }
}

/// Positions a cursor at the target chromosome: from `start`, skips header
/// lines and records of other chromosomes, and stops at the first record of
/// `target`, at the end of the stream, or at the first malformed line.
pub fn skip_to_chromosome(lines: &Vec<Vec<u8>>, start: usize, target: &Vec<u8>) -> (r: Result<
    usize,
    usize,
>)
    requires
        start <= lines@.len(),
    ensures
        match r {
            Ok(p) => spec_scan(bytes_views(lines@), start as int, target@) == Ok::<int, int>(
                p as int,
            ) && start <= p <= lines@.len(),
            Err(j) => spec_scan(bytes_views(lines@), start as int, target@) == Err::<int, int>(
                j as int,
            ) && j < lines@.len(),
        },
{
    let ghost lv = bytes_views(lines@);
    let mut i: usize = start;
    while i < lines.len()
        invariant
            start <= i <= lines@.len(),
            lv == bytes_views(lines@),
            spec_scan(lv, start as int, target@) == spec_scan(lv, i as int, target@),
        decreases lines@.len() - i,
    {
        let l = &lines[i];
        proof {
            assert(lv[i as int] == l@);
        }
        if l.len() > 0 && l[0] == 35 {
            i += 1;
        } else {
            match parse_line(l.as_slice()) {
                Err(_) => {
                    return Err(i);
                },
                Ok(f) => {
                    if bytes_compare(&f.chrom, target) == Rel::Equal {
                        return Ok(i);
                    }
                    i += 1;
                },
            }
        }
    }
    Ok(lines.len())
}

/// One pull of the allow-list filter from position `i`: `Ok((Some(f), j))`
/// emits the next record `f` of the target chromosome whose barcode is
/// allowed, with the cursor advanced to `j`, just past it; `Ok((None, j))`
/// says the pull stopped without a record, at the end of the stream or on
/// the first record of another chromosome; `Err(j)` reports a malformed
/// line.  Records of the target chromosome with barcodes not on the list
/// are passed over.
pub open spec fn spec_filter_step(
    lines: Seq<Seq<u8>>,
    i: int,
    target: Seq<u8>,
    allow: Seq<Seq<u8>>,
) -> Result<(Option<FragV>, int), int>
    decreases lines.len() - i,
{
    if i < 0 || i >= lines.len() {
        Ok((None, lines.len() as int))
    } else if is_header(lines[i]) {
        spec_filter_step(lines, i + 1, target, allow)
    } else {
        match spec_parse_line(lines[i]) {
            Err(_) => Err(i),
            Ok(f) => if f.chrom != target {
                Ok((None, i))
            } else if allow.contains(f.barcode) {
                Ok((Some(f), i + 1))
            } else {
                spec_filter_step(lines, i + 1, target, allow)
            },
        }
    }
}

/// All records the filter yields from position `i` to where it stops.
pub open spec fn spec_filtered(
    lines: Seq<Seq<u8>>,
    i: int,
    target: Seq<u8>,
    allow: Seq<Seq<u8>>,
) -> Result<Seq<FragV>, int>
    decreases lines.len() - i,
{
    if i < 0 || i >= lines.len() {
        Ok(Seq::empty())
    } else if is_header(lines[i]) {
        spec_filtered(lines, i + 1, target, allow)
    } else {
        match spec_parse_line(lines[i]) {
            Err(_) => Err(i),
            Ok(f) => if f.chrom != target {
                Ok(Seq::empty())
            } else {
                match spec_filtered(lines, i + 1, target, allow) {
                    Err(e) => Err(e),
                    Ok(rest) => if allow.contains(f.barcode) {
                        Ok(seq![f] + rest)
                    } else {
                        Ok(rest)
                    },
                }
            },
        }
    }
}

/// Bounds of one filter pull.
pub proof fn lemma_filter_step_bounds(
    lines: Seq<Seq<u8>>,
    i: int,
    target: Seq<u8>,
    allow: Seq<Seq<u8>>,
)
    requires
        0 <= i <= lines.len(),
    ensures
        match spec_filter_step(lines, i, target, allow) {
            Ok((og, j)) => i <= j <= lines.len() && (og is Some ==> i < j),
            Err(e) => i <= e < lines.len(),
        },
    decreases lines.len() - i,
{
    if i < lines.len() {
        if is_header(lines[i]) {
            lemma_filter_step_bounds(lines, i + 1, target, allow);
        } else {
            match spec_parse_line(lines[i]) {
                Err(_) => {},
                Ok(f) => {
                    if f.chrom == target && !allow.contains(f.barcode) {
                        lemma_filter_step_bounds(lines, i + 1, target, allow);
                    }
                },
            }
        }
    }
}

/// One pull of the filter accounts for the whole filtered stream: the
/// records from `i` are the pulled record, if any, followed by the records
/// from the new position.
pub proof fn lemma_filtered_step(
    lines: Seq<Seq<u8>>,
    i: int,
    target: Seq<u8>,
    allow: Seq<Seq<u8>>,
)
    requires
        0 <= i,
    ensures
        match spec_filter_step(lines, i, target, allow) {
            Err(e) => spec_filtered(lines, i, target, allow) == Err::<Seq<FragV>, int>(e),
            Ok((None, j)) => spec_filtered(lines, i, target, allow) == Ok::<Seq<FragV>, int>(
                Seq::empty(),
            ),
            Ok((Some(f), j)) => spec_filtered(lines, i, target, allow) == (
            match spec_filtered(lines, j, target, allow) {
                Err(e) => Err::<Seq<FragV>, int>(e),
                Ok(rest) => Ok::<Seq<FragV>, int>(seq![f] + rest),
            }),
        },
    decreases lines.len() - i,
{
    if 0 <= i < lines.len() {
        if is_header(lines[i]) {
            lemma_filtered_step(lines, i + 1, target, allow);
        } else {
            match spec_parse_line(lines[i]) {
                Err(_) => {},
                Ok(f) => {
                    if f.chrom == target && !allow.contains(f.barcode) {
                        lemma_filtered_step(lines, i + 1, target, allow);
                    }
                },
            }
        }
    }
}

/// Soundness of the filter: every record it yields is a record of the
/// target chromosome, its barcode is on the allow-list, and it parses from
/// some line of the stream.
pub proof fn lemma_filter_sound(
    lines: Seq<Seq<u8>>,
    i: int,
    target: Seq<u8>,
    allow: Seq<Seq<u8>>,
    s: Seq<FragV>,
)
    requires
        0 <= i,
        spec_filtered(lines, i, target, allow) == Ok::<Seq<FragV>, int>(s),
    ensures
        forall|x: int|
            0 <= x < s.len() ==> (#[trigger] s[x]).chrom == target && allow.contains(s[x].barcode)
                && exists|j: int|
                i <= j < lines.len() && spec_parse_line(#[trigger] lines[j]) == Ok::<
                    FragV,
                    ParseError,
                >(s[x]),
    decreases lines.len() - i,
{
    if 0 <= i < lines.len() {
        if is_header(lines[i]) {
            lemma_filter_sound(lines, i + 1, target, allow, s);
        } else {
            match spec_parse_line(lines[i]) {
                Err(_) => {},
                Ok(f) => {
                    if f.chrom == target {
                        match spec_filtered(lines, i + 1, target, allow) {
                            Err(_) => {},
                            Ok(rest) => {
                                lemma_filter_sound(lines, i + 1, target, allow, rest);
                                if allow.contains(f.barcode) {
                                    assert(s == seq![f] + rest);
                                    assert(s[0] == f);
                                    assert forall|x: int| 0 <= x < s.len() implies (
                                    #[trigger] s[x]).chrom == target && allow.contains(
                                        s[x].barcode,
                                    ) && exists|j: int|
                                        i <= j < lines.len() && spec_parse_line(
                                            #[trigger] lines[j],
                                        ) == Ok::<FragV, ParseError>(s[x]) by {
                                        if x == 0 {
                                            assert(spec_parse_line(lines[i]) == Ok::<
                                                FragV,
                                                ParseError,
                                            >(s[0]));
                                        } else {
                                            assert(s[x] == rest[x - 1]);
                                        }
                                    }
                                }
                            },
                        }
                    }
                },
            }
        }
    }
}

/// Completeness of the filter: a record of the target chromosome with an
/// allowed barcode is yielded, provided no earlier record already left the
/// chromosome (which is where the filter rightly stops).
pub proof fn lemma_filter_covers(
    lines: Seq<Seq<u8>>,
    i: int,
    target: Seq<u8>,
    allow: Seq<Seq<u8>>,
    s: Seq<FragV>,
    j: int,
    f: FragV,
)
    requires
        0 <= i <= j < lines.len(),
        spec_filtered(lines, i, target, allow) == Ok::<Seq<FragV>, int>(s),
        !is_header(lines[j]),
        spec_parse_line(lines[j]) == Ok::<FragV, ParseError>(f),
        f.chrom == target,
        allow.contains(f.barcode),
        forall|x: int|
            i <= x < j && !is_header(#[trigger] lines[x]) ==> (spec_parse_line(lines[x]) matches Ok(
                g,
            ) && g.chrom == target),
    ensures
        s.contains(f),
    decreases j - i,
{
    if is_header(lines[i]) {
        lemma_filter_covers(lines, i + 1, target, allow, s, j, f);
    } else if i == j {
        match spec_filtered(lines, i + 1, target, allow) {
            Err(_) => {},
            Ok(rest) => {
                assert(s == seq![f] + rest);
                assert(s[0] == f);
            },
        }
    } else {
        let g = spec_parse_line(lines[i]) ->Ok_0;
        assert(spec_parse_line(lines[i]) matches Ok(g2) && g2.chrom == target);
        match spec_filtered(lines, i + 1, target, allow) {
            Err(_) => {},
            Ok(rest) => {
                lemma_filter_covers(lines, i + 1, target, allow, rest, j, f);
                let x = choose|x: int| 0 <= x < rest.len() && rest[x] == f;
                if allow.contains(g.barcode) {
                    assert(s == seq![g] + rest);
                    assert(s[x + 1] == f);
                } else {
                    assert(s == rest);
                }
            },
        }
    }
}

/// Tests whether `x` is one of the byte strings in `list`.
pub fn contains_bytes(list: &Vec<Vec<u8>>, x: &Vec<u8>) -> (r: bool)
    ensures
        r == bytes_views(list@).contains(x@),
{
    let mut i: usize = 0;
    while i < list.len()
        invariant
            0 <= i <= list@.len(),
            forall|j: int| 0 <= j < i ==> bytes_views(list@)[j] != x@,
        decreases list@.len() - i,
    {
        if bytes_compare(&list[i], x) == Rel::Equal {
            assert(bytes_views(list@)[i as int] == x@);
            return true;
        }
        i += 1;
    }
    false
}

/// Pulls the next allowed record of the target chromosome, advancing the
/// cursor just past it; repeated calls therefore yield each matching record
/// exactly once.  Stops, without consuming, on the first record of another
/// chromosome; fails on a malformed line.
pub fn next_valid_fragment(
    lines: &Vec<Vec<u8>>,
    pos: usize,
    target: &Vec<u8>,
    allow: &Vec<Vec<u8>>,
) -> (r: Result<(Option<Fragment>, usize), usize>)
    requires
        pos <= lines@.len(),
    ensures
        match r {
            Ok((opt, j)) => spec_filter_step(bytes_views(lines@), pos as int, target@, bytes_views(
                allow@,
            )) == Ok::<(Option<FragV>, int), int>(
                (
                    match opt {
                        Some(f) => Some(f@),
                        None => None,
                    },
                    j as int,
                ),
            ) && j <= lines@.len(),
            Err(e) => spec_filter_step(bytes_views(lines@), pos as int, target@, bytes_views(
                allow@,
            )) == Err::<(Option<FragV>, int), int>(e as int) && e < lines@.len(),
        },
{
    let ghost lv = bytes_views(lines@);
    let ghost av = bytes_views(allow@);
    let mut i: usize = pos;
    while i < lines.len()
        invariant
            pos <= i <= lines@.len(),
            lv == bytes_views(lines@),
            av == bytes_views(allow@),
            spec_filter_step(lv, pos as int, target@, av) == spec_filter_step(
                lv,
                i as int,
                target@,
                av,
            ),
        decreases lines@.len() - i,
    {
        let l = &lines[i];
        proof {
            assert(lv[i as int] == l@);
        }
        if l.len() > 0 && l[0] == 35 {
            i += 1;
        } else {
            match parse_line(l.as_slice()) {
                Err(_) => {
                    return Err(i);
                },
                Ok(f) => {
                    if !(bytes_compare(&f.chrom, target) == Rel::Equal) {
                        return Ok((None, i));
                    }
                    if contains_bytes(allow, &f.barcode) {
                        return Ok((Some(f), i + 1));
                    }
                    i += 1;
                },
            }
        }
    }
    Ok((None, lines.len()))
}

/// Pulls every allowed record of the target chromosome from `start` on:
/// the whole filtered stream, or the first malformed line.
pub fn collect_filtered(
    lines: &Vec<Vec<u8>>,
    start: usize,
    target: &Vec<u8>,
    allow: &Vec<Vec<u8>>,
) -> (r: Result<Vec<Fragment>, usize>)
    requires
        start <= lines@.len(),
    ensures
        match r {
            Ok(v) => spec_filtered(bytes_views(lines@), start as int, target@, bytes_views(allow@))
                == Ok::<Seq<FragV>, int>(crate::merge::frag_views(v@)),
            Err(e) => spec_filtered(bytes_views(lines@), start as int, target@, bytes_views(
                allow@,
            )) == Err::<Seq<FragV>, int>(e as int),
        },
{
    let ghost lv = bytes_views(lines@);
    let ghost av = bytes_views(allow@);
    let mut acc: Vec<Fragment> = Vec::new();
    let mut pos: usize = start;
    while pos <= lines.len()
        invariant
            start <= pos <= lines@.len(),
            lv == bytes_views(lines@),
            av == bytes_views(allow@),
            spec_filtered(lv, start as int, target@, av) == (
            match spec_filtered(lv, pos as int, target@, av) {
                Err(e) => Err::<Seq<FragV>, int>(e),
                Ok(rest) => Ok::<Seq<FragV>, int>(crate::merge::frag_views(acc@) + rest),
            }),
        decreases lines@.len() - pos + 1,
    {
        proof {
            lemma_filter_step_bounds(lv, pos as int, target@, av);
            lemma_filtered_step(lv, pos as int, target@, av);
        }
        match next_valid_fragment(lines, pos, target, allow) {
            Err(e) => {
                return Err(e);
            },
            Ok((opt, j)) => {
                match opt {
                    None => {
                        proof {
                            assert(crate::merge::frag_views(acc@) + Seq::<FragV>::empty()
                                =~= crate::merge::frag_views(acc@));
                        }
                        return Ok(acc);
                    },
                    Some(f) => {
                        let ghost accv = crate::merge::frag_views(acc@);
                        let ghost fv = f@;
                        acc.push(f);
                        proof {
                            assert(crate::merge::frag_views(acc@) =~= accv.push(fv));
                            match spec_filtered(lv, j as int, target@, av) {
                                Ok(rest) => {
                                    assert(accv + (seq![fv] + rest) =~= crate::merge::frag_views(
                                        acc@,
                                    ) + rest);
                                },
                                Err(_) => {},
                            }
                        }
                        pos = j;
                    },
                }
            },
        }
    }
    // unreachable: the cursor position never passes the end of the stream,
    // so the loop above always returns
    proof {
        assert(false);
    }
    Err(0)
}

/// The positional index of one input, reduced to what the scanner reads
/// from it: for each chromosome it names, the stream offset of that
/// chromosome's first interval.
pub struct ChromIndex {
    pub names: Vec<Vec<u8>>,
    pub offsets: Vec<u64>,
}

/// First-match lookup among the named chromosomes.
pub open spec fn spec_lookup(names: Seq<Seq<u8>>, offs: Seq<u64>, c: Seq<u8>, i: int) -> Option<
    u64,
>
    decreases names.len() - i,
{
    if i < 0 || i >= names.len() {
        None
    } else if names[i] == c {
        Some(offs[i])
    } else {
        spec_lookup(names, offs, c, i + 1)
    }
}

impl ChromIndex {
    /// One offset per named chromosome.
    pub open spec fn wf(&self) -> bool {
        self.names@.len() == self.offsets@.len()
    }

    /// The offset at which the target chromosome's records begin, when the
    /// index names it; `None` when it does not, in which case the caller
    /// falls back to a sequential scan.
    pub fn lookup(&self, chrom: &Vec<u8>) -> (r: Option<u64>)
        requires
            self.wf(),
        ensures
            r == spec_lookup(bytes_views(self.names@), self.offsets@, chrom@, 0),
            (r is Some) == bytes_views(self.names@).contains(chrom@),
    {
        let ghost nv = bytes_views(self.names@);
        let mut i: usize = 0;
        while i < self.names.len()
            invariant
                0 <= i <= self.names@.len(),
                self.wf(),
                nv == bytes_views(self.names@),
                spec_lookup(nv, self.offsets@, chrom@, 0) == spec_lookup(
                    nv,
                    self.offsets@,
                    chrom@,
                    i as int,
                ),
                forall|j: int| 0 <= j < i ==> nv[j] != chrom@,
            decreases self.names@.len() - i,
        {
            if bytes_compare(&self.names[i], chrom) == Rel::Equal {
                assert(nv[i as int] == chrom@);
                return Some(self.offsets[i]);
            }
            i += 1;
        }
        proof {
            if nv.contains(chrom@) {
                let j = choose|j: int| 0 <= j < nv.len() && nv[j] == chrom@;
            }
        }
        None
    }
}

} // verus!
