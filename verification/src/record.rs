//! Fragment records: one genomic interval with a cell barcode and an optional
//! score, read from and written to a tab-separated text line.

use vstd::prelude::*;
use vstd::string::StringSliceAdditionalSpecFns;

verus! {

/// Mathematical model of a fragment record.
#[verifier::ext_equal]
pub struct FragV {
    pub chrom: Seq<u8>,
    pub start: int,
    pub end: int,
    pub barcode: Seq<u8>,
    pub score: Option<int>,
}

/// One fragment record: chromosome name, start and end coordinate, cell
/// barcode, and an optional score.
#[derive(Debug, PartialEq, Eq)]
pub struct Fragment {
    pub chrom: Vec<u8>,
    pub start: usize,
    pub end: usize,
    pub barcode: Vec<u8>,
    pub score: Option<usize>,
}

impl View for Fragment {
    type V = FragV;

    open spec fn view(&self) -> FragV {
        FragV {
            chrom: self.chrom@,
            start: self.start as int,
            end: self.end as int,
            barcode: self.barcode@,
            score: match self.score {
                Some(v) => Some(v as int),
                None => None,
            },
        }
    }
}

/// Why a line failed to parse as a fragment record.
#[derive(PartialEq, Eq, Structural, Clone, Copy, Debug)]
pub enum ParseError {
    /// The line does not have exactly four or five tab-separated fields.
    WrongFieldCount,
    /// A start, end or score field is not a decimal number, or does not fit
    /// the machine's word size.
    BadNumber,
}

/// The decimal digit string of `n`, most significant digit first.
pub open spec fn dec_digits(n: nat) -> Seq<u8>
    decreases n,
{
    if n < 10 {
        seq![(48 + n) as u8]
    } else {
        dec_digits(n / 10).push((48 + n % 10) as u8)
    }
}

pub open spec fn all_digits(s: Seq<u8>) -> bool {
    forall|i: int| 0 <= i < s.len() ==> 48 <= #[trigger] s[i] <= 57
}

/// The number denoted by a digit string, most significant digit first.
pub open spec fn digits_val(s: Seq<u8>) -> nat
    decreases s.len(),
{
    if s.len() == 0 {
        0
    } else {
        digits_val(s.drop_last()) * 10 + (s.last() - 48) as nat
    }
}

/// Rendering a number gives a non-empty digit string that denotes it.
pub proof fn lemma_dec_digits(n: nat)
    ensures
        all_digits(dec_digits(n)),
        digits_val(dec_digits(n)) == n,
        dec_digits(n).len() >= 1,
    decreases n,
{
    if n < 10 {
        let s = dec_digits(n);
        assert(s.drop_last() =~= Seq::<u8>::empty());
        assert(s.last() == (48 + n) as u8);
        assert((48 + n) as u8 == 48 + n);
        assert(digits_val(s) == digits_val(s.drop_last()) * 10 + (s.last() - 48) as nat);
        assert(digits_val(s.drop_last()) == 0);
        assert(digits_val(s) == n);
    } else {
        lemma_dec_digits(n / 10);
        vstd::arithmetic::div_mod::lemma_fundamental_div_mod(n as int, 10);
        vstd::arithmetic::div_mod::lemma_mod_bound(n as int, 10);
        let s = dec_digits(n);
        assert(s.drop_last() =~= dec_digits(n / 10));
        assert((48 + n % 10) as u8 == 48 + n % 10);
        assert(s.last() == (48 + n % 10) as u8);
        assert(digits_val(s) == digits_val(dec_digits(n / 10)) * 10 + (n % 10));
        assert(digits_val(s) == (n / 10) * 10 + (n % 10));
        assert(digits_val(s) == n);
    }
}

/// Extending a digit string multiplies its value by ten and adds the digit.
proof fn lemma_digits_val_step(s: Seq<u8>, i: int)
    requires
        0 <= i < s.len(),
    ensures
        digits_val(s.take(i + 1)) == digits_val(s.take(i)) * 10 + (s[i] - 48) as nat,
{
    assert(s.take(i + 1).drop_last() =~= s.take(i));
    assert(s.take(i + 1).last() == s[i]);
}

/// A digit string's value only grows as more digits are read.
proof fn lemma_digits_val_mono(s: Seq<u8>, i: int, j: int)
    requires
        0 <= i <= j <= s.len(),
    ensures
        digits_val(s.take(i)) <= digits_val(s.take(j)),
    decreases j - i,
{
    if i < j {
        lemma_digits_val_mono(s, i, j - 1);
        lemma_digits_val_step(s, j - 1);
    }
}

/// Parses a non-negative decimal integer, rejecting empty input, any
/// non-digit byte, and values that do not fit in `usize`.
pub fn parse_usize(s: &[u8]) -> (r: Option<usize>)
    ensures
        (r is Some) == (s@.len() > 0 && all_digits(s@) && digits_val(s@) <= usize::MAX),
        r matches Some(v) ==> v as nat == digits_val(s@),
{
    if s.len() == 0 {
        return None;
    }
    let mut acc: usize = 0;
    let mut i: usize = 0;
    while i < s.len()
        invariant
            0 <= i <= s@.len(),
            all_digits(s@.take(i as int)),
            acc as nat == digits_val(s@.take(i as int)),
        decreases s@.len() - i,
    {
        let b = s[i];
        if b < 48 || b > 57 {
            assert(!all_digits(s@));
            return None;
        }
        let d = (b - 48) as usize;
        let limit = (usize::MAX - d) / 10;
        proof {
            vstd::arithmetic::div_mod::lemma_fundamental_div_mod((usize::MAX - d) as int, 10);
            vstd::arithmetic::div_mod::lemma_mod_bound((usize::MAX - d) as int, 10);
        }
        if acc > limit {
            proof {
                lemma_digits_val_step(s@, i as int);
                assert(digits_val(s@.take(i as int + 1)) > usize::MAX);
                lemma_digits_val_mono(s@, i as int + 1, s@.len() as int);
                assert(s@.take(s@.len() as int) =~= s@);
                assert(digits_val(s@) > usize::MAX);
            }
            return None;
        }
        proof {
            lemma_digits_val_step(s@, i as int);
        }
        acc = acc * 10 + d;
        i += 1;
    }
    proof {
        assert(s@.take(s@.len() as int) =~= s@);
    }
    Some(acc)
}

/// Renders a number as its decimal digit string.
pub fn render_usize(n: usize) -> (r: Vec<u8>)
    ensures
        r@ == dec_digits(n as nat),
{
    if n == 0 {
        let mut out: Vec<u8> = Vec::new();
        out.push(48);
        assert(out@ =~= dec_digits(0));
        return out;
    }
    let mut tmp: Vec<u8> = Vec::new();
    let mut cur: usize = n;
    while cur > 0
        invariant
            cur >= 0,
            cur > 0 ==> dec_digits(n as nat) =~= dec_digits(cur as nat) + tmp@.reverse(),
            cur == 0 ==> dec_digits(n as nat) =~= tmp@.reverse(),
        decreases cur,
    {
        let d = cur % 10;
        let b = (48 + d) as u8;
        proof {
            vstd::arithmetic::div_mod::lemma_fundamental_div_mod(cur as int, 10);
            vstd::arithmetic::div_mod::lemma_mod_bound(cur as int, 10);
            assert(tmp@.push(b).reverse() =~= seq![b] + tmp@.reverse());
            if cur < 10 {
                vstd::arithmetic::div_mod::lemma_basic_div(cur as int, 10);
                assert(dec_digits(cur as nat) == seq![b]);
                assert(dec_digits(n as nat) =~= seq![b] + tmp@.reverse());
            } else {
                assert(dec_digits(cur as nat) == dec_digits((cur as nat) / 10).push(b));
                assert(dec_digits((cur as nat) / 10) + (seq![b] + tmp@.reverse()) =~= dec_digits(
                    (cur as nat) / 10,
                ).push(b) + tmp@.reverse());
            }
        }
        tmp.push(b);
        cur = cur / 10;
    }
    let mut out: Vec<u8> = Vec::new();
    let mut j: usize = tmp.len();
    while j > 0
        invariant
            0 <= j <= tmp@.len(),
            out@.len() == tmp@.len() - j,
            forall|k: int| 0 <= k < out@.len() ==> out@[k] == tmp@[tmp@.len() - 1 - k],
        decreases j,
    {
        j -= 1;
        let b = tmp[j];
        out.push(b);
    }
    assert(out@ =~= tmp@.reverse());
    out
}

/// The views of a sequence of byte vectors.
pub open spec fn bytes_views(v: Seq<Vec<u8>>) -> Seq<Seq<u8>> {
    Seq::new(v.len(), |i: int| v[i]@)
}

/// The views of a sequence of line lists, one per input stream.
pub open spec fn stream_views(v: Seq<Vec<Vec<u8>>>) -> Seq<Seq<Seq<u8>>> {
    Seq::new(v.len(), |i: int| bytes_views(v[i]@))
}

/// A header line: it begins with the comment marker `#`.
pub open spec fn is_header(l: Seq<u8>) -> bool {
    l.len() > 0 && l[0] == 35
}

/// The fields of a line, split on tab bytes.  A line with no tab is one
/// field; every tab ends a field, so `n` tabs give `n + 1` fields.
pub open spec fn split_tabs(s: Seq<u8>) -> Seq<Seq<u8>>
    decreases s.len(),
{
    if s.len() == 0 {
        seq![Seq::<u8>::empty()]
    } else if s[0] == 9 {
        seq![Seq::<u8>::empty()] + split_tabs(s.skip(1))
    } else {
        let rest = split_tabs(s.skip(1));
        seq![seq![s[0]] + rest[0]] + rest.skip(1)
    }
}

pub proof fn lemma_split_tabs_len(s: Seq<u8>)
    ensures
        split_tabs(s).len() >= 1,
    decreases s.len(),
{
    if s.len() > 0 {
        lemma_split_tabs_len(s.skip(1));
    }
}

/// Splitting a tab-free string yields that one field.
pub proof fn lemma_split_tabs_whole(a: Seq<u8>)
    requires
        !a.contains(9u8),
    ensures
        split_tabs(a) == seq![a],
    decreases a.len(),
{
    if a.len() == 0 {
        assert(a =~= Seq::<u8>::empty());
        assert(split_tabs(a) =~= seq![a]);
    } else {
        assert(a[0] != 9) by {
            if a[0] == 9 {
                assert(a.contains(9u8));
            }
        }
        assert(!a.skip(1).contains(9u8)) by {
            if a.skip(1).contains(9u8) {
                let i = choose|i: int| 0 <= i < a.skip(1).len() && a.skip(1)[i] == 9u8;
                assert(a[i + 1] == 9u8);
                assert(a.contains(9u8));
            }
        }
        lemma_split_tabs_whole(a.skip(1));
        assert(seq![a[0]] + a.skip(1) =~= a);
        assert(split_tabs(a) =~= seq![a]);
    }
}

/// Splitting off the first field: a tab-free prefix before a tab is one
/// field, and the rest splits on its own.
pub proof fn lemma_split_tabs_join(a: Seq<u8>, b: Seq<u8>)
    requires
        !a.contains(9u8),
    ensures
        split_tabs(a + seq![9u8] + b) == seq![a] + split_tabs(b),
    decreases a.len(),
{
    let s = a + seq![9u8] + b;
    if a.len() == 0 {
        assert(s[0] == 9);
        assert(s.skip(1) =~= b);
        assert(a =~= Seq::<u8>::empty());
        assert(split_tabs(s) =~= seq![a] + split_tabs(b));
    } else {
        assert(a[0] != 9) by {
            if a[0] == 9 {
                assert(a.contains(9u8));
            }
        }
        assert(s[0] == a[0]);
        assert(s.len() > 0);
        assert(!a.skip(1).contains(9u8)) by {
            if a.skip(1).contains(9u8) {
                let i = choose|i: int| 0 <= i < a.skip(1).len() && a.skip(1)[i] == 9u8;
                assert(a[i + 1] == 9u8);
                assert(a.contains(9u8));
            }
        }
        assert(s.skip(1) =~= a.skip(1) + seq![9u8] + b);
        lemma_split_tabs_join(a.skip(1), b);
        let rest = split_tabs(s.skip(1));
        assert(rest == seq![a.skip(1)] + split_tabs(b));
        lemma_split_tabs_len(b);
        assert(rest[0] == a.skip(1));
        assert(seq![s[0]] + rest[0] =~= a);
        assert(rest.skip(1) =~= split_tabs(b));
        assert(split_tabs(s) =~= seq![a] + split_tabs(b));
    }
}

/// What a numeric field denotes: a value only when the field is a non-empty
/// run of digits whose value fits in `usize`.
pub open spec fn spec_parse_num(s: Seq<u8>) -> Option<int> {
    if s.len() > 0 && all_digits(s) && digits_val(s) <= usize::MAX {
        Some(digits_val(s) as int)
    } else {
        None
    }
}

/// What a line denotes.  Exactly four fields give a record without a score,
/// exactly five give one with a score; any other field count is rejected, as
/// is any numeric field that does not parse.
pub open spec fn spec_parse_line(s: Seq<u8>) -> Result<FragV, ParseError> {
    let fs = split_tabs(s);
    if fs.len() != 4 && fs.len() != 5 {
        Err(ParseError::WrongFieldCount)
    } else if spec_parse_num(fs[1]) is None || spec_parse_num(fs[2]) is None {
        Err(ParseError::BadNumber)
    } else if fs.len() == 5 && spec_parse_num(fs[4]) is None {
        Err(ParseError::BadNumber)
    } else {
        Ok(
            FragV {
                chrom: fs[0],
                start: spec_parse_num(fs[1]) ->Some_0,
                end: spec_parse_num(fs[2]) ->Some_0,
                barcode: fs[3],
                score: if fs.len() == 5 {
                    Some(spec_parse_num(fs[4]) ->Some_0)
                } else {
                    None
                },
            },
        )
    }
}

/// The rendered text of a record: tab-joined fields, the score omitted when
/// absent, no line terminator.
pub open spec fn spec_render(f: FragV) -> Seq<u8> {
    f.chrom + seq![9u8] + dec_digits(f.start as nat) + seq![9u8] + dec_digits(f.end as nat)
        + seq![9u8] + f.barcode + (match f.score {
        Some(v) => seq![9u8] + dec_digits(v as nat),
        None => Seq::<u8>::empty(),
    })
}

/// A record whose rendering is a faithful line: coordinates fit the machine
/// word and the text fields hold no tab byte.
pub open spec fn wf_frag(f: FragV) -> bool {
    &&& 0 <= f.start <= usize::MAX
    &&& 0 <= f.end <= usize::MAX
    &&& !f.chrom.contains(9u8)
    &&& !f.barcode.contains(9u8)
    &&& match f.score {
        Some(v) => 0 <= v <= usize::MAX,
        None => true,
    }
}

proof fn lemma_digits_no_tab(s: Seq<u8>)
    requires
        all_digits(s),
    ensures
        !s.contains(9u8),
{
    if s.contains(9u8) {
        let i = choose|i: int| 0 <= i < s.len() && s[i] == 9u8;
        assert(48 <= s[i] <= 57);
    }
}

/// A well-formed record parses back from its own rendering.
pub proof fn lemma_parse_render(f: FragV)
    requires
        wf_frag(f),
    ensures
        spec_parse_line(spec_render(f)) == Ok::<FragV, ParseError>(f),
{
    let d1 = dec_digits(f.start as nat);
    let d2 = dec_digits(f.end as nat);
    lemma_dec_digits(f.start as nat);
    lemma_dec_digits(f.end as nat);
    lemma_digits_no_tab(d1);
    lemma_digits_no_tab(d2);
    let t = seq![9u8];
    match f.score {
        None => {
            let line = spec_render(f);
            assert(line =~= f.chrom + t + (d1 + t + (d2 + t + f.barcode)));
            lemma_split_tabs_join(f.chrom, d1 + t + (d2 + t + f.barcode));
            lemma_split_tabs_join(d1, d2 + t + f.barcode);
            lemma_split_tabs_join(d2, f.barcode);
            lemma_split_tabs_whole(f.barcode);
            assert(split_tabs(line) =~= seq![f.chrom, d1, d2, f.barcode]);
            let fs = split_tabs(line);
            assert(fs.len() == 4);
            assert(spec_parse_num(d1) == Some(f.start));
            assert(spec_parse_num(d2) == Some(f.end));
            assert(spec_parse_line(line) ->Ok_0 =~= f);
        },
        Some(v) => {
            let d3 = dec_digits(v as nat);
            lemma_dec_digits(v as nat);
            lemma_digits_no_tab(d3);
            let line = spec_render(f);
            assert(line =~= f.chrom + t + (d1 + t + (d2 + t + (f.barcode + t + d3))));
            lemma_split_tabs_join(f.chrom, d1 + t + (d2 + t + (f.barcode + t + d3)));
            lemma_split_tabs_join(d1, d2 + t + (f.barcode + t + d3));
            lemma_split_tabs_join(d2, f.barcode + t + d3);
            lemma_split_tabs_join(f.barcode, d3);
            lemma_split_tabs_whole(d3);
            assert(split_tabs(line) =~= seq![f.chrom, d1, d2, f.barcode, d3]);
            let fs = split_tabs(line);
            assert(fs.len() == 5);
            assert(spec_parse_num(d1) == Some(f.start));
            assert(spec_parse_num(d2) == Some(f.end));
            assert(spec_parse_num(d3) == Some(v));
            assert(spec_parse_line(line) ->Ok_0 =~= f);
        },
    }
}

/// Round trip: parsing a rendered record succeeds and gives the record back,
/// so rendering what was parsed reproduces the rendered line exactly.
pub proof fn lemma_round_trip(f: FragV)
    requires
        wf_frag(f),
    ensures
        spec_parse_line(spec_render(f)) == Ok::<FragV, ParseError>(f),
        forall|g: FragV|
            spec_parse_line(spec_render(f)) == Ok::<FragV, ParseError>(g) ==> spec_render(g)
                == spec_render(f),
{
    lemma_parse_render(f);
}

/// Copies a byte vector.
pub fn copy_bytes(v: &Vec<u8>) -> (r: Vec<u8>)
    ensures
        r@ == v@,
{
    let mut r: Vec<u8> = Vec::new();
    let mut i: usize = 0;
    while i < v.len()
        invariant
            0 <= i <= v@.len(),
            r@ == v@.take(i as int),
        decreases v@.len() - i,
    {
        let b = v[i];
        r.push(b);
        proof {
            assert(v@.take(i as int).push(b) =~= v@.take(i as int + 1));
        }
        i += 1;
    }
    proof {
        assert(v@.take(v@.len() as int) =~= v@);
    }
    r
}

/// Appends the bytes of `src` to `dst`.
pub fn push_bytes(dst: &mut Vec<u8>, src: &Vec<u8>)
    ensures
        final(dst)@ == old(dst)@ + src@,
{
    let mut i: usize = 0;
    while i < src.len()
        invariant
            0 <= i <= src@.len(),
            dst@ == old(dst)@ + src@.take(i as int),
        decreases src@.len() - i,
    {
        let b = src[i];
        dst.push(b);
        proof {
            assert((old(dst)@ + src@.take(i as int)).push(b) =~= old(dst)@ + src@.take(
                i as int + 1,
            ));
        }
        i += 1;
    }
    proof {
        assert(old(dst)@ + src@.take(src@.len() as int) =~= old(dst)@ + src@);
    }
}

/// Splits a line on tab bytes into its fields.
pub fn split_line(s: &[u8]) -> (fields: Vec<Vec<u8>>)
    ensures
        bytes_views(fields@) == split_tabs(s@),
{
    let mut fields: Vec<Vec<u8>> = Vec::new();
    let mut cur: Vec<u8> = Vec::new();
    let mut i: usize = 0;
    proof {
        lemma_split_tabs_len(s@);
        assert(s@.skip(0) =~= s@);
        assert(split_tabs(s@) =~~= bytes_views(fields@) + seq![
            cur@ + split_tabs(s@.skip(0))[0],
        ] + split_tabs(s@.skip(0)).skip(1));
    }
    while i < s.len()
        invariant
            0 <= i <= s@.len(),
            split_tabs(s@.skip(i as int)).len() >= 1,
            split_tabs(s@) =~~= bytes_views(fields@) + seq![
                cur@ + split_tabs(s@.skip(i as int))[0],
            ] + split_tabs(s@.skip(i as int)).skip(1),
        decreases s@.len() - i,
    {
        let b = s[i];
        proof {
            assert(s@.skip(i as int)[0] == s@[i as int]);
            assert(s@.skip(i as int).skip(1) =~= s@.skip(i as int + 1));
            lemma_split_tabs_len(s@.skip(i as int + 1));
        }
        if b == 9 {
            let ghost prev_fields = fields@;
            let ghost prev_cur = cur@;
            fields.push(cur);
            cur = Vec::new();
            proof {
                let rest = split_tabs(s@.skip(i as int + 1));
                assert(split_tabs(s@.skip(i as int)) =~= seq![Seq::<u8>::empty()] + rest);
                assert(split_tabs(s@.skip(i as int))[0] =~= Seq::<u8>::empty());
                assert(prev_cur + Seq::<u8>::empty() =~= prev_cur);
                assert(bytes_views(fields@) =~= bytes_views(prev_fields).push(prev_cur));
                assert((seq![Seq::<u8>::empty()] + rest).skip(1) =~= rest);
                assert(cur@ + rest[0] =~= rest[0]);
                assert(split_tabs(s@) =~~= bytes_views(fields@) + seq![cur@ + rest[0]]
                    + rest.skip(1));
            }
        } else {
            let ghost prev_cur = cur@;
            cur.push(b);
            proof {
                let rest = split_tabs(s@.skip(i as int + 1));
                assert(split_tabs(s@.skip(i as int)) =~= seq![
                    seq![s@[i as int]] + rest[0],
                ] + rest.skip(1));
                assert(split_tabs(s@.skip(i as int))[0] =~= seq![s@[i as int]] + rest[0]);
                assert(prev_cur + (seq![s@[i as int]] + rest[0]) =~= cur@ + rest[0]);
                assert(split_tabs(s@.skip(i as int)).skip(1) =~= rest.skip(1));
                assert(split_tabs(s@) =~~= bytes_views(fields@) + seq![cur@ + rest[0]]
                    + rest.skip(1));
            }
        }
        i += 1;
    }
    proof {
        assert(s@.skip(s@.len() as int) =~= Seq::<u8>::empty());
        assert(split_tabs(Seq::<u8>::empty()) =~= seq![Seq::<u8>::empty()]);
        assert(cur@ + Seq::<u8>::empty() =~= cur@);
    }
    let ghost prev_fields = fields@;
    let ghost last_cur = cur@;
    fields.push(cur);
    proof {
        assert(bytes_views(fields@) =~= bytes_views(prev_fields).push(last_cur));
        assert(split_tabs(s@) =~~= bytes_views(fields@));
    }
    fields
}

/// Parses one tab-separated line as a fragment record, enforcing exactly four
/// or five fields and numeric coordinates.
pub fn parse_line(s: &[u8]) -> (r: Result<Fragment, ParseError>)
    ensures
        match spec_parse_line(s@) {
            Ok(fv) => r matches Ok(f) && f@ == fv,
            Err(e) => r matches Err(pe) && pe == e,
        },
{
    let fields = split_line(s);
    proof {
        assert(fields@.len() == split_tabs(s@).len());
    }
    if fields.len() != 4 && fields.len() != 5 {
        return Err(ParseError::WrongFieldCount);
    }
    let start = match parse_usize(fields[1].as_slice()) {
        Some(v) => v,
        None => {
            return Err(ParseError::BadNumber);
        },
    };
    let end = match parse_usize(fields[2].as_slice()) {
        Some(v) => v,
        None => {
            return Err(ParseError::BadNumber);
        },
    };
    let score = if fields.len() == 5 {
        match parse_usize(fields[4].as_slice()) {
            Some(v) => Some(v),
            None => {
                return Err(ParseError::BadNumber);
            },
        }
    } else {
        None
    };
    let chrom = copy_bytes(&fields[0]);
    let barcode = copy_bytes(&fields[3]);
    let f = Fragment { chrom, start, end, barcode, score };
    proof {
        assert(f@ =~= spec_parse_line(s@) ->Ok_0);
    }
    Ok(f)
}

impl Fragment {
    /// Parses one line given as text; fields are the maximal runs between
    /// tab bytes.
    pub fn new_from_string(s: &str) -> (r: Result<Fragment, ParseError>)
        ensures
            match spec_parse_line(s.spec_bytes()) {
                Ok(fv) => r matches Ok(f) && f@ == fv,
                Err(e) => r matches Err(pe) && pe == e,
            },
    {
        parse_line(s.as_bytes())
    }

    /// An equal copy of this record.
    pub fn duplicate(&self) -> (r: Fragment)
        ensures
            r@ == self@,
    {
        Fragment {
            chrom: copy_bytes(&self.chrom),
            start: self.start,
            end: self.end,
            barcode: copy_bytes(&self.barcode),
            score: self.score,
        }
    }
}

/// Renders a record as its tab-separated line, without a line terminator.
pub fn render(f: &Fragment) -> (r: Vec<u8>)
    ensures
        r@ == spec_render(f@),
{
    let mut out: Vec<u8> = Vec::new();
    push_bytes(&mut out, &f.chrom);
    out.push(9);
    let d1 = render_usize(f.start);
    push_bytes(&mut out, &d1);
    out.push(9);
    let d2 = render_usize(f.end);
    push_bytes(&mut out, &d2);
    out.push(9);
    push_bytes(&mut out, &f.barcode);
    match f.score {
        Some(v) => {
            out.push(9);
            let d3 = render_usize(v);
            push_bytes(&mut out, &d3);
            proof {
                assert(out@ =~= spec_render(f@));
            }
        },
        None => {
            proof {
                assert(out@ =~= spec_render(f@));
            }
        },
    }
    out
}

} // verus!
