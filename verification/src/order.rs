//! Byte-wise lexicographic ordering of byte strings, and the ordering key of
//! fragment records built from it.

use vstd::prelude::*;

use crate::record::{FragV, Fragment};

verus! {

/// Result of a three-way comparison.
#[derive(PartialEq, Eq, Structural, Clone, Copy, Debug)]
pub enum Rel {
    Less,
    Equal,
    Greater,
}

/// Strict byte-wise lexicographic order: `a` comes strictly before `b`.
pub open spec fn bytes_lt(a: Seq<u8>, b: Seq<u8>) -> bool
    decreases a.len(),
{
    if b.len() == 0 {
        false
    } else if a.len() == 0 {
        true
    } else if a[0] != b[0] {
        a[0] < b[0]
    } else {
        bytes_lt(a.skip(1), b.skip(1))
    }
}

/// Byte-wise lexicographic order, allowing equality.
pub open spec fn bytes_le(a: Seq<u8>, b: Seq<u8>) -> bool {
    bytes_lt(a, b) || a == b
}

pub proof fn lemma_bytes_lt_irrefl(a: Seq<u8>)
    ensures
        !bytes_lt(a, a),
    decreases a.len(),
{
    if a.len() > 0 {
        lemma_bytes_lt_irrefl(a.skip(1));
    }
}

pub proof fn lemma_bytes_lt_total(a: Seq<u8>, b: Seq<u8>)
    ensures
        bytes_lt(a, b) || bytes_lt(b, a) || a == b,
    decreases a.len(),
{
    if a.len() == 0 && b.len() == 0 {
        assert(a =~= b);
    } else if a.len() > 0 && b.len() > 0 && a[0] == b[0] {
        lemma_bytes_lt_total(a.skip(1), b.skip(1));
        if !bytes_lt(a, b) && !bytes_lt(b, a) {
            assert(a.skip(1) == b.skip(1));
            assert forall|i: int| 0 <= i < a.len() implies a[i] == b[i] by {
                if i > 0 {
                    assert(a[i] == a.skip(1)[i - 1]);
                    assert(b[i] == b.skip(1)[i - 1]);
                }
            }
            assert(a =~= b);
        }
    }
}

pub proof fn lemma_bytes_lt_trans(a: Seq<u8>, b: Seq<u8>, c: Seq<u8>)
    requires
        bytes_lt(a, b),
        bytes_lt(b, c),
    ensures
        bytes_lt(a, c),
    decreases a.len(),
{
    if a.len() > 0 && b.len() > 0 && c.len() > 0 && a[0] == b[0] && b[0] == c[0] {
        lemma_bytes_lt_trans(a.skip(1), b.skip(1), c.skip(1));
    }
}

pub proof fn lemma_bytes_lt_asym(a: Seq<u8>, b: Seq<u8>)
    requires
        bytes_lt(a, b),
    ensures
        !bytes_lt(b, a),
{
    if bytes_lt(b, a) {
        lemma_bytes_lt_trans(a, b, a);
        lemma_bytes_lt_irrefl(a);
    }
}

/// If `a` and `b` agree on their first `i` bytes, their order is decided by
/// what follows.
proof fn lemma_bytes_lt_common(a: Seq<u8>, b: Seq<u8>, i: int)
    requires
        0 <= i <= a.len(),
        i <= b.len(),
        forall|j: int| 0 <= j < i ==> a[j] == b[j],
    ensures
        bytes_lt(a, b) == bytes_lt(a.skip(i), b.skip(i)),
    decreases i,
{
    if i > 0 {
        assert(a[0] == b[0]);
        assert forall|j: int| 0 <= j < i - 1 implies a.skip(1)[j] == b.skip(1)[j] by {
            assert(a.skip(1)[j] == a[j + 1]);
            assert(b.skip(1)[j] == b[j + 1]);
        }
        lemma_bytes_lt_common(a.skip(1), b.skip(1), i - 1);
        assert(a.skip(1).skip(i - 1) =~= a.skip(i));
        assert(b.skip(1).skip(i - 1) =~= b.skip(i));
    } else {
        assert(a.skip(0) =~= a);
        assert(b.skip(0) =~= b);
    }
}

/// Three-way byte-wise lexicographic comparison.
pub fn bytes_compare(a: &Vec<u8>, b: &Vec<u8>) -> (r: Rel)
    ensures
        (r == Rel::Less) == bytes_lt(a@, b@),
        (r == Rel::Equal) == (a@ == b@),
        (r == Rel::Greater) == bytes_lt(b@, a@),
{
    let n = if a.len() < b.len() {
        a.len()
    } else {
        b.len()
    };
    let mut i: usize = 0;
    while i < n
        invariant
            0 <= i <= n,
            n <= a@.len(),
            n <= b@.len(),
            n == a@.len() || n == b@.len(),
            forall|j: int| 0 <= j < i ==> a@[j] == b@[j],
        decreases n - i,
    {
        let x = a[i];
        let y = b[i];
        if x < y {
            proof {
                lemma_bytes_lt_common(a@, b@, i as int);
                lemma_bytes_lt_common(b@, a@, i as int);
                assert(a@.skip(i as int)[0] == a@[i as int]);
                assert(b@.skip(i as int)[0] == b@[i as int]);
                assert(bytes_lt(a@, b@));
                assert(a@[i as int] != b@[i as int]);
                assert(a@ != b@);
            }
            return Rel::Less;
        } else if x > y {
            proof {
                lemma_bytes_lt_common(a@, b@, i as int);
                lemma_bytes_lt_common(b@, a@, i as int);
                assert(a@.skip(i as int)[0] == a@[i as int]);
                assert(b@.skip(i as int)[0] == b@[i as int]);
                assert(bytes_lt(b@, a@));
                assert(a@ != b@);
            }
            return Rel::Greater;
        }
        i += 1;
    }
    proof {
        lemma_bytes_lt_common(a@, b@, n as int);
        lemma_bytes_lt_common(b@, a@, n as int);
    }
    if a.len() < b.len() {
        proof {
            assert(a@.skip(n as int).len() == 0);
            assert(b@.skip(n as int).len() > 0);
            assert(a@.len() != b@.len());
        }
        Rel::Less
    } else if b.len() < a.len() {
        proof {
            assert(b@.skip(n as int).len() == 0);
            assert(a@.skip(n as int).len() > 0);
        }
        Rel::Greater
    } else {
        proof {
            assert(a@ =~= b@);
            lemma_bytes_lt_irrefl(a@);
        }
        Rel::Equal
    }
}

/// The ordering key `(chromosome, start, end, barcode)` of a record, strictly:
/// chromosome in byte-wise lexicographic order, then numeric start, then
/// numeric end, then barcode in byte-wise lexicographic order.  The score
/// takes no part in the order.
pub open spec fn key_lt(a: FragV, b: FragV) -> bool {
    bytes_lt(a.chrom, b.chrom) || (a.chrom == b.chrom && (a.start < b.start || (a.start == b.start
        && (a.end < b.end || (a.end == b.end && bytes_lt(a.barcode, b.barcode))))))
}

/// Equality of ordering keys; records that differ only in score are tied.
pub open spec fn key_eq(a: FragV, b: FragV) -> bool {
    a.chrom == b.chrom && a.start == b.start && a.end == b.end && a.barcode == b.barcode
}

pub open spec fn key_le(a: FragV, b: FragV) -> bool {
    key_lt(a, b) || key_eq(a, b)
}

/// The merge order over `(record, source index)`: ties in the ordering key
/// break by the index of the stream the record came from.
pub open spec fn tag_lt(a: FragV, sa: int, b: FragV, sb: int) -> bool {
    key_lt(a, b) || (key_eq(a, b) && sa < sb)
}

pub open spec fn tag_le(a: FragV, sa: int, b: FragV, sb: int) -> bool {
    key_lt(a, b) || (key_eq(a, b) && sa <= sb)
}

/// The coordinate order `(chromosome, start, end)`: the ordering key with
/// the barcode left out.  Coarser than `key_le`: whatever the full key
/// orders, this orders too.
pub open spec fn coord_le(a: FragV, b: FragV) -> bool {
    bytes_lt(a.chrom, b.chrom) || (a.chrom == b.chrom && (a.start < b.start || (a.start == b.start
        && a.end <= b.end)))
}

pub proof fn lemma_coord_le_trans(a: FragV, b: FragV, c: FragV)
    requires
        coord_le(a, b),
        coord_le(b, c),
    ensures
        coord_le(a, c),
{
    if bytes_lt(a.chrom, b.chrom) && bytes_lt(b.chrom, c.chrom) {
        lemma_bytes_lt_trans(a.chrom, b.chrom, c.chrom);
    }
}

/// The merge order refines the coordinate order.
pub proof fn lemma_tag_le_coord(a: FragV, sa: int, b: FragV, sb: int)
    requires
        tag_le(a, sa, b, sb),
    ensures
        coord_le(a, b),
{
}

pub proof fn lemma_key_lt_trans(a: FragV, b: FragV, c: FragV)
    requires
        key_lt(a, b),
        key_lt(b, c),
    ensures
        key_lt(a, c),
{
    if bytes_lt(a.chrom, b.chrom) && bytes_lt(b.chrom, c.chrom) {
        lemma_bytes_lt_trans(a.chrom, b.chrom, c.chrom);
    } else if a.chrom == b.chrom && a.start == b.start && a.end == b.end && b.chrom == c.chrom
        && b.start == c.start && b.end == c.end {
        if bytes_lt(a.barcode, b.barcode) && bytes_lt(b.barcode, c.barcode) {
            lemma_bytes_lt_trans(a.barcode, b.barcode, c.barcode);
        }
    }
}

pub proof fn lemma_key_total(a: FragV, b: FragV)
    ensures
        key_lt(a, b) || key_lt(b, a) || key_eq(a, b),
{
    lemma_bytes_lt_total(a.chrom, b.chrom);
    lemma_bytes_lt_total(a.barcode, b.barcode);
}

pub proof fn lemma_key_lt_le_trans(a: FragV, b: FragV, c: FragV)
    requires
        key_lt(a, b),
        key_le(b, c),
    ensures
        key_lt(a, c),
{
    if key_lt(b, c) {
        lemma_key_lt_trans(a, b, c);
    }
}

/// The merge order is connected: two tagged records always compare.
pub proof fn lemma_tag_connex(a: FragV, sa: int, b: FragV, sb: int)
    ensures
        tag_lt(a, sa, b, sb) || tag_le(b, sb, a, sa),
{
    lemma_key_total(a, b);
}

pub proof fn lemma_tag_le_trans(a: FragV, sa: int, b: FragV, sb: int, c: FragV, sc: int)
    requires
        tag_le(a, sa, b, sb),
        tag_le(b, sb, c, sc),
    ensures
        tag_le(a, sa, c, sc),
{
    if key_lt(a, b) && key_lt(b, c) {
        lemma_key_lt_trans(a, b, c);
    }
}

/// Three-way comparison of records under the ordering key.  `Rel::Equal`
/// means equal keys: the scores may still differ.
pub fn key_compare(a: &Fragment, b: &Fragment) -> (r: Rel)
    ensures
        (r == Rel::Less) == key_lt(a@, b@),
        (r == Rel::Equal) == key_eq(a@, b@),
        (r == Rel::Greater) == key_lt(b@, a@),
{
    let c = bytes_compare(&a.chrom, &b.chrom);
    if c != Rel::Equal {
        proof {
            if c == Rel::Less {
                lemma_bytes_lt_asym(a@.chrom, b@.chrom);
            } else {
                lemma_bytes_lt_asym(b@.chrom, a@.chrom);
            }
        }
        return c;
    }
    if a.start < b.start {
        return Rel::Less;
    }
    if a.start > b.start {
        return Rel::Greater;
    }
    if a.end < b.end {
        return Rel::Less;
    }
    if a.end > b.end {
        return Rel::Greater;
    }
    let d = bytes_compare(&a.barcode, &b.barcode);
    proof {
        if d == Rel::Less {
            lemma_bytes_lt_asym(a@.barcode, b@.barcode);
        } else if d == Rel::Greater {
            lemma_bytes_lt_asym(b@.barcode, a@.barcode);
        }
    }
    d
}

/// Decides `tag_lt` on `(record, source index)` pairs.
pub fn tag_before(a: &Fragment, sa: usize, b: &Fragment, sb: usize) -> (r: bool)
    ensures
        r == tag_lt(a@, sa as int, b@, sb as int),
{
    match key_compare(a, b) {
        Rel::Less => true,
        Rel::Equal => sa < sb,
        Rel::Greater => {
            proof {
                lemma_key_total(a@, b@);
            }
            false
        },
    }
}

} // verus!
