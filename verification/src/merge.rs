//! K-way merge of sorted fragment streams.
//!
//! The engine holds one lookahead record per input stream and repeatedly
//! emits the least of them under the ordering key, breaking ties by the
//! stream's index so that equal records keep their source order.

use vstd::prelude::*;
use vstd::multiset::Multiset;

use crate::order::{
    coord_le, key_le, key_lt, lemma_coord_le_trans, lemma_key_lt_le_trans, lemma_tag_connex,
    lemma_tag_le_coord, lemma_tag_le_trans, tag_before, tag_le,
};
use crate::record::{
    bytes_views, is_header, parse_line, render, spec_parse_line, spec_render, stream_views, FragV,
    Fragment,
};

verus! {

/// Mathematical model of a merge emission: a record and the index of the
/// stream it came from.
#[verifier::ext_equal]
pub struct EntryV {
    pub frag: FragV,
    pub src: int,
}

/// A merge emission: a record tagged with the index of the input stream that
/// produced it.
#[derive(Debug, PartialEq, Eq)]
pub struct Entry {
    pub frag: Fragment,
    pub src: usize,
}

impl View for Entry {
    type V = EntryV;

    open spec fn view(&self) -> EntryV {
        EntryV { frag: self.frag@, src: self.src as int }
    }
}

pub open spec fn entry_views(v: Seq<Entry>) -> Seq<EntryV> {
    Seq::new(v.len(), |i: int| v[i]@)
}

pub open spec fn frag_views(v: Seq<Fragment>) -> Seq<FragV> {
    Seq::new(v.len(), |i: int| v[i]@)
}

pub open spec fn input_views(v: Seq<Vec<Fragment>>) -> Seq<Seq<FragV>> {
    Seq::new(v.len(), |i: int| frag_views(v[i]@))
}

/// The subsequence of merged emissions that came from stream `k`.
pub open spec fn proj(s: Seq<EntryV>, k: int) -> Seq<FragV>
    decreases s.len(),
{
    if s.len() == 0 {
        Seq::empty()
    } else if s.last().src == k {
        proj(s.drop_last(), k).push(s.last().frag)
    } else {
        proj(s.drop_last(), k)
    }
}

pub proof fn lemma_proj_push(s: Seq<EntryV>, e: EntryV, k: int)
    ensures
        proj(s.push(e), k) == if e.src == k {
            proj(s, k).push(e.frag)
        } else {
            proj(s, k)
        },
{
    assert(s.push(e).drop_last() =~= s);
    assert(s.push(e).last() == e);
}

/// A stream sorted by the ordering key.
pub open spec fn sorted_frags(s: Seq<FragV>) -> bool {
    forall|i: int, j: int| #![trigger s[i], s[j]] 0 <= i < j < s.len() ==> key_le(s[i], s[j])
}

pub open spec fn all_sorted(inputsv: Seq<Seq<FragV>>) -> bool {
    forall|k: int| 0 <= k < inputsv.len() ==> sorted_frags(#[trigger] inputsv[k])
}

/// Emissions are sorted by the ordering key, and emissions with equal keys
/// keep the order of their source streams.
pub open spec fn sorted_stable(outv: Seq<EntryV>) -> bool {
    forall|i: int, j: int| #![trigger outv[i], outv[j]]
        0 <= i < j < outv.len() ==> tag_le(outv[i].frag, outv[i].src, outv[j].frag, outv[j].src)
}

/// A stream ordered by coordinates `(chromosome, start, end)` alone, the
/// least each input must guarantee.
pub open spec fn coord_sorted_frags(s: Seq<FragV>) -> bool {
    forall|i: int, j: int| #![trigger s[i], s[j]] 0 <= i < j < s.len() ==> coord_le(s[i], s[j])
}

pub open spec fn all_coord_sorted(inputsv: Seq<Seq<FragV>>) -> bool {
    forall|k: int| 0 <= k < inputsv.len() ==> coord_sorted_frags(#[trigger] inputsv[k])
}

/// Emissions ordered by coordinates `(chromosome, start, end)`.
pub open spec fn coord_sorted_out(outv: Seq<EntryV>) -> bool {
    forall|i: int, j: int| #![trigger outv[i], outv[j]]
        0 <= i < j < outv.len() ==> coord_le(outv[i].frag, outv[j].frag)
}

/// The merged output carries each input stream, in order, as the subsequence
/// of emissions tagged with that stream's index: nothing is lost, nothing is
/// invented, multiplicity included.
pub open spec fn merge_complete(outv: Seq<EntryV>, inputsv: Seq<Seq<FragV>>) -> bool {
    &&& forall|j: int| 0 <= j < outv.len() ==> 0 <= #[trigger] outv[j].src < inputsv.len()
    &&& forall|k: int| 0 <= k < inputsv.len() ==> proj(outv, k) == #[trigger] inputsv[k]
}

/// Sum of `f(0) + ... + f(n-1)`.
pub open spec fn sum_fn(f: spec_fn(int) -> int, n: int) -> int
    decreases n,
{
    if n <= 0 {
        0
    } else {
        sum_fn(f, n - 1) + f(n - 1)
    }
}

proof fn lemma_sum_zero(f: spec_fn(int) -> int, n: int)
    requires
        forall|k: int| 0 <= k < n ==> #[trigger] f(k) == 0,
    ensures
        sum_fn(f, n) == 0,
    decreases n,
{
    if n > 0 {
        lemma_sum_zero(f, n - 1);
    }
}

proof fn lemma_sum_except(f: spec_fn(int) -> int, g: spec_fn(int) -> int, n: int, k0: int, d: int)
    requires
        0 <= k0 < n,
        forall|k: int| 0 <= k < n && k != k0 ==> #[trigger] f(k) == g(k),
        f(k0) == g(k0) + d,
    ensures
        sum_fn(f, n) == sum_fn(g, n) + d,
    decreases n,
{
    if k0 == n - 1 {
        lemma_sum_eq(f, g, n - 1);
    } else {
        lemma_sum_except(f, g, n - 1, k0, d);
    }
}

proof fn lemma_sum_eq(f: spec_fn(int) -> int, g: spec_fn(int) -> int, n: int)
    requires
        forall|k: int| 0 <= k < n ==> #[trigger] f(k) == g(k),
    ensures
        sum_fn(f, n) == sum_fn(g, n),
    decreases n,
{
    if n > 0 {
        lemma_sum_eq(f, g, n - 1);
    }
}

proof fn lemma_sum_le(f: spec_fn(int) -> int, g: spec_fn(int) -> int, n: int)
    requires
        forall|k: int| 0 <= k < n ==> #[trigger] f(k) <= g(k),
    ensures
        sum_fn(f, n) <= sum_fn(g, n),
    decreases n,
{
    if n > 0 {
        lemma_sum_le(f, g, n - 1);
    }
}

proof fn lemma_sum_lt(f: spec_fn(int) -> int, g: spec_fn(int) -> int, n: int, k0: int)
    requires
        0 <= k0 < n,
        forall|k: int| 0 <= k < n ==> #[trigger] f(k) <= g(k),
        f(k0) < g(k0),
    ensures
        sum_fn(f, n) < sum_fn(g, n),
    decreases n,
{
    if k0 == n - 1 {
        lemma_sum_le(f, g, n - 1);
    } else {
        lemma_sum_lt(f, g, n - 1, k0);
    }
}

/// The merge engine's lookahead table: at most one queued record per input
/// stream, popped in merge order.
pub struct MergeQueue {
    slots: Vec<Option<Fragment>>,
}

impl MergeQueue {
    /// The number of streams the queue was made for.
    pub closed spec fn width(&self) -> int {
        self.slots@.len() as int
    }

    /// The lookahead record of stream `k`, if one is queued.
    pub closed spec fn slot(&self, k: int) -> Option<FragV> {
        match self.slots@[k] {
            Some(f) => Some(f@),
            None => None,
        }
    }

    pub fn new(n: usize) -> (q: MergeQueue)
        ensures
            q.width() == n,
            forall|k: int| 0 <= k < n ==> q.slot(k) is None,
    {
        let mut slots: Vec<Option<Fragment>> = Vec::new();
        let mut i: usize = 0;
        while i < n
            invariant
                0 <= i <= n,
                slots@.len() == i,
                forall|k: int| 0 <= k < i ==> slots@[k] is None,
            decreases n - i,
        {
            slots.push(None);
            i += 1;
        }
        MergeQueue { slots }
    }

    /// Queues the lookahead record of stream `src`, whose slot must be free.
    pub fn insert(&mut self, src: usize, frag: Fragment)
        requires
            src < old(self).width(),
            old(self).slot(src as int) is None,
        ensures
            final(self).width() == old(self).width(),
            final(self).slot(src as int) == Some(frag@),
            forall|k: int|
                0 <= k < old(self).width() && k != src ==> final(self).slot(k) == old(self).slot(
                    k,
                ),
    {
        let ghost prev = self.slots@;
        self.slots[src] = Some(frag);
        proof {
            assert(self.slots@ =~= prev.update(src as int, Some(frag)));
        }
    }

    /// Removes and returns the least queued record under the merge order:
    /// least ordering key, ties broken by the least stream index.  Returns
    /// `None` exactly when nothing is queued.
    pub fn pop_min(&mut self) -> (r: Option<Entry>)
        ensures
            final(self).width() == old(self).width(),
            (r is None) == (forall|k: int| 0 <= k < old(self).width() ==> old(self).slot(k) is None),
            r is None ==> *final(self) == *old(self),
            r matches Some(e) ==> {
                &&& 0 <= e.src < old(self).width()
                &&& old(self).slot(e.src as int) == Some(e.frag@)
                &&& final(self).slot(e.src as int) is None
                &&& forall|k: int|
                    0 <= k < old(self).width() && k != e.src ==> final(self).slot(k) == old(
                        self,
                    ).slot(k)
                &&& forall|k: int|
                    0 <= k < old(self).width() && k != e.src && old(self).slot(k) is Some
                        ==> tag_le(e.frag@, e.src as int, old(self).slot(k)->Some_0, k)
            },
    {
        let n = self.slots.len();
        let mut best: usize = 0;
        let mut found = false;
        let mut k: usize = 0;
        while k < n
            invariant
                0 <= k <= n,
                n == self.width(),
                !found ==> forall|j: int| 0 <= j < k ==> self.slot(j) is None,
                found ==> best < k && self.slot(best as int) is Some,
                found ==> forall|j: int|
                    0 <= j < k && j != best && self.slot(j) is Some ==> tag_le(
                        self.slot(best as int)->Some_0,
                        best as int,
                        self.slot(j)->Some_0,
                        j,
                    ),
            decreases n - k,
        {
            let take_it: bool = match (&self.slots[k], found) {
                (Some(_), false) => true,
                (Some(cand), true) => {
                    let cur = match &self.slots[best] {
                        Some(c) => c,
                        None => {
                            // unreachable: a found best slot is occupied
                            proof {
                                assert(false);
                            }
                            cand
                        },
                    };
                    let before = tag_before(cand, k, cur, best);
                    proof {
                        if !before {
                            lemma_tag_connex(cand@, k as int, cur@, best as int);
                        }
                    }
                    before
                },
                (None, _) => false,
            };
            if take_it {
                proof {
                    if found {
                        let bv = self.slot(best as int)->Some_0;
                        let cv = self.slot(k as int)->Some_0;
                        assert forall|j: int|
                            0 <= j < k + 1 && j != k && self.slot(j) is Some implies tag_le(
                            cv,
                            k as int,
                            self.slot(j)->Some_0,
                            j,
                        ) by {
                            if j != best {
                                lemma_tag_le_trans(
                                    cv,
                                    k as int,
                                    bv,
                                    best as int,
                                    self.slot(j)->Some_0,
                                    j,
                                );
                            }
                        }
                    }
                }
                best = k;
                found = true;
            }
            k += 1;
        }
        if !found {
            return None;
        }
        let ghost prev = self.slots@;
        self.slots.push(None);
        let taken = self.slots.swap_remove(best);
        proof {
            assert(self.slots@ =~= prev.update(best as int, None));
        }
        match taken {
            Some(frag) => Some(Entry { frag, src: best }),
            None => {
                // unreachable: the chosen slot was seen to be occupied
                proof {
                    assert(false);
                }
                None
            },
        }
    }
}

/// The engine's bookkeeping: each stream's slot holds exactly its next
/// unemitted record, and the emissions so far are exactly the records before
/// that position, in order.
pub open spec fn queue_tracks(
    q: MergeQueue,
    inputsv: Seq<Seq<FragV>>,
    posv: Seq<usize>,
    outv: Seq<EntryV>,
) -> bool {
    forall|k: int|
        0 <= k < inputsv.len() ==> match #[trigger] q.slot(k) {
            Some(f) => {
                &&& 1 <= posv[k] <= inputsv[k].len()
                &&& f == inputsv[k][posv[k] - 1]
                &&& proj(outv, k) == inputsv[k].take(posv[k] - 1)
            },
            None => {
                &&& posv[k] == inputsv[k].len()
                &&& proj(outv, k) == inputsv[k].take(posv[k] as int)
            },
        }
}

/// Every emission so far precedes, in merge order, everything still queued.
pub open spec fn queue_dominated(outv: Seq<EntryV>, q: MergeQueue, n: int) -> bool {
    forall|j: int, k: int| #![trigger outv[j], q.slot(k)]
        0 <= j < outv.len() && 0 <= k < n && q.slot(k) is Some ==> tag_le(
            outv[j].frag,
            outv[j].src,
            q.slot(k)->Some_0,
            k,
        )
}

/// Every emission so far precedes, in coordinate order, everything still
/// queued.
pub open spec fn queue_coord_dominated(outv: Seq<EntryV>, q: MergeQueue, n: int) -> bool {
    forall|j: int, k: int| #![trigger outv[j], q.slot(k)]
        0 <= j < outv.len() && 0 <= k < n && q.slot(k) is Some ==> coord_le(
            outv[j].frag,
            q.slot(k)->Some_0,
        )
}

/// Merges the given streams into one emission sequence.
///
/// Unconditionally, the output interleaves exactly the input streams: the
/// emissions tagged with stream `k`, in order, are precisely stream `k`.
/// When every input is sorted by the ordering key, the output is sorted by
/// it as well, and emissions with equal keys appear in stream order, so the
/// merge is total and stable.  When every input is sorted merely by the
/// coordinates `(chromosome, start, end)`, the output is still sorted by
/// those coordinates.
pub fn merge_core(inputs: &Vec<Vec<Fragment>>) -> (out: Vec<Entry>)
    ensures
        merge_complete(entry_views(out@), input_views(inputs@)),
        all_sorted(input_views(inputs@)) ==> sorted_stable(entry_views(out@)),
        all_coord_sorted(input_views(inputs@)) ==> coord_sorted_out(entry_views(out@)),
{
    let ghost iv = input_views(inputs@);
    let n = inputs.len();
    let mut q = MergeQueue::new(n);
    let mut pos: Vec<usize> = Vec::new();
    let mut i: usize = 0;
    while i < n
        invariant
            0 <= i <= n,
            pos@.len() == i,
            forall|j: int| 0 <= j < i ==> pos@[j] == 0,
        decreases n - i,
    {
        pos.push(0);
        i += 1;
    }
    let mut k: usize = 0;
    while k < n
        invariant
            0 <= k <= n,
            n == inputs@.len(),
            iv == input_views(inputs@),
            q.width() == n,
            pos@.len() == n,
            forall|j: int|
                0 <= j < k ==> match #[trigger] q.slot(j) {
                    Some(f) => pos@[j] == 1 && iv[j].len() >= 1 && f == iv[j][0],
                    None => pos@[j] == 0 && iv[j].len() == 0,
                },
            forall|j: int| k <= j < n ==> #[trigger] q.slot(j) is None && pos@[j] == 0,
        decreases n - k,
    {
        if inputs[k].len() > 0 {
            let f = inputs[k][0].duplicate();
            q.insert(k, f);
            pos[k] = 1;
        }
        k += 1;
    }
    let mut out: Vec<Entry> = Vec::new();
    let mut done = false;
    proof {
        assert forall|k2: int| 0 <= k2 < n implies proj(entry_views(out@), k2)
            == Seq::<FragV>::empty() by {
            assert(entry_views(out@).len() == 0);
        }
        assert forall|k2: int| 0 <= k2 < n implies match #[trigger] q.slot(k2) {
            Some(f) => {
                &&& 1 <= pos@[k2] <= iv[k2].len()
                &&& f == iv[k2][pos@[k2] - 1]
                &&& proj(entry_views(out@), k2) == iv[k2].take(pos@[k2] - 1)
            },
            None => {
                &&& pos@[k2] == iv[k2].len()
                &&& proj(entry_views(out@), k2) == iv[k2].take(pos@[k2] as int)
            },
        } by {
            assert(proj(entry_views(out@), k2) == Seq::<FragV>::empty());
            if q.slot(k2) is Some {
                assert(iv[k2].take(0) =~= Seq::<FragV>::empty());
            } else {
                assert(iv[k2].take(iv[k2].len() as int) =~= iv[k2]);
                assert(iv[k2].take(pos@[k2] as int) =~= Seq::<FragV>::empty());
            }
        }
        lemma_sum_zero(
            |k2: int| proj(entry_views(out@), k2).len() as int,
            n as int,
        );
        lemma_sum_le(
            |k2: int| proj(entry_views(out@), k2).len() as int,
            |k2: int| iv[k2].len() as int,
            n as int,
        );
    }
    while !done
        invariant
            n == inputs@.len(),
            iv == input_views(inputs@),
            q.width() == n,
            pos@.len() == n,
            queue_tracks(q, iv, pos@, entry_views(out@)),
            forall|j: int| 0 <= j < out@.len() ==> 0 <= #[trigger] entry_views(out@)[j].src < n,
            out@.len() as int == sum_fn(
                |k2: int| proj(entry_views(out@), k2).len() as int,
                n as int,
            ),
            out@.len() as int <= sum_fn(|k2: int| iv[k2].len() as int, n as int),
            all_sorted(iv) ==> sorted_stable(entry_views(out@)) && queue_dominated(
                entry_views(out@),
                q,
                n as int,
            ),
            all_coord_sorted(iv) ==> coord_sorted_out(entry_views(out@)) && queue_coord_dominated(
                entry_views(out@),
                q,
                n as int,
            ),
            done ==> forall|k2: int| 0 <= k2 < n ==> q.slot(k2) is None,
        decreases
                sum_fn(|k2: int| iv[k2].len() as int, n as int) - out@.len() + (if done {
                    0int
                } else {
                    1int
                }),
    {
        let ghost q0 = q;
        let ghost pos0 = pos@;
        let ghost ov0 = entry_views(out@);
        match q.pop_min() {
            None => {
                done = true;
            },
            Some(e) => {
                let ke = e.src;
                let ghost ev = e@;
                proof {
                    assert(q0.slot(ke as int) == Some(ev.frag));
                    let pk = pos@[ke as int] as int;
                    let stream = iv[ke as int];
                    assert(1 <= pk <= stream.len());
                    assert(ev.frag == stream[pk - 1]);
                    assert(proj(ov0, ke as int) == stream.take(pk - 1));
                }
                out.push(e);
                proof {
                    assert(entry_views(out@) =~= ov0.push(ev));
                    assert forall|k2: int| 0 <= k2 < n implies proj(entry_views(out@), k2) == (
                    if k2 == ke as int {
                        proj(ov0, k2).push(ev.frag)
                    } else {
                        proj(ov0, k2)
                    }) by {
                        lemma_proj_push(ov0, ev, k2);
                    }
                }
                let p = pos[ke];
                if p < inputs[ke].len() {
                    let f = inputs[ke][p].duplicate();
                    q.insert(ke, f);
                    pos[ke] = p + 1;
                    proof {
                        assert(iv[ke as int].take(p as int) =~= iv[ke as int].take(
                            p - 1,
                        ).push(iv[ke as int][p - 1]));
                    }
                } else {
                    proof {
                        assert(iv[ke as int].take(p as int) =~= iv[ke as int].take(
                            p - 1,
                        ).push(iv[ke as int][p - 1]));
                    }
                }
                proof {
                    let ov1 = entry_views(out@);
                    lemma_sum_except(
                        |k2: int| proj(ov1, k2).len() as int,
                        |k2: int| proj(ov0, k2).len() as int,
                        n as int,
                        ke as int,
                        1,
                    );
                    assert forall|k2: int| 0 <= k2 < n implies proj(ov1, k2).len() as int
                        <= iv[k2].len() as int by {
                        let s0 = q0.slot(k2);
                        if s0 is Some {
                            assert(proj(ov0, k2) == iv[k2].take(pos0[k2] - 1));
                        } else {
                            assert(proj(ov0, k2) == iv[k2].take(pos0[k2] as int));
                        }
                        if k2 == ke as int {
                            assert(proj(ov1, k2) == proj(ov0, k2).push(ev.frag));
                        }
                    }
                    lemma_sum_le(
                        |k2: int| proj(ov1, k2).len() as int,
                        |k2: int| iv[k2].len() as int,
                        n as int,
                    );
                    if all_sorted(iv) {
                        assert(sorted_frags(iv[ke as int]));
                        // older emissions precede the new one: it was queued
                        assert forall|j: int| 0 <= j < ov0.len() implies tag_le(
                            ov0[j].frag,
                            ov0[j].src,
                            ev.frag,
                            ev.src,
                        ) by {
                            assert(q0.slot(ke as int) is Some);
                        }
                        // the new emission precedes everything still queued
                        assert forall|j: int, k2: int|
                            #![trigger ov1[j], q.slot(k2)]
                            0 <= j < ov1.len() && 0 <= k2 < n && q.slot(k2) is Some implies tag_le(
                            ov1[j].frag,
                            ov1[j].src,
                            q.slot(k2)->Some_0,
                            k2,
                        ) by {
                            let g = q.slot(k2)->Some_0;
                            if k2 == ke as int {
                                // the slot was refilled from the same stream
                                assert(g == iv[ke as int][p as int]);
                                assert(key_le(ev.frag, g));
                                if j < ov0.len() {
                                    assert(ov1[j] == ov0[j]);
                                    assert(tag_le(ov0[j].frag, ov0[j].src, ev.frag, ke as int));
                                    if key_lt(ov0[j].frag, ev.frag) {
                                        lemma_key_lt_le_trans(ov0[j].frag, ev.frag, g);
                                    }
                                } else {
                                    assert(ov1[j] == ev);
                                }
                            } else {
                                assert(q0.slot(k2) == q.slot(k2));
                                if j < ov0.len() {
                                    assert(ov1[j] == ov0[j]);
                                } else {
                                    assert(ov1[j] == ev);
                                    assert(tag_le(ev.frag, ev.src, g, k2));
                                }
                            }
                        }
                        assert(sorted_stable(ov1)) by {
                            assert forall|x: int, y: int|
                                #![trigger ov1[x], ov1[y]]
                                0 <= x < y < ov1.len() implies tag_le(
                                ov1[x].frag,
                                ov1[x].src,
                                ov1[y].frag,
                                ov1[y].src,
                            ) by {
                                if y < ov0.len() {
                                    assert(ov1[x] == ov0[x]);
                                    assert(ov1[y] == ov0[y]);
                                } else {
                                    assert(ov1[y] == ev);
                                    assert(ov1[x] == ov0[x]);
                                }
                            }
                        }
                    }
                    if all_coord_sorted(iv) {
                        assert(coord_sorted_frags(iv[ke as int]));
                        // older emissions coordinate-precede the new one
                        assert forall|j: int| 0 <= j < ov0.len() implies coord_le(
                            ov0[j].frag,
                            ev.frag,
                        ) by {
                            assert(q0.slot(ke as int) is Some);
                        }
                        // the new emission coordinate-precedes what is queued
                        assert forall|j: int, k2: int|
                            #![trigger ov1[j], q.slot(k2)]
                            0 <= j < ov1.len() && 0 <= k2 < n && q.slot(k2) is Some implies coord_le(
                            ov1[j].frag,
                            q.slot(k2)->Some_0,
                        ) by {
                            let g = q.slot(k2)->Some_0;
                            if k2 == ke as int {
                                assert(g == iv[ke as int][p as int]);
                                assert(coord_le(ev.frag, g));
                                if j < ov0.len() {
                                    assert(ov1[j] == ov0[j]);
                                    assert(coord_le(ov0[j].frag, ev.frag));
                                    lemma_coord_le_trans(ov0[j].frag, ev.frag, g);
                                } else {
                                    assert(ov1[j] == ev);
                                }
                            } else {
                                assert(q0.slot(k2) == q.slot(k2));
                                if j < ov0.len() {
                                    assert(ov1[j] == ov0[j]);
                                } else {
                                    assert(ov1[j] == ev);
                                    assert(tag_le(ev.frag, ev.src, g, k2));
                                    lemma_tag_le_coord(ev.frag, ev.src, g, k2);
                                }
                            }
                        }
                        assert(coord_sorted_out(ov1)) by {
                            assert forall|x: int, y: int|
                                #![trigger ov1[x], ov1[y]]
                                0 <= x < y < ov1.len() implies coord_le(
                                ov1[x].frag,
                                ov1[y].frag,
                            ) by {
                                if y < ov0.len() {
                                    assert(ov1[x] == ov0[x]);
                                    assert(ov1[y] == ov0[y]);
                                } else {
                                    assert(ov1[y] == ev);
                                    assert(ov1[x] == ov0[x]);
                                }
                            }
                        }
                    }
                }
            },
        }
    }
    proof {
        let ov = entry_views(out@);
        assert forall|k2: int| 0 <= k2 < iv.len() implies proj(ov, k2) == iv[k2] by {
            assert(q.slot(k2) is None);
            assert(iv[k2].take(iv[k2].len() as int) =~= iv[k2]);
        }
    }
    out
}

/// A malformed line found while reading the streams of a merge: which file,
/// which line.
#[derive(PartialEq, Eq, Structural, Clone, Copy, Debug)]
pub struct MergeError {
    pub file: usize,
    pub line: usize,
}

/// What parsing one stream of lines yields: its records in order, header
/// lines skipped, or the index of the first malformed line.
pub open spec fn spec_parse_stream(lines: Seq<Seq<u8>>, i: int) -> Result<Seq<FragV>, int>
    decreases lines.len() - i,
{
    if i < 0 || i >= lines.len() {
        Ok(Seq::empty())
    } else if is_header(lines[i]) {
        spec_parse_stream(lines, i + 1)
    } else {
        match spec_parse_line(lines[i]) {
            Err(_) => Err(i),
            Ok(f) => match spec_parse_stream(lines, i + 1) {
                Err(e) => Err(e),
                Ok(rest) => Ok(seq![f] + rest),
            },
        }
    }
}

/// Parses one stream of lines into its records, in order; header lines are
/// skipped, and the first malformed line fails the whole stream.
pub fn parse_stream(lines: &Vec<Vec<u8>>) -> (r: Result<Vec<Fragment>, usize>)
    ensures
        match r {
            Ok(v) => spec_parse_stream(bytes_views(lines@), 0) == Ok::<Seq<FragV>, int>(
                frag_views(v@),
            ),
            Err(e) => spec_parse_stream(bytes_views(lines@), 0) == Err::<Seq<FragV>, int>(
                e as int,
            ) && e < lines@.len(),
        },
{
    let ghost lv = bytes_views(lines@);
    let mut acc: Vec<Fragment> = Vec::new();
    let mut i: usize = 0;
    while i < lines.len()
        invariant
            0 <= i <= lines@.len(),
            lv == bytes_views(lines@),
            spec_parse_stream(lv, 0) == (match spec_parse_stream(lv, i as int) {
                Err(e) => Err::<Seq<FragV>, int>(e),
                Ok(rest) => Ok::<Seq<FragV>, int>(frag_views(acc@) + rest),
            }),
        decreases lines@.len() - i,
    {
        let l = &lines[i];
        proof {
            assert(lv[i as int] == l@);
        }
        if l.len() > 0 && l[0] == 35 {
            i += 1;
        } else {
            match parse_line(l.as_slice()) {
                Err(_) => {
                    return Err(i);
                },
                Ok(f) => {
                    let ghost accv = frag_views(acc@);
                    let ghost fv = f@;
                    acc.push(f);
                    proof {
                        assert(frag_views(acc@) =~= accv.push(fv));
                        match spec_parse_stream(lv, i as int + 1) {
                            Ok(rest) => {
                                assert(accv + (seq![fv] + rest) =~= frag_views(acc@) + rest);
                            },
                            Err(_) => {},
                        }
                    }
                    i += 1;
                },
            }
        }
    }
    proof {
        assert(frag_views(acc@) + Seq::<FragV>::empty() =~= frag_views(acc@));
    }
    Ok(acc)
}

/// Parses every input stream of a merge.  Fails on the first malformed
/// line, scanning the files in order, and names its file and line.
pub fn parse_files(files: &Vec<Vec<Vec<u8>>>) -> (r: Result<Vec<Vec<Fragment>>, MergeError>)
    ensures
        match r {
            Ok(v) => v@.len() == files@.len() && forall|k: int|
                0 <= k < files@.len() ==> spec_parse_stream(#[trigger] stream_views(files@)[k], 0)
                    == Ok::<Seq<FragV>, int>(frag_views(v@[k]@)),
            Err(me) => me.file < files@.len() && spec_parse_stream(
                stream_views(files@)[me.file as int],
                0,
            ) == Err::<Seq<FragV>, int>(me.line as int) && forall|k: int|
                0 <= k < me.file ==> spec_parse_stream(#[trigger] stream_views(files@)[k], 0) is Ok,
        },
{
    let mut out: Vec<Vec<Fragment>> = Vec::new();
    let mut k: usize = 0;
    while k < files.len()
        invariant
            0 <= k <= files@.len(),
            out@.len() == k,
            forall|k2: int|
                0 <= k2 < k ==> spec_parse_stream(#[trigger] stream_views(files@)[k2], 0) == Ok::<
                    Seq<FragV>,
                    int,
                >(frag_views(out@[k2]@)),
        decreases files@.len() - k,
    {
        proof {
            assert(stream_views(files@)[k as int] == bytes_views(files@[k as int]@));
        }
        match parse_stream(&files[k]) {
            Ok(v) => {
                out.push(v);
            },
            Err(line) => {
                return Err(MergeError { file: k, line });
            },
        }
        k += 1;
    }
    Ok(out)
}

/// The rendered text of a sequence of emissions: each record's line followed
/// by a line feed, in emission order.
pub open spec fn spec_render_lines(s: Seq<EntryV>) -> Seq<u8>
    decreases s.len(),
{
    if s.len() == 0 {
        Seq::empty()
    } else {
        spec_render_lines(s.drop_last()) + spec_render(s.last().frag) + seq![10u8]
    }
}

/// Rendered emissions take at least one byte each.
pub proof fn lemma_render_lines_len(s: Seq<EntryV>)
    ensures
        spec_render_lines(s).len() >= s.len(),
    decreases s.len(),
{
    if s.len() > 0 {
        lemma_render_lines_len(s.drop_last());
    }
}

/// Renders emissions as text lines, in order, each ended by a line feed.
pub fn render_entries(entries: &Vec<Entry>) -> (r: Vec<u8>)
    ensures
        r@ == spec_render_lines(entry_views(entries@)),
{
    let ghost ev = entry_views(entries@);
    let mut out: Vec<u8> = Vec::new();
    let mut i: usize = 0;
    while i < entries.len()
        invariant
            0 <= i <= entries@.len(),
            ev == entry_views(entries@),
            out@ == spec_render_lines(ev.take(i as int)),
        decreases entries@.len() - i,
    {
        let line = render(&entries[i].frag);
        crate::record::push_bytes(&mut out, &line);
        out.push(10);
        proof {
            assert(ev.take(i as int + 1).drop_last() =~= ev.take(i as int));
            assert(ev.take(i as int + 1).last() == ev[i as int]);
            assert(out@ =~= spec_render_lines(ev.take(i as int)) + spec_render(ev[i as int].frag)
                + seq![10u8]);
        }
        i += 1;
    }
    proof {
        assert(ev.take(ev.len() as int) =~= ev);
    }
    out
}

/// The whole merge operation on in-memory streams: parse every line of every
/// stream, merge the records, and render the result as text.  Fails, naming
/// file and line, exactly when some stream holds a malformed line; otherwise
/// the rendered emissions interleave the streams completely, and sorted
/// streams give sorted, stable output; streams sorted merely by the
/// coordinates give coordinate-sorted output.
pub fn merge_fragment_lines(files: &Vec<Vec<Vec<u8>>>) -> (r: Result<Vec<u8>, MergeError>)
    ensures
        match r {
            Ok(bytes) => exists|outv: Seq<EntryV>|
                {
                    &&& #[trigger] spec_render_lines(outv) == bytes@
                    &&& (forall|k: int|
                        0 <= k < files@.len() ==> spec_parse_stream(
                            #[trigger] stream_views(files@)[k],
                            0,
                        ) is Ok)
                    &&& merge_complete(
                        outv,
                        Seq::new(
                            files@.len() as nat,
                            |k: int| spec_parse_stream(stream_views(files@)[k], 0) ->Ok_0,
                        ),
                    )
                    &&& all_sorted(
                        Seq::new(
                            files@.len() as nat,
                            |k: int| spec_parse_stream(stream_views(files@)[k], 0) ->Ok_0,
                        ),
                    ) ==> sorted_stable(outv)
                    &&& all_coord_sorted(
                        Seq::new(
                            files@.len() as nat,
                            |k: int| spec_parse_stream(stream_views(files@)[k], 0) ->Ok_0,
                        ),
                    ) ==> coord_sorted_out(outv)
                },
            Err(me) => me.file < files@.len() && spec_parse_stream(
                stream_views(files@)[me.file as int],
                0,
            ) == Err::<Seq<FragV>, int>(me.line as int) && forall|k: int|
                0 <= k < me.file ==> spec_parse_stream(#[trigger] stream_views(files@)[k], 0) is Ok,
        },
{
    let streams = match parse_files(files) {
        Ok(v) => v,
        Err(me) => {
            return Err(me);
        },
    };
    let merged = merge_core(&streams);
    let bytes = render_entries(&merged);
    proof {
        let outv = entry_views(merged@);
        let parsed = Seq::new(
            files@.len() as nat,
            |k: int| spec_parse_stream(stream_views(files@)[k], 0) ->Ok_0,
        );
        assert(input_views(streams@) =~= parsed);
    }
    Ok(bytes)
}

/// The union, with multiplicity, of all input streams' records.
pub open spec fn streams_union(inputsv: Seq<Seq<FragV>>) -> Multiset<FragV>
    decreases inputsv.len(),
{
    if inputsv.len() == 0 {
        Multiset::empty()
    } else {
        streams_union(inputsv.drop_last()).add(inputsv.last().to_multiset())
    }
}

proof fn lemma_union_of_empties(inputsv: Seq<Seq<FragV>>)
    requires
        forall|k: int| 0 <= k < inputsv.len() ==> (#[trigger] inputsv[k]).len() == 0,
    ensures
        streams_union(inputsv) =~= Multiset::empty(),
    decreases inputsv.len(),
{
    broadcast use vstd::multiset::group_multiset_axioms;
    broadcast use vstd::seq_lib::group_to_multiset_ensures;

    if inputsv.len() > 0 {
        assert forall|k: int|
            0 <= k < inputsv.drop_last().len() implies (#[trigger] inputsv.drop_last()[k]).len()
            == 0 by {
            assert(inputsv.drop_last()[k] == inputsv[k]);
        }
        lemma_union_of_empties(inputsv.drop_last());
        assert(inputsv.last().to_multiset().len() == 0);
    }
}

/// Taking the last record out of one stream takes one occurrence of it out
/// of the union.
proof fn lemma_union_drop_one(inputsv: Seq<Seq<FragV>>, k0: int)
    requires
        0 <= k0 < inputsv.len(),
        inputsv[k0].len() >= 1,
    ensures
        streams_union(inputsv) =~= streams_union(
            inputsv.update(k0, inputsv[k0].drop_last()),
        ).insert(inputsv[k0].last()),
    decreases inputsv.len(),
{
    broadcast use vstd::multiset::group_multiset_axioms;
    broadcast use vstd::seq_lib::group_to_multiset_ensures;

    let shorter = inputsv.update(k0, inputsv[k0].drop_last());
    if k0 == inputsv.len() - 1 {
        assert(shorter.drop_last() =~= inputsv.drop_last());
        assert(inputsv.last() == inputsv[k0]);
        assert(inputsv[k0] =~= inputsv[k0].drop_last().push(inputsv[k0].last()));
        assert(inputsv[k0].to_multiset() =~= inputsv[k0].drop_last().to_multiset().insert(
            inputsv[k0].last(),
        ));
    } else {
        assert(shorter.drop_last() =~= inputsv.drop_last().update(
            k0,
            inputsv.drop_last()[k0].drop_last(),
        ));
        lemma_union_drop_one(inputsv.drop_last(), k0);
        assert(shorter.last() == inputsv.last());
    }
}

/// Merge totality, as a union: a complete merge emits exactly the union,
/// with multiplicity, of all input records.
pub proof fn lemma_merge_totality(outv: Seq<EntryV>, inputsv: Seq<Seq<FragV>>)
    requires
        merge_complete(outv, inputsv),
    ensures
        outv.map_values(|e: EntryV| e.frag).to_multiset() =~= streams_union(inputsv),
    decreases outv.len(),
{
    broadcast use vstd::multiset::group_multiset_axioms;
    broadcast use vstd::seq_lib::group_to_multiset_ensures;

    if outv.len() == 0 {
        assert forall|k: int| 0 <= k < inputsv.len() implies (#[trigger] inputsv[k]).len()
            == 0 by {
            assert(proj(outv, k) == inputsv[k]);
        }
        lemma_union_of_empties(inputsv);
        assert(outv.map_values(|e: EntryV| e.frag).len() == 0);
        assert(outv.map_values(|e: EntryV| e.frag).to_multiset().len() == 0);
    } else {
        let e = outv.last();
        let k0 = e.src;
        let rest = outv.drop_last();
        let shorter = inputsv.update(k0, inputsv[k0].drop_last());
        assert(proj(outv, k0) == proj(rest, k0).push(e.frag));
        assert(proj(outv, k0) == inputsv[k0]);
        assert(inputsv[k0].last() == e.frag);
        assert(inputsv[k0].drop_last() =~= proj(rest, k0));
        assert(merge_complete(rest, shorter)) by {
            assert forall|j: int| 0 <= j < rest.len() implies 0 <= (#[trigger] rest[j]).src
                < shorter.len() by {
                assert(rest[j] == outv[j]);
            }
            assert forall|k: int| 0 <= k < shorter.len() implies proj(rest, k)
                == #[trigger] shorter[k] by {
                if k != k0 {
                    assert(proj(outv, k) == proj(rest, k));
                }
            }
        }
        lemma_merge_totality(rest, shorter);
        lemma_union_drop_one(inputsv, k0);
        assert(outv.map_values(|e2: EntryV| e2.frag) =~= rest.map_values(
            |e2: EntryV| e2.frag,
        ).push(e.frag));
    }
}

} // verus!
