//! Which hands a selective hand-history log keeps: the first N hands (for
//! betting games extended to whole decks), the K biggest hands over the
//! whole match, the first hands a bot faulted in, and every forfeited hand.
use vstd::prelude::*;
use crate::log::{HandMeta, LogSelection, OfcHandMeta, OfcLogSelection};
use crate::text::{decimal, push_decimal, push_str};

verus! {

/// Why a hand was kept.
#[derive(Clone, Copy, Debug, PartialEq, Eq, Structural)]
pub struct Reasons {
    pub fault: bool,
    pub forfeit: bool,
    pub sample: bool,
    pub top: bool,
}

/// A kept hand and why it was kept.
#[derive(Clone, Copy, Debug, PartialEq, Eq, Structural)]
pub struct KeptHand {
    pub hand_no: u64,
    pub reasons: Reasons,
}

/// A candidate for the biggest hands: its size (pot or swing) and its
/// number.
#[derive(Clone, Copy, Debug, PartialEq, Eq, Structural)]
pub struct TopEntry {
    pub size: u64,
    pub hand_no: u64,
}

/// `a` ranks strictly above `b`: a bigger size, or the same size and a
/// lower hand number.
pub open spec fn ranks_above(a: TopEntry, b: TopEntry) -> bool {
    a.size > b.size || (a.size == b.size && a.hand_no < b.hand_no)
}

/// The entries of `v` are strictly ascending by hand number.
pub open spec fn ascending_hands(v: Seq<KeptHand>) -> bool {
    forall|i: int, j: int| 0 <= i < j < v.len() ==> v[i].hand_no < v[j].hand_no
}

/// `v` holds an entry for hand `h`.
pub open spec fn holds_hand(v: Seq<KeptHand>, h: u64) -> bool {
    exists|i: int| 0 <= i < v.len() && v[i].hand_no == h
}

/// `top` is a top-`k` choice among `cands` (given by the indices `idx`):
/// it holds `min(k, cands.len())` distinct candidates, and no candidate left
/// out ranks above any candidate chosen.
pub open spec fn top_choice(cands: Seq<TopEntry>, k: nat, top: Seq<TopEntry>, idx: Seq<int>) -> bool {
    &&& top.len() == idx.len()
    &&& top.len() == if cands.len() < k {
        cands.len()
    } else {
        k
    }
    &&& forall|t: int| 0 <= t < idx.len() ==> 0 <= #[trigger] idx[t] < cands.len() && top[t] == cands[idx[t]]
    &&& forall|s: int, t: int| 0 <= s < t < idx.len() ==> idx[s] != idx[t]
    &&& forall|c: int, t: int|
        0 <= c < cands.len() && 0 <= t < top.len() && !idx.contains(c) ==> !ranks_above(
            #[trigger] cands[c],
            #[trigger] top[t],
        )
}

/// The keep/drop bookkeeping a selective log does per hand.
pub struct Selector {
    sample_first_hands: Option<u64>,
    /// Sampling extends to the rest of a sampled deck.
    per_deck: bool,
    top_k: Option<usize>,
    fault_cap: u64,
    hands_seen: u64,
    fault_hands_kept: u64,
    sample_hands_kept: u64,
    sampling_deck: Option<u64>,
    current: Option<(u64, u64)>,
    kept: Vec<KeptHand>,
    top: Vec<TopEntry>,
    cands: Ghost<Seq<TopEntry>>,
    idx: Ghost<Seq<int>>,
}

impl Selector {
    pub closed spec fn wf(&self) -> bool {
        &&& ascending_hands(self.kept@)
        &&& forall|i: int| 0 <= i < self.kept@.len() ==> !(#[trigger] self.kept@[i]).reasons.top
        &&& self.fault_hands_kept <= self.hands_seen
        &&& self.sample_hands_kept <= self.hands_seen
        &&& self.top_k is Some ==> top_choice(self.cands@, self.top_k->0 as nat, self.top@, self.idx@)
        &&& self.top_k is None ==> self.top@.len() == 0 && self.cands@.len() == 0
        &&& self.top_k is Some && self.top@.len() < self.top_k->0 ==> forall|d: int|
            0 <= d < self.cands@.len() ==> #[trigger] self.idx@.contains(d)
    }

    pub closed spec fn seen(&self) -> u64 {
        self.hands_seen
    }

    /// The hands kept so far for a reason other than size.
    pub closed spec fn kept_view(&self) -> Seq<KeptHand> {
        self.kept@
    }

    /// Every hand considered for the biggest, in the order considered.
    pub closed spec fn candidates(&self) -> Seq<TopEntry> {
        self.cands@
    }

    /// The current choice of biggest hands.
    pub closed spec fn top_view(&self) -> Seq<TopEntry> {
        self.top@
    }

    pub closed spec fn top_k(&self) -> Option<usize> {
        self.top_k
    }

    pub closed spec fn open_hand(&self) -> Option<(u64, u64)> {
        self.current
    }

    pub closed spec fn counters(&self) -> (u64, u64, Option<u64>) {
        (self.sample_hands_kept, self.fault_hands_kept, self.sampling_deck)
    }

    pub closed spec fn settings(&self) -> (Option<u64>, bool, u64) {
        (self.sample_first_hands, self.per_deck, self.fault_cap)
    }

    /// The top choice is a top-`k` choice among every candidate considered.
    pub proof fn lemma_top_is_global(&self)
        requires
            self.wf(),
        ensures
            self.top_k() is Some ==> exists|idx: Seq<int>|
                top_choice(self.candidates(), self.top_k()->0 as nat, self.top_view(), idx),
            self.top_k() is None ==> self.top_view().len() == 0,
    {
        if self.top_k is Some {
            assert(top_choice(self.candidates(), self.top_k()->0 as nat, self.top_view(), self.idx@));
        }
    }

    fn new(sample_first_hands: Option<u64>, per_deck: bool, top_k: Option<usize>, fault_cap: u64) -> (r: Selector)
        ensures
            r.wf(),
            r.seen() == 0,
            r.kept_view().len() == 0,
            r.candidates().len() == 0,
            r.top_view().len() == 0,
            r.top_k() == top_k,
            r.open_hand() is None,
            r.counters() == (0u64, 0u64, None::<u64>),
            r.settings() == (sample_first_hands, per_deck, fault_cap),
    {
        Selector {
            sample_first_hands,
            per_deck,
            top_k,
            fault_cap,
            hands_seen: 0,
            fault_hands_kept: 0,
            sample_hands_kept: 0,
            sampling_deck: None,
            current: None,
            kept: Vec::new(),
            top: Vec::new(),
            cands: Ghost(Seq::empty()),
            idx: Ghost(Seq::empty()),
        }
    }

    fn hand_start(&mut self, hand_no: u64, deck_no: u64)
        requires
            old(self).wf(),
        ensures
            final(self).wf(),
            final(self).open_hand() == Some((hand_no, deck_no)),
            final(self).seen() == old(self).seen(),
            final(self).kept_view() == old(self).kept_view(),
            final(self).candidates() == old(self).candidates(),
            final(self).top_view() == old(self).top_view(),
            final(self).top_k() == old(self).top_k(),
            final(self).counters() == old(self).counters(),
            final(self).settings() == old(self).settings(),
    {
        self.current = Some((hand_no, deck_no));
    }

    /// Files `entry` under its hand number, replacing an entry for the same
    /// hand.
    fn file(&mut self, entry: KeptHand)
        requires
            ascending_hands(old(self).kept@),
            !entry.reasons.top,
            forall|i: int| 0 <= i < old(self).kept@.len() ==> !(#[trigger] old(self).kept@[i]).reasons.top,
        ensures
            ascending_hands(final(self).kept@),
            forall|i: int| 0 <= i < final(self).kept@.len() ==> !(#[trigger] final(self).kept@[i]).reasons.top,
            forall|e: KeptHand|
                #![trigger final(self).kept@.contains(e)]
                #![trigger old(self).kept@.contains(e)]
                final(self).kept@.contains(e) <==> (e == entry || (old(self).kept@.contains(e) && e.hand_no
                    != entry.hand_no)),
            final(self).top == old(self).top,
            final(self).cands == old(self).cands,
            final(self).idx == old(self).idx,
            final(self).current == old(self).current,
            final(self).hands_seen == old(self).hands_seen,
            final(self).fault_hands_kept == old(self).fault_hands_kept,
            final(self).sample_hands_kept == old(self).sample_hands_kept,
            final(self).sampling_deck == old(self).sampling_deck,
            final(self).sample_first_hands == old(self).sample_first_hands,
            final(self).per_deck == old(self).per_deck,
            final(self).top_k == old(self).top_k,
            final(self).fault_cap == old(self).fault_cap,
    {
        let ghost before = self.kept@;
        let mut p: usize = 0;
        while p < self.kept.len() && self.kept[p].hand_no < entry.hand_no
            invariant
                p <= self.kept@.len(),
                self.kept@ == before,
                before == old(self).kept@,
                forall|q: int| 0 <= q < p ==> self.kept@[q].hand_no < entry.hand_no,
            decreases self.kept@.len() - p,
        {
            p = p + 1;
        }
        if p < self.kept.len() && self.kept[p].hand_no == entry.hand_no {
            self.kept.set(p, entry);
            proof {
                assert(self.kept@ == before.update(p as int, entry));
                assert forall|q: int| 0 <= q < before.len() && q != p implies before[q].hand_no != entry.hand_no by {
                    if q < p {
                        assert(before[q].hand_no < before[p as int].hand_no);
                    } else {
                        assert(before[p as int].hand_no < before[q].hand_no);
                    }
                }
                assert forall|e: KeptHand|
                    #![trigger self.kept@.contains(e)]
                    #![trigger before.contains(e)]
                    self.kept@.contains(e) <==> (e == entry || (before.contains(e) && e.hand_no != entry.hand_no)) by {
                    if self.kept@.contains(e) {
                        let q = choose|q: int| 0 <= q < self.kept@.len() && self.kept@[q] == e;
                        if q != p {
                            assert(before[q] == e);
                            assert(before.contains(e));
                        }
                    }
                    if e == entry {
                        assert(self.kept@[p as int] == e);
                    }
                    if before.contains(e) && e.hand_no != entry.hand_no {
                        let q = choose|q: int| 0 <= q < before.len() && before[q] == e;
                        assert(q != p);
                        assert(self.kept@[q] == e);
                    }
                }
            }
        } else {
            proof {
                assert forall|q: int| p <= q < before.len() implies entry.hand_no < before[q].hand_no by {
                    if q > p {
                        assert(before[p as int].hand_no < before[q].hand_no);
                    }
                }
            }
            self.kept.insert(p, entry);
            proof {
                assert(self.kept@ == before.insert(p as int, entry));
                assert forall|q: int| 0 <= q < before.len() implies before[q].hand_no != entry.hand_no by {
                    if q < p {
                        assert(before[q].hand_no < entry.hand_no);
                    }
                }
                assert forall|e: KeptHand|
                    #![trigger self.kept@.contains(e)]
                    #![trigger before.contains(e)]
                    self.kept@.contains(e) <==> (e == entry || (before.contains(e) && e.hand_no != entry.hand_no)) by {
                    if self.kept@.contains(e) {
                        let q = choose|q: int| 0 <= q < self.kept@.len() && self.kept@[q] == e;
                        if q < p {
                            assert(before[q] == e);
                            assert(before.contains(e));
                        } else if q > p {
                            assert(before[q - 1] == e);
                            assert(before.contains(e));
                        }
                    }
                    if e == entry {
                        assert(self.kept@[p as int] == e);
                    }
                    if before.contains(e) && e.hand_no != entry.hand_no {
                        let q = choose|q: int| 0 <= q < before.len() && before[q] == e;
                        if q < p {
                            assert(self.kept@[q] == e);
                        } else {
                            assert(self.kept@[q + 1] == e);
                        }
                    }
                }
                assert forall|a: int, b: int| 0 <= a < b < self.kept@.len() implies self.kept@[a].hand_no
                    < self.kept@[b].hand_no by {
                    if b < p {
                        assert(self.kept@[a] == before[a] && self.kept@[b] == before[b]);
                    } else if b == p {
                        assert(self.kept@[a] == before[a]);
                    } else if a < p {
                        assert(self.kept@[a] == before[a] && self.kept@[b] == before[b - 1]);
                    } else if a == p {
                        assert(self.kept@[b] == before[b - 1]);
                    } else {
                        assert(self.kept@[a] == before[a - 1] && self.kept@[b] == before[b - 1]);
                    }
                }
                assert forall|i: int| 0 <= i < self.kept@.len() implies !(#[trigger] self.kept@[i]).reasons.top by {
                    if i < p {
                        assert(self.kept@[i] == before[i]);
                    } else if i > p {
                        assert(self.kept@[i] == before[i - 1]);
                    }
                }
            }
        }
    }

    /// Considers `entry` for the biggest hands, replacing the lowest-ranked
    /// member when `entry` ranks above it.
    fn consider(&mut self, entry: TopEntry)
        requires
            old(self).wf(),
            old(self).top_k is Some,
        ensures
            final(self).wf(),
            final(self).cands@ == old(self).cands@.push(entry),
            final(self).kept == old(self).kept,
            final(self).current == old(self).current,
            final(self).hands_seen == old(self).hands_seen,
            final(self).fault_hands_kept == old(self).fault_hands_kept,
            final(self).sample_hands_kept == old(self).sample_hands_kept,
            final(self).sampling_deck == old(self).sampling_deck,
            final(self).sample_first_hands == old(self).sample_first_hands,
            final(self).per_deck == old(self).per_deck,
            final(self).top_k == old(self).top_k,
            final(self).fault_cap == old(self).fault_cap,
    {
        let k = self.top_k.unwrap();
        let ghost old_cands = self.cands@;
        let ghost old_idx = self.idx@;
        let ghost old_top = self.top@;
        let ghost c = old_cands.len() as int;
        proof {
            self.cands = Ghost(old_cands.push(entry));
        }
        if k == 0 {
            proof {
                assert(self.top@.len() == 0);
            }
            return;
        }
        if self.top.len() < k {
            self.top.push(entry);
            proof {
                self.idx = Ghost(old_idx.push(c));
                let cands = self.cands@;
                let idx = self.idx@;
                assert forall|t: int| 0 <= t < idx.len() implies 0 <= #[trigger] idx[t] < cands.len() && self.top@[t]
                    == cands[idx[t]] by {
                    if t < old_idx.len() {
                        assert(old_idx[t] < c);
                    }
                }
                assert forall|s: int, t: int| 0 <= s < t < idx.len() implies idx[s] != idx[t] by {
                    if t == old_idx.len() {
                        assert(old_idx[s] < c);
                    }
                }
                assert forall|d: int, t: int|
                    0 <= d < cands.len() && 0 <= t < self.top@.len() && !idx.contains(d) implies !ranks_above(
                        #[trigger] cands[d],
                        #[trigger] self.top@[t],
                    ) by {
                    assert(d != c) by {
                        assert(idx[old_idx.len() as int] == c);
                    }
                    assert(!old_idx.contains(d)) by {
                        if old_idx.contains(d) {
                            let q = choose|q: int| 0 <= q < old_idx.len() && old_idx[q] == d;
                            assert(idx[q] == d);
                        }
                    }
                    assert(d < c);
                    assert(old_idx.contains(d));
                }
                assert forall|d: int| 0 <= d < cands.len() implies #[trigger] idx.contains(d) by {
                    if d < c {
                        assert(old_idx.contains(d));
                        let q = choose|q: int| 0 <= q < old_idx.len() && old_idx[q] == d;
                        assert(idx[q] == d);
                    } else {
                        assert(idx[old_idx.len() as int] == d);
                    }
                }
            }
            return;
        }
        // The lowest-ranked member: no member ranks below it.
        let mut w: usize = 0;
        let mut t: usize = 1;
        while t < self.top.len()
            invariant
                1 <= t <= self.top@.len(),
                w < t,
                self.top@ == old_top,
                forall|q: int| 0 <= q < t ==> !ranks_above(self.top@[w as int], #[trigger] self.top@[q]),
            decreases self.top@.len() - t,
        {
            let a = self.top[w];
            let b = self.top[t];
            if a.size > b.size || (a.size == b.size && a.hand_no < b.hand_no) {
                w = t;
            }
            t = t + 1;
        }
        let worst = self.top[w];
        if entry.size > worst.size || (entry.size == worst.size && entry.hand_no < worst.hand_no) {
            self.top.set(w, entry);
            proof {
                self.idx = Ghost(old_idx.update(w as int, c));
                let cands = self.cands@;
                let idx = self.idx@;
                let widx = old_idx[w as int];
                assert forall|q: int| 0 <= q < idx.len() implies 0 <= #[trigger] idx[q] < cands.len() && self.top@[q]
                    == cands[idx[q]] by {
                    if q != w {
                        assert(old_idx[q] < c);
                    }
                }
                assert forall|s: int, q: int| 0 <= s < q < idx.len() implies idx[s] != idx[q] by {
                    if s == w {
                        assert(old_idx[q] < c);
                    } else if q == w {
                        assert(old_idx[s] < c);
                    }
                }
                assert forall|d: int, q: int|
                    0 <= d < cands.len() && 0 <= q < self.top@.len() && !idx.contains(d) implies !ranks_above(
                        #[trigger] cands[d],
                        #[trigger] self.top@[q],
                    ) by {
                    assert(d != c) by {
                        assert(idx[w as int] == c);
                    }
                    assert(cands[d] == old_cands[d]);
                    if d == widx {
                        // The evicted member ranked at or below every member.
                        assert(old_cands[d] == worst);
                        if q != w {
                            assert(self.top@[q] == old_top[q]);
                        }
                    } else {
                        assert(!old_idx.contains(d)) by {
                            if old_idx.contains(d) {
                                let r = choose|r: int| 0 <= r < old_idx.len() && old_idx[r] == d;
                                assert(r != w);
                                assert(idx[r] == d);
                            }
                        }
                        assert(!ranks_above(old_cands[d], old_top[w as int]));
                        if q != w {
                            assert(self.top@[q] == old_top[q]);
                            assert(!ranks_above(old_cands[d], old_top[q]));
                        }
                    }
                }
            }
        } else {
            proof {
                let cands = self.cands@;
                let idx = self.idx@;
                assert forall|q: int| 0 <= q < idx.len() implies 0 <= #[trigger] idx[q] < cands.len() && self.top@[q]
                    == cands[idx[q]] by {
                    assert(old_idx[q] < c);
                }
                assert forall|d: int, q: int|
                    0 <= d < cands.len() && 0 <= q < self.top@.len() && !idx.contains(d) implies !ranks_above(
                        #[trigger] cands[d],
                        #[trigger] self.top@[q],
                    ) by {
                    if d < c {
                        assert(cands[d] == old_cands[d]);
                    } else {
                        assert(cands[d] == entry);
                        assert(!ranks_above(old_top[w as int], old_top[q]));
                    }
                }
            }
        }
    }
}


/// Reasons holding only "among the biggest".
pub open spec fn only_top() -> Reasons {
    Reasons { fault: false, forfeit: false, sample: false, top: true }
}

/// Some candidate in `top` is hand `h`.
pub open spec fn in_top(top: Seq<TopEntry>, h: u64) -> bool {
    exists|t: int| 0 <= t < top.len() && top[t].hand_no == h
}

/// `e` is an entry of the merged list: a hand kept for a reason, flagged
/// when it is also among the biggest, or a hand kept only for its size.
pub open spec fn merged_entry(kept: Seq<KeptHand>, top: Seq<TopEntry>, e: KeptHand) -> bool {
    ||| exists|i: int|
        0 <= i < kept.len() && #[trigger] kept[i].hand_no == e.hand_no && e.reasons == (Reasons {
            top: in_top(top, e.hand_no),
            ..kept[i].reasons
        })
    ||| (!holds_hand(kept, e.hand_no) && in_top(top, e.hand_no) && e.reasons == only_top())
}

proof fn lemma_ascending_unique(v: Seq<KeptHand>, i: int, j: int)
    requires
        ascending_hands(v),
        0 <= i < v.len(),
        0 <= j < v.len(),
        v[i].hand_no == v[j].hand_no,
    ensures
        i == j,
{
    if i < j {
        assert(v[i].hand_no < v[j].hand_no);
    } else if j < i {
        assert(v[j].hand_no < v[i].hand_no);
    }
}

/// Flags hand `h` as among the biggest: an entry for it gains the flag; a
/// hand without one gets an entry holding only the flag.
fn mark_top(v: &mut Vec<KeptHand>, h: u64)
    requires
        ascending_hands(old(v)@),
    ensures
        ascending_hands(final(v)@),
        forall|e: KeptHand|
            #![trigger final(v)@.contains(e)]
            final(v)@.contains(e) <==> ((e.hand_no != h && old(v)@.contains(e)) || (e.hand_no == h && if holds_hand(
                old(v)@,
                h,
            ) {
                exists|i: int|
                    0 <= i < old(v)@.len() && #[trigger] old(v)@[i].hand_no == h && e.reasons == (Reasons {
                        top: true,
                        ..old(v)@[i].reasons
                    })
            } else {
                e.reasons == only_top()
            })),
{
    let ghost before = v@;
    let mut p: usize = 0;
    while p < v.len() && v[p].hand_no < h
        invariant
            p <= v@.len(),
            v@ == before,
            before == old(v)@,
            forall|q: int| 0 <= q < p ==> v@[q].hand_no < h,
        decreases v@.len() - p,
    {
        p = p + 1;
    }
    if p < v.len() && v[p].hand_no == h {
        let old_entry = v[p];
        let entry = KeptHand { hand_no: h, reasons: Reasons { top: true, ..old_entry.reasons } };
        v.set(p, entry);
        proof {
            assert(v@ == before.update(p as int, entry));
            assert(holds_hand(before, h));
            assert forall|e: KeptHand|
                #![trigger v@.contains(e)]
                v@.contains(e) <==> ((e.hand_no != h && before.contains(e)) || (e.hand_no == h && exists|i: int|
                    0 <= i < before.len() && #[trigger] before[i].hand_no == h && e.reasons == (Reasons {
                        top: true,
                        ..before[i].reasons
                    }))) by {
                if v@.contains(e) {
                    let q = choose|q: int| 0 <= q < v@.len() && v@[q] == e;
                    if q != p {
                        assert(before[q] == e);
                        assert(before.contains(e));
                        if e.hand_no == h {
                            lemma_ascending_unique(before, q, p as int);
                        }
                    } else {
                        assert(before[p as int].hand_no == h);
                    }
                }
                if e.hand_no != h && before.contains(e) {
                    let q = choose|q: int| 0 <= q < before.len() && before[q] == e;
                    assert(q != p);
                    assert(v@[q] == e);
                }
                if e.hand_no == h && exists|i: int|
                    0 <= i < before.len() && #[trigger] before[i].hand_no == h && e.reasons == (Reasons {
                        top: true,
                        ..before[i].reasons
                    }) {
                    let i = choose|i: int|
                        0 <= i < before.len() && #[trigger] before[i].hand_no == h && e.reasons == (Reasons {
                            top: true,
                            ..before[i].reasons
                        });
                    lemma_ascending_unique(before, i, p as int);
                    assert(v@[p as int] == e);
                }
            }
            assert forall|a: int, b: int| 0 <= a < b < v@.len() implies v@[a].hand_no < v@[b].hand_no by {
                assert(before[a].hand_no < before[b].hand_no);
            }
        }
    } else {
        let entry = KeptHand { hand_no: h, reasons: only_top_reasons() };
        proof {
            assert forall|q: int| p <= q < before.len() implies h < before[q].hand_no by {
                if q > p {
                    assert(before[p as int].hand_no < before[q].hand_no);
                }
            }
            assert(!holds_hand(before, h)) by {
                if holds_hand(before, h) {
                    let q = choose|q: int| 0 <= q < before.len() && before[q].hand_no == h;
                }
            }
        }
        v.insert(p, entry);
        proof {
            assert(v@ == before.insert(p as int, entry));
            assert forall|e: KeptHand|
                #![trigger v@.contains(e)]
                v@.contains(e) <==> ((e.hand_no != h && before.contains(e)) || (e.hand_no == h && e.reasons
                    == only_top())) by {
                if v@.contains(e) {
                    let q = choose|q: int| 0 <= q < v@.len() && v@[q] == e;
                    if q < p {
                        assert(before[q] == e);
                        assert(before.contains(e));
                    } else if q > p {
                        assert(before[q - 1] == e);
                        assert(before.contains(e));
                    }
                }
                if e.hand_no != h && before.contains(e) {
                    let q = choose|q: int| 0 <= q < before.len() && before[q] == e;
                    if q < p {
                        assert(v@[q] == e);
                    } else {
                        assert(v@[q + 1] == e);
                    }
                }
                if e.hand_no == h && e.reasons == only_top() {
                    assert(v@[p as int] == e);
                }
            }
            assert forall|a: int, b: int| 0 <= a < b < v@.len() implies v@[a].hand_no < v@[b].hand_no by {
                if b < p {
                    assert(v@[a] == before[a] && v@[b] == before[b]);
                } else if b == p {
                    assert(v@[a] == before[a]);
                } else if a < p {
                    assert(v@[a] == before[a] && v@[b] == before[b - 1]);
                } else if a == p {
                    assert(v@[b] == before[b - 1]);
                } else {
                    assert(v@[a] == before[a - 1] && v@[b] == before[b - 1]);
                }
            }
        }
    }
}

fn only_top_reasons() -> (r: Reasons)
    ensures
        r == only_top(),
{
    Reasons { fault: false, forfeit: false, sample: false, top: true }
}


/// Whether the hand numbered `h` of deck `d` is sampled, given the sample
/// size, whether sampling runs to the end of a sampled deck, and how many
/// hands were sampled and which deck was sampled last.
pub open spec fn sampled(n: Option<u64>, per_deck: bool, kept: u64, deck: Option<u64>, d: u64) -> bool {
    match n {
        Some(n) => (per_deck && deck == Some(d)) || kept < n,
        None => false,
    }
}

impl Selector {
    /// Closes the open hand, whose size is `size`, deciding why it is kept:
    /// sampled while the first-N sample has room (for betting games also
    /// while its deck is the one being sampled), fault evidence while the
    /// cap has room, and always when forfeited. Every closed hand is a
    /// candidate for the biggest.
    fn hand_end(&mut self, size: u64, faulted: bool, forfeited: bool)
        requires
            old(self).wf(),
            old(self).seen() < u64::MAX,
        ensures
            final(self).wf(),
            final(self).seen() == old(self).seen() + 1,
            final(self).open_hand() is None,
            final(self).top_k() == old(self).top_k(),
            final(self).settings() == old(self).settings(),
            match old(self).open_hand() {
                None => {
                    &&& final(self).kept_view() == old(self).kept_view()
                    &&& final(self).candidates() == old(self).candidates()
                    &&& final(self).top_view() == old(self).top_view()
                    &&& final(self).counters() == old(self).counters()
                },
                Some((h, d)) => {
                    let (n, per_deck, cap) = old(self).settings();
                    let (sk, fk, sd) = old(self).counters();
                    let sample = sampled(n, per_deck, sk, sd, d);
                    let fault = faulted && fk < cap;
                    let entry = KeptHand { hand_no: h, reasons: Reasons { fault, forfeit: forfeited, sample, top: false } };
                    &&& final(self).counters() == (
                        if sample { (sk + 1) as u64 } else { sk },
                        if fault { (fk + 1) as u64 } else { fk },
                        if sample { Some(d) } else { sd },
                    )
                    &&& forall|e: KeptHand|
                        #![trigger final(self).kept_view().contains(e)]
                        final(self).kept_view().contains(e) <==> if sample || fault || forfeited {
                            e == entry || (old(self).kept_view().contains(e) && e.hand_no != h)
                        } else {
                            old(self).kept_view().contains(e)
                        }
                    &&& final(self).candidates() == if old(self).top_k() is Some {
                        old(self).candidates().push(TopEntry { size, hand_no: h })
                    } else {
                        old(self).candidates()
                    }
                },
            },
    {
        self.hands_seen = self.hands_seen + 1;
        let (h, d) = match self.current {
            None => {
                return;
            },
            Some(open) => open,
        };
        self.current = None;
        let sample = match self.sample_first_hands {
            Some(n) => (self.per_deck && self.sampling_deck == Some(d)) || self.sample_hands_kept < n,
            None => false,
        };
        if sample {
            self.sampling_deck = Some(d);
            self.sample_hands_kept = self.sample_hands_kept + 1;
        }
        let fault = faulted && self.fault_hands_kept < self.fault_cap;
        if fault {
            self.fault_hands_kept = self.fault_hands_kept + 1;
        }
        if sample || fault || forfeited {
            self.file(KeptHand { hand_no: h, reasons: Reasons { fault, forfeit: forfeited, sample, top: false } });
        }
        if self.top_k.is_some() {
            self.consider(TopEntry { size, hand_no: h });
        }
    }

    /// The kept hands in ascending hand order: every hand kept for a reason,
    /// flagged when it is also among the biggest, and every hand among the
    /// biggest that was kept for nothing else.
    fn finish(&self) -> (r: Vec<KeptHand>)
        requires
            self.wf(),
        ensures
            ascending_hands(r@),
            forall|e: KeptHand|
                #![trigger r@.contains(e)]
                r@.contains(e) <==> merged_entry(self.kept_view(), self.top_view(), e),
    {
        let mut out: Vec<KeptHand> = Vec::new();
        let mut i: usize = 0;
        while i < self.kept.len()
            invariant
                i <= self.kept@.len(),
                ascending_hands(self.kept@),
                forall|q: int| 0 <= q < self.kept@.len() ==> !(#[trigger] self.kept@[q]).reasons.top,
                out@ == self.kept@.take(i as int),
            decreases self.kept@.len() - i,
        {
            out.push(self.kept[i]);
            proof {
                assert(out@ =~= self.kept@.take(i as int + 1));
            }
            i = i + 1;
        }
        proof {
            assert(out@ =~= self.kept@);
            assert forall|e: KeptHand|
                #![trigger out@.contains(e)]
                out@.contains(e) <==> merged_entry(self.kept@, self.top@.take(0), e) by {
                if out@.contains(e) {
                    let q = choose|q: int| 0 <= q < out@.len() && out@[q] == e;
                    assert(self.kept@[q].hand_no == e.hand_no);
                    assert(!in_top(self.top@.take(0), e.hand_no));
                }
                if merged_entry(self.kept@, self.top@.take(0), e) {
                    assert(!in_top(self.top@.take(0), e.hand_no));
                    let q = choose|q: int|
                        0 <= q < self.kept@.len() && #[trigger] self.kept@[q].hand_no == e.hand_no && e.reasons == (Reasons {
                            top: in_top(self.top@.take(0), e.hand_no),
                            ..self.kept@[q].reasons
                        });
                    assert(out@[q] == e);
                }
            }
        }
        let mut j: usize = 0;
        while j < self.top.len()
            invariant
                j <= self.top@.len(),
                ascending_hands(self.kept@),
                forall|q: int| 0 <= q < self.kept@.len() ==> !(#[trigger] self.kept@[q]).reasons.top,
                ascending_hands(out@),
                forall|e: KeptHand|
                    #![trigger out@.contains(e)]
                    out@.contains(e) <==> merged_entry(self.kept@, self.top@.take(j as int), e),
            decreases self.top@.len() - j,
        {
            let h = self.top[j].hand_no;
            let ghost before = out@;
            let ghost tj = self.top@.take(j as int);
            let ghost tj1 = self.top@.take(j as int + 1);
            proof {
                assert forall|x: u64| in_top(tj1, x) <==> (in_top(tj, x) || x == h) by {
                    if in_top(tj1, x) {
                        let t = choose|t: int| 0 <= t < tj1.len() && tj1[t].hand_no == x;
                        if t < j {
                            assert(tj[t].hand_no == x);
                        }
                    }
                    if in_top(tj, x) {
                        let t = choose|t: int| 0 <= t < tj.len() && tj[t].hand_no == x;
                        assert(tj1[t].hand_no == x);
                    }
                    if x == h {
                        assert(tj1[j as int].hand_no == x);
                    }
                }
            }
            mark_top(&mut out, h);
            proof {
                lemma_merge_step(self.kept@, tj, tj1, h, before, out@);
            }
            j = j + 1;
        }
        proof {
            assert(self.top@.take(self.top@.len() as int) =~= self.top@);
        }
        out
    }
}

proof fn lemma_merge_step(
    kept: Seq<KeptHand>,
    tj: Seq<TopEntry>,
    tj1: Seq<TopEntry>,
    h: u64,
    before: Seq<KeptHand>,
    after: Seq<KeptHand>,
)
    requires
        ascending_hands(kept),
        ascending_hands(before),
        forall|x: u64| in_top(tj1, x) <==> (in_top(tj, x) || x == h),
        forall|e: KeptHand| #![trigger before.contains(e)] before.contains(e) <==> merged_entry(kept, tj, e),
        forall|e: KeptHand|
            #![trigger after.contains(e)]
            after.contains(e) <==> ((e.hand_no != h && before.contains(e)) || (e.hand_no == h && if holds_hand(
                before,
                h,
            ) {
                exists|i: int|
                    0 <= i < before.len() && #[trigger] before[i].hand_no == h && e.reasons == (Reasons {
                        top: true,
                        ..before[i].reasons
                    })
            } else {
                e.reasons == only_top()
            })),
    ensures
        forall|e: KeptHand| #![trigger after.contains(e)] after.contains(e) <==> merged_entry(kept, tj1, e),
{
    assert forall|e: KeptHand| #![trigger after.contains(e)] after.contains(e) <==> merged_entry(kept, tj1, e) by {
        let x = e.hand_no;
        assert(in_top(tj1, x) <==> (in_top(tj, x) || x == h));
        if x != h {
            assert(in_top(tj1, x) == in_top(tj, x));
            assert(after.contains(e) == before.contains(e));
            assert(merged_entry(kept, tj1, e) == merged_entry(kept, tj, e));
        } else {
            assert(in_top(tj1, x));
            if holds_hand(kept, h) {
                let k = choose|k: int| 0 <= k < kept.len() && kept[k].hand_no == h;
                let prev = KeptHand { hand_no: h, reasons: Reasons { top: in_top(tj, h), ..kept[k].reasons } };
                assert(merged_entry(kept, tj, prev));
                assert(before.contains(prev));
                let b = choose|b: int| 0 <= b < before.len() && before[b] == prev;
                assert(before[b].hand_no == h);
                assert(holds_hand(before, h));
                if after.contains(e) {
                    let i = choose|i: int|
                        0 <= i < before.len() && #[trigger] before[i].hand_no == h && e.reasons == (Reasons {
                            top: true,
                            ..before[i].reasons
                        });
                    lemma_ascending_unique(before, i, b);
                    assert(kept[k].hand_no == e.hand_no);
                }
                if merged_entry(kept, tj1, e) {
                    if !holds_hand(kept, x) {
                    } else {
                        let k2 = choose|k2: int|
                            0 <= k2 < kept.len() && #[trigger] kept[k2].hand_no == e.hand_no && e.reasons == (Reasons {
                                top: in_top(tj1, e.hand_no),
                                ..kept[k2].reasons
                            });
                        lemma_ascending_unique(kept, k, k2);
                        assert(before[b].hand_no == h && e.reasons == (Reasons { top: true, ..before[b].reasons }));
                    }
                }
            } else if in_top(tj, h) {
                let prev = KeptHand { hand_no: h, reasons: only_top() };
                assert(merged_entry(kept, tj, prev));
                assert(before.contains(prev));
                let b = choose|b: int| 0 <= b < before.len() && before[b] == prev;
                assert(holds_hand(before, h)) by {
                    assert(before[b].hand_no == h);
                }
                if after.contains(e) {
                    let i = choose|i: int|
                        0 <= i < before.len() && #[trigger] before[i].hand_no == h && e.reasons == (Reasons {
                            top: true,
                            ..before[i].reasons
                        });
                    lemma_ascending_unique(before, i, b);
                }
                if merged_entry(kept, tj1, e) {
                    assert(e.reasons == only_top()) by {
                        if exists|i: int|
                            0 <= i < kept.len() && #[trigger] kept[i].hand_no == e.hand_no && e.reasons == (Reasons {
                                top: in_top(tj1, e.hand_no),
                                ..kept[i].reasons
                            }) {
                            let i = choose|i: int|
                                0 <= i < kept.len() && #[trigger] kept[i].hand_no == e.hand_no && e.reasons == (Reasons {
                                    top: in_top(tj1, e.hand_no),
                                    ..kept[i].reasons
                                });
                            assert(holds_hand(kept, h));
                        }
                    }
                    assert(before[b].hand_no == h && e.reasons == (Reasons { top: true, ..before[b].reasons }));
                }
            } else {
                assert(!holds_hand(before, h)) by {
                    if holds_hand(before, h) {
                        let b = choose|b: int| 0 <= b < before.len() && before[b].hand_no == h;
                        assert(before.contains(before[b]));
                        assert(merged_entry(kept, tj, before[b]));
                        if exists|i: int|
                            0 <= i < kept.len() && #[trigger] kept[i].hand_no == before[b].hand_no && before[b].reasons
                                == (Reasons { top: in_top(tj, before[b].hand_no), ..kept[i].reasons }) {
                            let i = choose|i: int|
                                0 <= i < kept.len() && #[trigger] kept[i].hand_no == before[b].hand_no
                                    && before[b].reasons == (Reasons {
                                    top: in_top(tj, before[b].hand_no),
                                    ..kept[i].reasons
                                });
                            assert(holds_hand(kept, h));
                        }
                    }
                }
                if merged_entry(kept, tj1, e) {
                    if exists|i: int|
                        0 <= i < kept.len() && #[trigger] kept[i].hand_no == e.hand_no && e.reasons == (Reasons {
                            top: in_top(tj1, e.hand_no),
                            ..kept[i].reasons
                        }) {
                        let i = choose|i: int|
                            0 <= i < kept.len() && #[trigger] kept[i].hand_no == e.hand_no && e.reasons == (Reasons {
                                top: in_top(tj1, e.hand_no),
                                ..kept[i].reasons
                            });
                        assert(holds_hand(kept, h));
                    }
                }
            }
        }
    }
}


/// The labels a kept hand's header lists, in sorted order: `fault`,
/// `forfeit`, `sample`, then `top` naming the size reason, each present
/// when its reason holds.
pub open spec fn reason_labels(r: Reasons, top: Seq<char>) -> Seq<Seq<char>> {
    (if r.fault {
        seq!["fault"@]
    } else {
        seq![]
    }) + (if r.forfeit {
        seq!["forfeit"@]
    } else {
        seq![]
    }) + (if r.sample {
        seq!["sample"@]
    } else {
        seq![]
    }) + (if r.top {
        seq![top]
    } else {
        seq![]
    })
}

impl Reasons {
    /// The reasons as the sorted labels a kept hand's header lists, with
    /// `top` naming the size reason.
    pub fn labels(&self, top: &'static str) -> (r: Vec<&'static str>)
        ensures
            r@.map_values(|l: &'static str| l@) == reason_labels(*self, top@),
    {
        let mut r: Vec<&'static str> = Vec::new();
        if self.fault {
            r.push("fault");
        }
        if self.forfeit {
            r.push("forfeit");
        }
        if self.sample {
            r.push("sample");
        }
        if self.top {
            r.push(top);
        }
        proof {
            assert(r@.map_values(|l: &'static str| l@) =~= reason_labels(*self, top@));
        }
        r
    }
}

/// The trailing summary line of a selective log.
pub open spec fn selective_summary_line(
    hands_seen: nat,
    hands_kept: nat,
    sample: Option<u64>,
    top_key: Seq<char>,
    top: Option<usize>,
    fault_hands_kept: nat,
) -> Seq<char> {
    "{\"log_summary\":{\"hands_seen\":"@ + decimal(hands_seen) + ",\"hands_kept\":"@ + decimal(hands_kept) + ",\"sample_first_hands\":"@
        + opt_number(match sample {
        Some(n) => Some(n as nat),
        None => None,
    }) + ",\""@ + top_key + "\":"@ + opt_number(match top {
        Some(n) => Some(n as nat),
        None => None,
    }) + ",\"fault_hands_kept\":"@ + decimal(fault_hands_kept) + "}}"@
}

/// A number, or `null` for none.
pub open spec fn opt_number(n: Option<nat>) -> Seq<char> {
    match n {
        Some(n) => decimal(n),
        None => "null"@,
    }
}

fn push_opt_number(s: &mut String, n: Option<u64>)
    ensures
        final(s)@ == old(s)@ + opt_number(match n {
            Some(v) => Some(v as nat),
            None => None,
        }),
{
    match n {
        Some(v) => push_decimal(s, v),
        None => push_str(s, "null"),
    }
}

fn summary_text(hands_seen: u64, hands_kept: u64, sample: Option<u64>, top_key: &str, top: Option<usize>, fault_hands_kept: u64) -> (r: String)
    ensures
        r@ == selective_summary_line(
            hands_seen as nat,
            hands_kept as nat,
            sample,
            top_key@,
            top,
            fault_hands_kept as nat,
        ),
{
    let mut s = String::new();
    push_str(&mut s, "{\"log_summary\":{\"hands_seen\":");
    push_decimal(&mut s, hands_seen);
    push_str(&mut s, ",\"hands_kept\":");
    push_decimal(&mut s, hands_kept);
    push_str(&mut s, ",\"sample_first_hands\":");
    push_opt_number(&mut s, sample);
    push_str(&mut s, ",\"");
    push_str(&mut s, top_key);
    push_str(&mut s, "\":");
    let top64: Option<u64> = match top {
        Some(k) => Some(k as u64),
        None => None,
    };
    push_opt_number(&mut s, top64);
    push_str(&mut s, ",\"fault_hands_kept\":");
    push_decimal(&mut s, fault_hands_kept);
    push_str(&mut s, "}}");
    proof {
        assert(s@ =~= selective_summary_line(
            hands_seen as nat,
            hands_kept as nat,
            sample,
            top_key@,
            top,
            fault_hands_kept as nat,
        ));
    }
    s
}

/// A selective betting log over the writer `out`: the first N hands
/// (extended to whole decks so a rotation set is never split), the K
/// biggest pots over the whole match, the first hands a bot faulted in,
/// and every forfeited hand.
pub struct SelectiveLog<W> {
    out: W,
    core: Selector,
}

impl<W> SelectiveLog<W> {
    pub closed spec fn writer(&self) -> W {
        self.out
    }

    /// The keep/drop bookkeeping.
    pub closed spec fn selector(&self) -> Selector {
        self.core
    }

    pub open spec fn wf(&self) -> bool {
        self.selector().wf()
    }

    /// The writer the log lines go to; nothing reaches it before the kept
    /// hands are listed.
    pub fn out(&self) -> (r: &W)
        ensures
            *r == self.writer(),
    {
        &self.out
    }

    pub fn new(out: W, selection: LogSelection) -> (r: SelectiveLog<W>)
        ensures
            r.wf(),
            r.writer() == out,
            r.selector().seen() == 0,
            r.selector().kept_view().len() == 0,
            r.selector().candidates().len() == 0,
            r.selector().top_k() == selection.top_pots,
            r.selector().open_hand() is None,
            r.selector().counters() == (0u64, 0u64, None::<u64>),
            r.selector().settings() == (selection.sample_first_hands, true, selection.fault_hands),
    {
        SelectiveLog {
            out,
            core: Selector::new(selection.sample_first_hands, true, selection.top_pots, selection.fault_hands),
        }
    }

    /// Opens hand `hand_no`, a rotation of deck `deck_no`.
    pub fn hand_start(&mut self, hand_no: u64, deck_no: u64)
        requires
            old(self).wf(),
        ensures
            final(self).wf(),
            final(self).writer() == old(self).writer(),
            final(self).selector().open_hand() == Some((hand_no, deck_no)),
            final(self).selector().seen() == old(self).selector().seen(),
            final(self).selector().kept_view() == old(self).selector().kept_view(),
            final(self).selector().candidates() == old(self).selector().candidates(),
            final(self).selector().top_view() == old(self).selector().top_view(),
            final(self).selector().top_k() == old(self).selector().top_k(),
            final(self).selector().counters() == old(self).selector().counters(),
            final(self).selector().settings() == old(self).selector().settings(),
    {
        self.core.hand_start(hand_no, deck_no);
    }

    /// Closes the open hand; its size is its pot.
    pub fn hand_end(&mut self, meta: &HandMeta)
        requires
            old(self).wf(),
            old(self).selector().seen() < u64::MAX,
        ensures
            final(self).wf(),
            final(self).writer() == old(self).writer(),
            hand_closed(old(self).selector(), final(self).selector(), meta.pot_total, meta.faulted, meta.forfeited),
    {
        self.core.hand_end(meta.pot_total, meta.faulted, meta.forfeited);
    }

    /// The kept hands in ascending hand order with their reasons.
    pub fn finish(&self) -> (r: Vec<KeptHand>)
        requires
            self.wf(),
        ensures
            ascending_hands(r@),
            forall|e: KeptHand|
                #![trigger r@.contains(e)]
                r@.contains(e) <==> merged_entry(self.selector().kept_view(), self.selector().top_view(), e),
    {
        self.core.finish()
    }

    /// The trailing summary line, `hands_kept` counting the hands
    /// [`SelectiveLog::finish`] lists.
    pub fn summary_line(&self) -> (r: String)
        requires
            self.wf(),
        ensures
            exists|kept: Seq<KeptHand>|
                ascending_hands(kept) && (forall|e: KeptHand|
                    #![trigger kept.contains(e)]
                    kept.contains(e) <==> merged_entry(self.selector().kept_view(), self.selector().top_view(), e))
                    && r@ == selective_summary_line(
                    self.selector().seen() as nat,
                    kept.len(),
                    self.selector().settings().0,
                    "top_pots"@,
                    self.selector().top_k(),
                    self.selector().counters().1 as nat,
                ),
    {
        let kept = self.core.finish();
        summary_text(
            self.core.hands_seen,
            kept.len() as u64,
            self.core.sample_first_hands,
            "top_pots",
            self.core.top_k,
            self.core.fault_hands_kept,
        )
    }
}

/// What closing the open hand does, its size being `size`.
pub open spec fn hand_closed(before: Selector, after: Selector, size: u64, faulted: bool, forfeited: bool) -> bool {
    &&& after.seen() == before.seen() + 1
    &&& after.open_hand() is None
    &&& after.top_k() == before.top_k()
    &&& after.settings() == before.settings()
    &&& match before.open_hand() {
        None => {
            &&& after.kept_view() == before.kept_view()
            &&& after.candidates() == before.candidates()
            &&& after.top_view() == before.top_view()
            &&& after.counters() == before.counters()
        },
        Some((h, d)) => {
            let (n, per_deck, cap) = before.settings();
            let (sk, fk, sd) = before.counters();
            let sample = sampled(n, per_deck, sk, sd, d);
            let fault = faulted && fk < cap;
            let entry = KeptHand { hand_no: h, reasons: Reasons { fault, forfeit: forfeited, sample, top: false } };
            &&& after.counters() == (
                if sample { (sk + 1) as u64 } else { sk },
                if fault { (fk + 1) as u64 } else { fk },
                if sample { Some(d) } else { sd },
            )
            &&& forall|e: KeptHand|
                #![trigger after.kept_view().contains(e)]
                after.kept_view().contains(e) <==> if sample || fault || forfeited {
                    e == entry || (before.kept_view().contains(e) && e.hand_no != h)
                } else {
                    before.kept_view().contains(e)
                }
            &&& after.candidates() == if before.top_k() is Some {
                before.candidates().push(TopEntry { size, hand_no: h })
            } else {
                before.candidates()
            }
        },
    }
}

/// A selective OFC log over the writer `out`: the first N hands, the K
/// biggest swings over the whole match, the first hands a bot faulted in,
/// and every forfeited hand.
pub struct OfcSelectiveLog<W> {
    out: W,
    core: Selector,
}

impl<W> OfcSelectiveLog<W> {
    pub closed spec fn writer(&self) -> W {
        self.out
    }

    /// The keep/drop bookkeeping.
    pub closed spec fn selector(&self) -> Selector {
        self.core
    }

    pub open spec fn wf(&self) -> bool {
        self.selector().wf()
    }

    /// The writer the log lines go to; nothing reaches it before the kept
    /// hands are listed.
    pub fn out(&self) -> (r: &W)
        ensures
            *r == self.writer(),
    {
        &self.out
    }

    pub fn new(out: W, selection: OfcLogSelection) -> (r: OfcSelectiveLog<W>)
        ensures
            r.wf(),
            r.writer() == out,
            r.selector().seen() == 0,
            r.selector().kept_view().len() == 0,
            r.selector().candidates().len() == 0,
            r.selector().top_k() == selection.top_swings,
            r.selector().open_hand() is None,
            r.selector().counters() == (0u64, 0u64, None::<u64>),
            r.selector().settings() == (selection.sample_first_hands, false, selection.fault_hands),
    {
        OfcSelectiveLog {
            out,
            core: Selector::new(selection.sample_first_hands, false, selection.top_swings, selection.fault_hands),
        }
    }

    /// Opens hand `hand_no`.
    pub fn hand_start(&mut self, hand_no: u64)
        requires
            old(self).wf(),
        ensures
            final(self).wf(),
            final(self).writer() == old(self).writer(),
            final(self).selector().open_hand() == Some((hand_no, hand_no)),
            final(self).selector().seen() == old(self).selector().seen(),
            final(self).selector().kept_view() == old(self).selector().kept_view(),
            final(self).selector().candidates() == old(self).selector().candidates(),
            final(self).selector().top_view() == old(self).selector().top_view(),
            final(self).selector().top_k() == old(self).selector().top_k(),
            final(self).selector().counters() == old(self).selector().counters(),
            final(self).selector().settings() == old(self).selector().settings(),
    {
        self.core.hand_start(hand_no, hand_no);
    }

    /// Closes the open hand; its size is its swing.
    pub fn hand_end(&mut self, meta: &OfcHandMeta)
        requires
            old(self).wf(),
            old(self).selector().seen() < u64::MAX,
        ensures
            final(self).wf(),
            final(self).writer() == old(self).writer(),
            hand_closed(
                old(self).selector(),
                final(self).selector(),
                crate::log::max_abs(meta.points@) as u64,
                meta.faulted@.len() > 0,
                meta.forfeited,
            ),
    {
        let swing = meta.swing();
        let faulted = meta.faulted.len() > 0;
        self.core.hand_end(swing, faulted, meta.forfeited);
    }

    /// The kept hands in ascending hand order with their reasons.
    pub fn finish(&self) -> (r: Vec<KeptHand>)
        requires
            self.wf(),
        ensures
            ascending_hands(r@),
            forall|e: KeptHand|
                #![trigger r@.contains(e)]
                r@.contains(e) <==> merged_entry(self.selector().kept_view(), self.selector().top_view(), e),
    {
        self.core.finish()
    }

    /// The trailing summary line, `hands_kept` counting the hands
    /// [`OfcSelectiveLog::finish`] lists.
    pub fn summary_line(&self) -> (r: String)
        requires
            self.wf(),
        ensures
            exists|kept: Seq<KeptHand>|
                ascending_hands(kept) && (forall|e: KeptHand|
                    #![trigger kept.contains(e)]
                    kept.contains(e) <==> merged_entry(self.selector().kept_view(), self.selector().top_view(), e))
                    && r@ == selective_summary_line(
                    self.selector().seen() as nat,
                    kept.len(),
                    self.selector().settings().0,
                    "top_swings"@,
                    self.selector().top_k(),
                    self.selector().counters().1 as nat,
                ),
    {
        let kept = self.core.finish();
        summary_text(
            self.core.hands_seen,
            kept.len() as u64,
            self.core.sample_first_hands,
            "top_swings",
            self.core.top_k,
            self.core.fault_hands_kept,
        )
    }
}

/// The biggest hands a selective log flags are the global top K over every
/// hand it closed: K of them (or all, when fewer closed), none left out
/// ranking above one chosen, ranking by size and then by the lower hand
/// number.
pub proof fn lemma_biggest_hands_are_global(sel: Selector)
    requires
        sel.wf(),
    ensures
        sel.top_k() is Some ==> exists|idx: Seq<int>|
            top_choice(sel.candidates(), sel.top_k()->0 as nat, sel.top_view(), idx),
        sel.top_k() is None ==> sel.top_view().len() == 0,
{
    sel.lemma_top_is_global();
}


/// A forfeited hand is always kept, whatever the fault cap: closing it
/// files it with the forfeit reason.
pub proof fn lemma_forfeit_always_kept(before: Selector, after: Selector, size: u64, faulted: bool)
    requires
        before.open_hand() is Some,
        hand_closed(before, after, size, faulted, true),
    ensures
        exists|e: KeptHand|
            #![trigger after.kept_view().contains(e)]
            after.kept_view().contains(e) && e.hand_no == (before.open_hand()->0).0 && e.reasons.forfeit,
{
    let (h, d) = before.open_hand()->0;
    let (n, per_deck, cap) = before.settings();
    let (sk, fk, sd) = before.counters();
    let sample = sampled(n, per_deck, sk, sd, d);
    let fault = faulted && fk < cap;
    let entry = KeptHand { hand_no: h, reasons: Reasons { fault, forfeit: true, sample, top: false } };
    assert(after.kept_view().contains(entry));
}

} // verus!
