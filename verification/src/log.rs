//! Hand-history bookkeeping: per-hand metadata, what a full log counts, and
//! which hands a selective log keeps.
use vstd::prelude::*;
use crate::selective::{reason_labels, Reasons};
use crate::text::{comma_join, decimal, json_quoted, json_string, lemma_comma_join_push, push_decimal, push_str};

verus! {

/// Hand-boundary metadata of a betting hand.
#[derive(Clone, Copy, Debug, PartialEq, Eq, Structural)]
pub struct HandMeta {
    /// Total chips in the pot at settlement.
    pub pot_total: u64,
    /// Any bot faulted during this hand.
    pub faulted: bool,
    /// The hand was cut short by a forfeit.
    pub forfeited: bool,
}

/// Hand-boundary metadata of an OFC hand.
#[derive(Clone, Debug)]
pub struct OfcHandMeta {
    /// Net points by seat, summing to zero; all zero for a forfeited hand.
    pub points: Vec<i64>,
    /// Seats whose bot faulted during this hand, ascending.
    pub faulted: Vec<usize>,
    /// The hand was cut short by a forfeit.
    pub forfeited: bool,
}

/// The absolute value of a point result.
pub open spec fn abs_points(p: i64) -> nat {
    if p < 0 {
        (-p) as nat
    } else {
        p as nat
    }
}

/// The largest absolute value in `s` (zero when `s` is empty).
pub open spec fn max_abs(s: Seq<i64>) -> nat
    decreases s.len(),
{
    if s.len() == 0 {
        0
    } else {
        let rest = max_abs(s.drop_last());
        if abs_points(s.last()) > rest {
            abs_points(s.last())
        } else {
            rest
        }
    }
}

proof fn lemma_max_abs_bounds(s: Seq<i64>)
    ensures
        forall|i: int| 0 <= i < s.len() ==> abs_points(#[trigger] s[i]) <= max_abs(s),
        s.len() == 0 ==> max_abs(s) == 0,
        s.len() > 0 ==> exists|i: int| 0 <= i < s.len() && abs_points(#[trigger] s[i]) == max_abs(s),
    decreases s.len(),
{
    if s.len() > 0 {
        lemma_max_abs_bounds(s.drop_last());
        assert forall|i: int| 0 <= i < s.len() implies abs_points(#[trigger] s[i]) <= max_abs(s) by {
            if i < s.len() - 1 {
                assert(s[i] == s.drop_last()[i]);
            }
        }
        if abs_points(s.last()) > max_abs(s.drop_last()) {
            assert(abs_points(s[s.len() - 1]) == max_abs(s));
        } else if s.len() > 1 {
            let w = choose|i: int| 0 <= i < s.drop_last().len() && abs_points(#[trigger] s.drop_last()[i]) == max_abs(s.drop_last());
            assert(s[w] == s.drop_last()[w]);
        } else {
            assert(abs_points(s[0]) >= 0);
        }
    }
}

impl OfcHandMeta {
    /// The hand's swing: the largest absolute per-seat result, zero when no
    /// seat is listed.
    pub fn swing(&self) -> (r: u64)
        ensures
            r == max_abs(self.points@),
            forall|i: int| 0 <= i < self.points@.len() ==> abs_points(#[trigger] self.points@[i]) <= r,
    {
        proof {
            lemma_max_abs_bounds(self.points@);
        }
        let mut best: u64 = 0;
        let mut i: usize = 0;
        while i < self.points.len()
            invariant
                i <= self.points@.len(),
                best == max_abs(self.points@.take(i as int)),
            decreases self.points@.len() - i,
        {
            let p = self.points[i];
            let a: u64 = if p < 0 {
                ((-(p + 1)) as u64) + 1
            } else {
                p as u64
            };
            proof {
                assert(self.points@.take(i as int + 1).drop_last() =~= self.points@.take(i as int));
            }
            if a > best {
                best = a;
            }
            i = i + 1;
        }
        proof {
            assert(self.points@.take(self.points@.len() as int) =~= self.points@);
        }
        best
    }
}

/// Which hands a selective betting log keeps.
#[derive(Clone, Copy, Debug, PartialEq, Eq, Structural)]
pub struct LogSelection {
    /// Keep the first N hands, extended to whole decks so a rotation set is
    /// never split. `None` = off.
    pub sample_first_hands: Option<u64>,
    /// Keep the K biggest-pot hands.
    pub top_pots: Option<usize>,
    /// Keep the first K hands in which any bot faulted; forfeits are always
    /// kept.
    pub fault_hands: u64,
}

/// Which hands a selective OFC log keeps.
#[derive(Clone, Copy, Debug, PartialEq, Eq, Structural)]
pub struct OfcLogSelection {
    /// Keep the first N hands. `None` = off.
    pub sample_first_hands: Option<u64>,
    /// Keep the K hands with the largest swing.
    pub top_swings: Option<usize>,
    /// Keep the first K hands in which any bot faulted; forfeits are always
    /// kept.
    pub fault_hands: u64,
}

/// `items` as a JSON array of strings.
pub open spec fn json_strings(items: Seq<Seq<char>>) -> Seq<char> {
    "["@ + comma_join(items.map_values(|x: Seq<char>| json_quoted(x))) + "]"@
}

/// The header line opening a hand: its number, the deck it was dealt from
/// (betting logs), the seated bots' names, and (in a selective log) why it
/// was kept.
pub open spec fn header_text(hand: u64, deck: Option<u64>, seats: Seq<Seq<char>>, kept: Option<Seq<Seq<char>>>) -> Seq<char> {
    "{\"hand\":"@ + decimal(hand as nat) + (match deck {
        Some(d) => ",\"deck\":"@ + decimal(d as nat),
        None => Seq::empty(),
    }) + ",\"seats\":"@ + json_strings(seats) + (match kept {
        Some(k) => ",\"kept\":"@ + json_strings(k),
        None => Seq::empty(),
    }) + "}"@
}

/// The names of `seats`.
pub open spec fn names(seats: Seq<String>) -> Seq<Seq<char>> {
    seats.map_values(|s: String| s@)
}

/// Appends `items` to `out` as a JSON array of strings.
fn push_names(out: &mut String, items: &[String])
    ensures
        final(out)@ == old(out)@ + json_strings(names(items@)),
{
    push_str(out, "[");
    let ghost start = out@;
    let mut i: usize = 0;
    proof {
        assert(names(items@.take(0)).map_values(|x: Seq<char>| json_quoted(x)) =~= Seq::<Seq<char>>::empty());
    }
    while i < items.len()
        invariant
            i <= items@.len(),
            out@ == start + comma_join(names(items@.take(i as int)).map_values(|x: Seq<char>| json_quoted(x))),
        decreases items@.len() - i,
    {
        let ghost before = names(items@.take(i as int)).map_values(|x: Seq<char>| json_quoted(x));
        if i > 0 {
            push_str(out, ",");
        }
        let q = json_string(items[i].as_str());
        push_str(out, q.as_str());
        proof {
            lemma_comma_join_push(before, json_quoted(items@[i as int]@));
            assert(names(items@.take(i + 1)).map_values(|x: Seq<char>| json_quoted(x)) =~= before.push(
                json_quoted(items@[i as int]@),
            ));
        }
        i = i + 1;
    }
    proof {
        assert(items@.take(i as int) =~= items@);
    }
    push_str(out, "]");
    proof {
        assert(out@ =~= old(out)@ + json_strings(names(items@)));
    }
}

/// Appends `items` to `out` as a JSON array of strings.
fn push_labels(out: &mut String, items: &Vec<&'static str>)
    ensures
        final(out)@ == old(out)@ + json_strings(items@.map_values(|l: &'static str| l@)),
{
    let ghost all = items@.map_values(|l: &'static str| l@);
    push_str(out, "[");
    let ghost start = out@;
    let mut i: usize = 0;
    proof {
        assert(all.take(0).map_values(|x: Seq<char>| json_quoted(x)) =~= Seq::<Seq<char>>::empty());
    }
    while i < items.len()
        invariant
            i <= items@.len(),
            all == items@.map_values(|l: &'static str| l@),
            out@ == start + comma_join(all.take(i as int).map_values(|x: Seq<char>| json_quoted(x))),
        decreases items@.len() - i,
    {
        let ghost before = all.take(i as int).map_values(|x: Seq<char>| json_quoted(x));
        if i > 0 {
            push_str(out, ",");
        }
        let q = json_string(items[i]);
        push_str(out, q.as_str());
        proof {
            lemma_comma_join_push(before, json_quoted(all[i as int]));
            assert(all.take(i + 1).map_values(|x: Seq<char>| json_quoted(x)) =~= before.push(json_quoted(all[i as int])));
        }
        i = i + 1;
    }
    proof {
        assert(all.take(i as int) =~= all);
    }
    push_str(out, "]");
    proof {
        assert(out@ =~= old(out)@ + json_strings(all));
    }
}

/// The header line opening hand `hand_no`, without its newline.
fn header_line(hand_no: u64, deck_no: Option<u64>, seats: &[String], kept: Option<&Vec<&'static str>>) -> (r: String)
    ensures
        r@ == header_text(
            hand_no,
            deck_no,
            names(seats@),
            match kept {
                Some(k) => Some(k@.map_values(|l: &'static str| l@)),
                None => None,
            },
        ),
{
    let mut s = String::new();
    push_str(&mut s, "{\"hand\":");
    push_decimal(&mut s, hand_no);
    match deck_no {
        Some(d) => {
            push_str(&mut s, ",\"deck\":");
            push_decimal(&mut s, d);
        },
        None => {},
    }
    push_str(&mut s, ",\"seats\":");
    push_names(&mut s, seats);
    match kept {
        Some(k) => {
            push_str(&mut s, ",\"kept\":");
            push_labels(&mut s, k);
        },
        None => {},
    }
    push_str(&mut s, "}");
    proof {
        assert(s@ =~= header_text(
            hand_no,
            deck_no,
            names(seats@),
            match kept {
                Some(k) => Some(k@.map_values(|l: &'static str| l@)),
                None => None,
            },
        ));
    }
    s
}

/// The header line a selective log writes for a kept hand, listing why it
/// was kept (`top` naming the size reason); `deck_no` is given for betting
/// hands.
pub fn kept_header_line(hand_no: u64, deck_no: Option<u64>, seats: &[String], reasons: Reasons, top: &'static str) -> (r: String)
    ensures
        r@ == header_text(hand_no, deck_no, names(seats@), Some(reason_labels(reasons, top@))),
{
    let labels = reasons.labels(top);
    header_line(hand_no, deck_no, seats, Some(&labels))
}

/// The trailing summary line of a full log, where every hand seen is kept.
pub open spec fn full_summary_line(hands_seen: nat) -> Seq<char> {
    "{\"log_summary\":{\"hands_seen\":"@ + crate::text::decimal(hands_seen) + ",\"hands_kept\":"@
        + crate::text::decimal(hands_seen) + "}}"@
}

/// A full hand-history log over the writer `out`: it records which hand is
/// open and how many hands have closed.
pub struct JsonLog<W> {
    out: W,
    hand_no: u64,
    hands_seen: u64,
}

impl<W> JsonLog<W> {
    pub closed spec fn current_hand(&self) -> u64 {
        self.hand_no
    }

    pub closed spec fn seen(&self) -> u64 {
        self.hands_seen
    }

    pub closed spec fn writer(&self) -> W {
        self.out
    }

    /// The writer the log lines go to.
    pub fn out(&self) -> (r: &W)
        ensures
            *r == self.writer(),
    {
        &self.out
    }

    pub fn new(out: W) -> (r: JsonLog<W>)
        ensures
            r.writer() == out,
            r.current_hand() == 0,
            r.seen() == 0,
    {
        JsonLog { out, hand_no: 0, hands_seen: 0 }
    }

    /// Opens hand `hand_no`, dealt from deck `deck_no` to `seats`: the
    /// event lines that follow carry its number. Returns the header line
    /// that opens the hand, without its newline.
    pub fn hand_start(&mut self, hand_no: u64, deck_no: u64, seats: &[String]) -> (header: String)
        ensures
            final(self).current_hand() == hand_no,
            final(self).seen() == old(self).seen(),
            final(self).writer() == old(self).writer(),
            header@ == header_text(hand_no, Some(deck_no), names(seats@), None),
    {
        self.hand_no = hand_no;
        header_line(hand_no, Some(deck_no), seats, None)
    }

    /// Closes the open hand.
    pub fn hand_end(&mut self)
        requires
            old(self).seen() < u64::MAX,
        ensures
            final(self).seen() == old(self).seen() + 1,
            final(self).current_hand() == old(self).current_hand(),
            final(self).writer() == old(self).writer(),
    {
        self.hands_seen = self.hands_seen + 1;
    }

    /// The trailing summary line, without its newline.
    pub fn summary_line(&self) -> (r: String)
        ensures
            r@ == full_summary_line(self.seen() as nat),
    {
        summary_text(self.hands_seen)
    }
}

/// A full OFC hand-history log over the writer `out`.
pub struct OfcJsonLog<W> {
    out: W,
    hand_no: u64,
    hands_seen: u64,
}

impl<W> OfcJsonLog<W> {
    pub closed spec fn current_hand(&self) -> u64 {
        self.hand_no
    }

    pub closed spec fn seen(&self) -> u64 {
        self.hands_seen
    }

    pub closed spec fn writer(&self) -> W {
        self.out
    }

    /// The writer the log lines go to.
    pub fn out(&self) -> (r: &W)
        ensures
            *r == self.writer(),
    {
        &self.out
    }

    pub fn new(out: W) -> (r: OfcJsonLog<W>)
        ensures
            r.writer() == out,
            r.current_hand() == 0,
            r.seen() == 0,
    {
        OfcJsonLog { out, hand_no: 0, hands_seen: 0 }
    }

    /// Opens hand `hand_no` with `seats` holding the named bots. Returns
    /// the header line that opens the hand, without its newline.
    pub fn hand_start(&mut self, hand_no: u64, seats: &[String]) -> (header: String)
        ensures
            final(self).current_hand() == hand_no,
            final(self).seen() == old(self).seen(),
            final(self).writer() == old(self).writer(),
            header@ == header_text(hand_no, None, names(seats@), None),
    {
        self.hand_no = hand_no;
        header_line(hand_no, None, seats, None)
    }

    /// Closes the open hand.
    pub fn hand_end(&mut self)
        requires
            old(self).seen() < u64::MAX,
        ensures
            final(self).seen() == old(self).seen() + 1,
            final(self).current_hand() == old(self).current_hand(),
            final(self).writer() == old(self).writer(),
    {
        self.hands_seen = self.hands_seen + 1;
    }

    /// The trailing summary line, without its newline.
    pub fn summary_line(&self) -> (r: String)
        ensures
            r@ == full_summary_line(self.seen() as nat),
    {
        summary_text(self.hands_seen)
    }
}

fn summary_text(hands_seen: u64) -> (r: String)
    ensures
        r@ == full_summary_line(hands_seen as nat),
{
    let mut s = String::new();
    push_str(&mut s, "{\"log_summary\":{\"hands_seen\":");
    push_decimal(&mut s, hands_seen);
    push_str(&mut s, ",\"hands_kept\":");
    push_decimal(&mut s, hands_seen);
    push_str(&mut s, "}}");
    proof {
        assert(s@ =~= full_summary_line(hands_seen as nat));
    }
    s
}

} // verus!
