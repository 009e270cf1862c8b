//! The true public game tree of heads-up fixed-limit 2-7 triple draw.
//!
//! Two betting-street templates (preflop opens facing the blind, the blind
//! counting as the first of four capped wagers; postdraw streets open
//! check-or-bet), draw rounds where each player discards 0-5, and exact
//! dynamic-programming totals over the seven-stage sequence
//! `BET -> DRAW -> BET -> DRAW -> BET -> DRAW -> BET(showdown)`.
use vstd::prelude::*;
use crate::text::{push_char, push_str, push_decimal, decimal, comma_join, lemma_comma_join_push};

verus! {

/// The view of one outcome: action letters, whether it folds, wagers.
pub type OutcomeView = (Seq<char>, bool, u8);

/// The view of a template's two lists: decision prefixes and outcomes.
pub type ShapeView = (Seq<Seq<char>>, Seq<OutcomeView>);

/// One complete betting sequence within a single street.
#[derive(Clone, Debug)]
pub struct Outcome {
    /// Action letters from the street's first actor: `k` check, `b` bet,
    /// `c` call, `r` raise, `f` fold.
    pub seq: String,
    /// Ends the hand (fold) rather than continuing to the next stage.
    pub fold: bool,
    /// Total wagers on the street when it closed (blind included
    /// preflop; 0 = checked through).
    pub wagers: u8,
}

impl View for Outcome {
    type V = OutcomeView;

    open spec fn view(&self) -> OutcomeView {
        (self.seq@, self.fold, self.wagers)
    }
}

/// A betting street's full shape: every decision prefix and outcome.
#[derive(Clone, Debug)]
pub struct StreetTemplate {
    /// Seat index (0 = button) acting first.
    pub first_actor: usize,
    /// Every prefix at which some player must act, in discovery order;
    /// `""` is the street's opening decision.
    pub prefixes: Vec<String>,
    pub outcomes: Vec<Outcome>,
}

impl StreetTemplate {
    /// The prefix and outcome lists as plain sequences.
    pub open spec fn shape(&self) -> ShapeView {
        (
            self.prefixes@.map_values(|s: String| s@),
            self.outcomes@.map_values(|o: Outcome| o@),
        )
    }

    /// Number of outcomes that continue to the next stage.
    pub fn continuing(&self) -> (r: usize)
        ensures
            r == count_continuing(self.shape().1),
    {
        let mut count: usize = 0;
        let mut i: usize = 0;
        while i < self.outcomes.len()
            invariant
                i <= self.outcomes.len(),
                count <= i,
                count == count_continuing(self.shape().1.take(i as int)),
            decreases self.outcomes.len() - i,
        {
            proof {
                let s = self.shape().1;
                assert(s.take(i as int + 1).drop_last() =~= s.take(i as int));
            }
            if !self.outcomes[i].fold {
                count = count + 1;
            }
            i = i + 1;
        }
        proof {
            let s = self.shape().1;
            assert(s.take(s.len() as int) =~= s);
        }
        count
    }

    /// Number of outcomes that end the hand by a fold.
    pub fn folds(&self) -> (r: usize)
        ensures
            r == self.shape().1.len() - count_continuing(self.shape().1),
    {
        let c = self.continuing();
        proof {
            lemma_continuing_bounded(self.shape().1);
        }
        self.outcomes.len() - c
    }
}

/// How many of `outs` do not fold.
pub open spec fn count_continuing(outs: Seq<OutcomeView>) -> nat
    decreases outs.len(),
{
    if outs.len() == 0 {
        0
    } else {
        count_continuing(outs.drop_last()) + if outs.last().1 {
            0nat
        } else {
            1nat
        }
    }
}

/// How many of `outs` fold.
pub open spec fn count_folds(outs: Seq<OutcomeView>) -> nat {
    (outs.len() - count_continuing(outs)) as nat
}

pub proof fn lemma_continuing_bounded(outs: Seq<OutcomeView>)
    ensures
        count_continuing(outs) <= outs.len(),
    decreases outs.len(),
{
    if outs.len() > 0 {
        lemma_continuing_bounded(outs.drop_last());
    }
}

/// The engine's raise cap: four wagers per street, the preflop blind
/// counting as the first.
pub const WAGER_CAP: u8 = 4;

/// Discard options per player per draw round in the true game (0..=5).
pub const TRUE_DRAW_OPTIONS: usize = 6;

/// The preflop walk: a decision at `seq` with `wagers` live, `option` set
/// when the big blind holds its option after the button's plain call.
pub open spec fn preflop_walk(acc: ShapeView, seq: Seq<char>, wagers: u8, option: bool) -> ShapeView
    decreases 2 * (4 - wagers) + if option {
        0int
    } else {
        1int
    },
    when wagers <= 4
{
    let with_prefix = (acc.0.push(seq), acc.1);
    if option {
        let closed = (with_prefix.0, with_prefix.1.push((seq.push('k'), false, wagers)));
        if wagers < 4 {
            preflop_walk(closed, seq.push('r'), (wagers + 1) as u8, false)
        } else {
            closed
        }
    } else {
        let folded = (with_prefix.0, with_prefix.1.push((seq.push('f'), true, wagers)));
        let called = if seq.len() == 0 {
            preflop_walk(folded, seq.push('c'), wagers, true)
        } else {
            (folded.0, folded.1.push((seq.push('c'), false, wagers)))
        };
        if wagers < 4 {
            preflop_walk(called, seq.push('r'), (wagers + 1) as u8, false)
        } else {
            called
        }
    }
}

/// The postdraw walk: a decision at `seq` with `wagers` made, `checked`
/// once the first actor has checked.
pub open spec fn postdraw_walk(acc: ShapeView, seq: Seq<char>, wagers: u8, checked: bool) -> ShapeView
    decreases 2 * (5 - wagers) + if checked {
        0int
    } else {
        1int
    },
    when wagers <= 4
{
    let with_prefix = (acc.0.push(seq), acc.1);
    if wagers == 0 {
        let after_check = if checked {
            (with_prefix.0, with_prefix.1.push((seq.push('k'), false, 0u8)))
        } else {
            postdraw_walk(with_prefix, seq.push('k'), 0, true)
        };
        postdraw_walk(after_check, seq.push('b'), 1, checked)
    } else {
        let folded = (with_prefix.0, with_prefix.1.push((seq.push('f'), true, wagers)));
        let called = (folded.0, folded.1.push((seq.push('c'), false, wagers)));
        if wagers < 4 {
            postdraw_walk(called, seq.push('r'), (wagers + 1) as u8, checked)
        } else {
            called
        }
    }
}

/// The preflop street's shape.
pub open spec fn preflop_shape() -> ShapeView {
    preflop_walk((Seq::empty(), Seq::empty()), Seq::empty(), 1, false)
}

/// The postdraw street's shape.
pub open spec fn postdraw_shape() -> ShapeView {
    postdraw_walk((Seq::empty(), Seq::empty()), Seq::empty(), 0, false)
}

fn preflop_walk_exec(template: &mut StreetTemplate, seq: String, wagers: u8, option: bool)
    requires
        wagers <= 4,
    ensures
        final(template).first_actor == old(template).first_actor,
        final(template).shape() == preflop_walk(old(template).shape(), seq@, wagers, option),
    decreases 2 * (4 - wagers) + if option {
        0int
    } else {
        1int
    },
{
    let ghost acc = template.shape();
    template.prefixes.push(seq.clone());
    proof {
        assert(template.shape().0 =~= acc.0.push(seq@));
        assert(template.shape().1 =~= acc.1);
    }
    if option {
        let mut closed = seq.clone();
        push_char(&mut closed, 'k');
        template.outcomes.push(Outcome { seq: closed, fold: false, wagers });
        proof {
            assert(template.shape().1 =~= acc.1.push((seq@.push('k'), false, wagers)));
        }
        if wagers < WAGER_CAP {
            let mut raised = seq.clone();
            push_char(&mut raised, 'r');
            preflop_walk_exec(template, raised, wagers + 1, false);
        }
        return ;
    }
    let mut folded = seq.clone();
    push_char(&mut folded, 'f');
    template.outcomes.push(Outcome { seq: folded, fold: true, wagers });
    proof {
        assert(template.shape().1 =~= acc.1.push((seq@.push('f'), true, wagers)));
    }
    let mut called = seq.clone();
    push_char(&mut called, 'c');
    if seq.as_str().is_empty() {
        preflop_walk_exec(template, called, wagers, true);
    } else {
        let ghost before = template.shape();
        template.outcomes.push(Outcome { seq: called, fold: false, wagers });
        proof {
            assert(template.shape().1 =~= before.1.push((seq@.push('c'), false, wagers)));
            assert(template.shape().0 =~= before.0);
        }
    }
    if wagers < WAGER_CAP {
        let mut raised = seq.clone();
        push_char(&mut raised, 'r');
        preflop_walk_exec(template, raised, wagers + 1, false);
    }
}

/// The preflop street: heads-up, the button (seat 0) acts first facing
/// the big blind, which counts as wager one. The big blind holds the
/// option: after a plain call it may check or raise.
pub fn preflop_template() -> (t: StreetTemplate)
    ensures
        t.first_actor == 0,
        t.shape() == preflop_shape(),
{
    let mut template = StreetTemplate { first_actor: 0, prefixes: Vec::new(), outcomes: Vec::new() };
    proof {
        assert(template.shape().0 =~= Seq::empty());
        assert(template.shape().1 =~= Seq::empty());
    }
    preflop_walk_exec(&mut template, String::new(), 1, false);
    template
}


fn postdraw_walk_exec(template: &mut StreetTemplate, seq: String, wagers: u8, checked: bool)
    requires
        wagers <= 4,
    ensures
        final(template).first_actor == old(template).first_actor,
        final(template).shape() == postdraw_walk(old(template).shape(), seq@, wagers, checked),
    decreases 2 * (5 - wagers) + if checked {
        0int
    } else {
        1int
    },
{
    let ghost acc = template.shape();
    template.prefixes.push(seq.clone());
    proof {
        assert(template.shape().0 =~= acc.0.push(seq@));
        assert(template.shape().1 =~= acc.1);
    }
    if wagers == 0 {
        if checked {
            let ghost before = template.shape();
            let mut closed = seq.clone();
            push_char(&mut closed, 'k');
            template.outcomes.push(Outcome { seq: closed, fold: false, wagers: 0 });
            proof {
                assert(template.shape().1 =~= before.1.push((seq@.push('k'), false, 0u8)));
                assert(template.shape().0 =~= before.0);
            }
        } else {
            let mut checking = seq.clone();
            push_char(&mut checking, 'k');
            postdraw_walk_exec(template, checking, 0, true);
        }
        let mut bet = seq.clone();
        push_char(&mut bet, 'b');
        postdraw_walk_exec(template, bet, 1, checked);
        return ;
    }
    let ghost before = template.shape();
    let mut folded = seq.clone();
    push_char(&mut folded, 'f');
    template.outcomes.push(Outcome { seq: folded, fold: true, wagers });
    let mut called = seq.clone();
    push_char(&mut called, 'c');
    template.outcomes.push(Outcome { seq: called, fold: false, wagers });
    proof {
        assert(template.shape().1 =~= before.1.push((seq@.push('f'), true, wagers)).push(
            (seq@.push('c'), false, wagers),
        ));
        assert(template.shape().0 =~= before.0);
    }
    if wagers < WAGER_CAP {
        let mut raised = seq.clone();
        push_char(&mut raised, 'r');
        postdraw_walk_exec(template, raised, wagers + 1, checked);
    }
}

/// A postdraw street: first actor is seat 1 (left of the button); opens
/// check-or-bet, the opening bet counting as wager one.
pub fn postdraw_template() -> (t: StreetTemplate)
    ensures
        t.first_actor == 1,
        t.shape() == postdraw_shape(),
{
    let mut template = StreetTemplate { first_actor: 1, prefixes: Vec::new(), outcomes: Vec::new() };
    proof {
        assert(template.shape().0 =~= Seq::empty());
        assert(template.shape().1 =~= Seq::empty());
    }
    postdraw_walk_exec(&mut template, String::new(), 0, false);
    template
}

proof fn lemma_count_push(outs: Seq<OutcomeView>, o: OutcomeView)
    ensures
        count_continuing(outs.push(o)) == count_continuing(outs) + if o.1 {
            0nat
        } else {
            1nat
        },
{
    assert(outs.push(o).drop_last() =~= outs);
}

/// Growth of the preflop walk: prefixes, outcomes and continuing outcomes
/// it adds, as closed forms in the wagers live.
proof fn lemma_preflop_walk_counts(acc: ShapeView, seq: Seq<char>, wagers: u8, option: bool)
    requires
        1 <= wagers <= 4,
    ensures
        ({
            let r = preflop_walk(acc, seq, wagers, option);
            let (p, o, c) = if option {
                (5 - wagers, 9 - 2 * wagers, 5 - wagers)
            } else if seq.len() == 0 {
                (10 - 2 * wagers, 18 - 4 * wagers, 9 - 2 * wagers)
            } else {
                (5 - wagers, 10 - 2 * wagers, 5 - wagers)
            };
            &&& r.0.len() == acc.0.len() + p
            &&& r.1.len() == acc.1.len() + o
            &&& count_continuing(r.1) == count_continuing(acc.1) + c
        }),
    decreases 2 * (4 - wagers) + if option {
        0int
    } else {
        1int
    },
{
    let with_prefix = (acc.0.push(seq), acc.1);
    if option {
        let closed = (with_prefix.0, with_prefix.1.push((seq.push('k'), false, wagers)));
        lemma_count_push(with_prefix.1, (seq.push('k'), false, wagers));
        if wagers < 4 {
            lemma_preflop_walk_counts(closed, seq.push('r'), (wagers + 1) as u8, false);
        }
    } else {
        let folded = (with_prefix.0, with_prefix.1.push((seq.push('f'), true, wagers)));
        lemma_count_push(with_prefix.1, (seq.push('f'), true, wagers));
        let called = if seq.len() == 0 {
            preflop_walk(folded, seq.push('c'), wagers, true)
        } else {
            (folded.0, folded.1.push((seq.push('c'), false, wagers)))
        };
        if seq.len() == 0 {
            lemma_preflop_walk_counts(folded, seq.push('c'), wagers, true);
        } else {
            lemma_count_push(folded.1, (seq.push('c'), false, wagers));
        }
        if wagers < 4 {
            lemma_preflop_walk_counts(called, seq.push('r'), (wagers + 1) as u8, false);
        }
    }
}

/// Growth of the postdraw walk, as closed forms in the wagers made.
proof fn lemma_postdraw_walk_counts(acc: ShapeView, seq: Seq<char>, wagers: u8, checked: bool)
    requires
        wagers <= 4,
    ensures
        ({
            let r = postdraw_walk(acc, seq, wagers, checked);
            let (p, o, c) = if wagers > 0 {
                (5 - wagers, 10 - 2 * wagers, 5 - wagers)
            } else if checked {
                (5int, 9int, 5int)
            } else {
                (10int, 17int, 9int)
            };
            &&& r.0.len() == acc.0.len() + p
            &&& r.1.len() == acc.1.len() + o
            &&& count_continuing(r.1) == count_continuing(acc.1) + c
        }),
    decreases 2 * (5 - wagers) + if checked {
        0int
    } else {
        1int
    },
{
    let with_prefix = (acc.0.push(seq), acc.1);
    if wagers == 0 {
        let after_check = if checked {
            (with_prefix.0, with_prefix.1.push((seq.push('k'), false, 0u8)))
        } else {
            postdraw_walk(with_prefix, seq.push('k'), 0, true)
        };
        if checked {
            lemma_count_push(with_prefix.1, (seq.push('k'), false, 0u8));
        } else {
            lemma_postdraw_walk_counts(with_prefix, seq.push('k'), 0, true);
        }
        lemma_postdraw_walk_counts(after_check, seq.push('b'), 1, checked);
    } else {
        let folded = (with_prefix.0, with_prefix.1.push((seq.push('f'), true, wagers)));
        let called = (folded.0, folded.1.push((seq.push('c'), false, wagers)));
        lemma_count_push(with_prefix.1, (seq.push('f'), true, wagers));
        lemma_count_push(folded.1, (seq.push('c'), false, wagers));
        if wagers < 4 {
            lemma_postdraw_walk_counts(called, seq.push('r'), (wagers + 1) as u8, checked);
        }
    }
}

/// The preflop street has 8 decision prefixes and 14 outcomes, 7 of which
/// continue and 7 fold; the postdraw street has 10 prefixes and 17
/// outcomes, 9 continuing and 8 folding.
pub proof fn lemma_template_counts()
    ensures
        preflop_shape().0.len() == 8,
        preflop_shape().1.len() == 14,
        count_continuing(preflop_shape().1) == 7,
        postdraw_shape().0.len() == 10,
        postdraw_shape().1.len() == 17,
        count_continuing(postdraw_shape().1) == 9,
{
    let empty: ShapeView = (Seq::empty(), Seq::empty());
    assert(count_continuing(empty.1) == 0);
    lemma_preflop_walk_counts(empty, Seq::empty(), 1, false);
    lemma_postdraw_walk_counts(empty, Seq::empty(), 0, false);
}


/// The preflop street spelled out: its decision prefixes and its outcomes
/// (`f` fold, `c` call, `k` check, `r` raise), each outcome with whether it
/// folds and the wagers made.
pub proof fn lemma_preflop_lists()
    ensures
        preflop_shape().0 == seq![
            Seq::<char>::empty(),
            seq!['c'],
            seq!['c', 'r'],
            seq!['c', 'r', 'r'],
            seq!['c', 'r', 'r', 'r'],
            seq!['r'],
            seq!['r', 'r'],
            seq!['r', 'r', 'r'],
        ],
        preflop_shape().1 == seq![
            (seq!['f'], true, 1u8),
            (seq!['c', 'k'], false, 1u8),
            (seq!['c', 'r', 'f'], true, 2u8),
            (seq!['c', 'r', 'c'], false, 2u8),
            (seq!['c', 'r', 'r', 'f'], true, 3u8),
            (seq!['c', 'r', 'r', 'c'], false, 3u8),
            (seq!['c', 'r', 'r', 'r', 'f'], true, 4u8),
            (seq!['c', 'r', 'r', 'r', 'c'], false, 4u8),
            (seq!['r', 'f'], true, 2u8),
            (seq!['r', 'c'], false, 2u8),
            (seq!['r', 'r', 'f'], true, 3u8),
            (seq!['r', 'r', 'c'], false, 3u8),
            (seq!['r', 'r', 'r', 'f'], true, 4u8),
            (seq!['r', 'r', 'r', 'c'], false, 4u8),
        ],
{
    reveal_with_fuel(preflop_walk, 12);
    assert(preflop_shape().0 =~~= seq![
        Seq::<char>::empty(),
        seq!['c'],
        seq!['c', 'r'],
        seq!['c', 'r', 'r'],
        seq!['c', 'r', 'r', 'r'],
        seq!['r'],
        seq!['r', 'r'],
        seq!['r', 'r', 'r'],
    ]);
    assert(preflop_shape().1 =~~= seq![
        (seq!['f'], true, 1u8),
        (seq!['c', 'k'], false, 1u8),
        (seq!['c', 'r', 'f'], true, 2u8),
        (seq!['c', 'r', 'c'], false, 2u8),
        (seq!['c', 'r', 'r', 'f'], true, 3u8),
        (seq!['c', 'r', 'r', 'c'], false, 3u8),
        (seq!['c', 'r', 'r', 'r', 'f'], true, 4u8),
        (seq!['c', 'r', 'r', 'r', 'c'], false, 4u8),
        (seq!['r', 'f'], true, 2u8),
        (seq!['r', 'c'], false, 2u8),
        (seq!['r', 'r', 'f'], true, 3u8),
        (seq!['r', 'r', 'c'], false, 3u8),
        (seq!['r', 'r', 'r', 'f'], true, 4u8),
        (seq!['r', 'r', 'r', 'c'], false, 4u8),
    ]);
}

/// The postdraw street spelled out: its decision prefixes and its outcomes
/// (`k` check, `b` bet, `f` fold, `c` call, `r` raise), each outcome with
/// whether it folds and the wagers made.
pub proof fn lemma_postdraw_lists()
    ensures
        postdraw_shape().0 == seq![
            Seq::<char>::empty(),
            seq!['k'],
            seq!['k', 'b'],
            seq!['k', 'b', 'r'],
            seq!['k', 'b', 'r', 'r'],
            seq!['k', 'b', 'r', 'r', 'r'],
            seq!['b'],
            seq!['b', 'r'],
            seq!['b', 'r', 'r'],
            seq!['b', 'r', 'r', 'r'],
        ],
        postdraw_shape().1 == seq![
            (seq!['k', 'k'], false, 0u8),
            (seq!['k', 'b', 'f'], true, 1u8),
            (seq!['k', 'b', 'c'], false, 1u8),
            (seq!['k', 'b', 'r', 'f'], true, 2u8),
            (seq!['k', 'b', 'r', 'c'], false, 2u8),
            (seq!['k', 'b', 'r', 'r', 'f'], true, 3u8),
            (seq!['k', 'b', 'r', 'r', 'c'], false, 3u8),
            (seq!['k', 'b', 'r', 'r', 'r', 'f'], true, 4u8),
            (seq!['k', 'b', 'r', 'r', 'r', 'c'], false, 4u8),
            (seq!['b', 'f'], true, 1u8),
            (seq!['b', 'c'], false, 1u8),
            (seq!['b', 'r', 'f'], true, 2u8),
            (seq!['b', 'r', 'c'], false, 2u8),
            (seq!['b', 'r', 'r', 'f'], true, 3u8),
            (seq!['b', 'r', 'r', 'c'], false, 3u8),
            (seq!['b', 'r', 'r', 'r', 'f'], true, 4u8),
            (seq!['b', 'r', 'r', 'r', 'c'], false, 4u8),
        ],
{
    reveal_with_fuel(postdraw_walk, 12);
    assert(postdraw_shape().0 =~~= seq![
            Seq::<char>::empty(),
            seq!['k'],
            seq!['k', 'b'],
            seq!['k', 'b', 'r'],
            seq!['k', 'b', 'r', 'r'],
            seq!['k', 'b', 'r', 'r', 'r'],
            seq!['b'],
            seq!['b', 'r'],
            seq!['b', 'r', 'r'],
            seq!['b', 'r', 'r', 'r'],
        ]);
    assert(postdraw_shape().1 =~~= seq![
            (seq!['k', 'k'], false, 0u8),
            (seq!['k', 'b', 'f'], true, 1u8),
            (seq!['k', 'b', 'c'], false, 1u8),
            (seq!['k', 'b', 'r', 'f'], true, 2u8),
            (seq!['k', 'b', 'r', 'c'], false, 2u8),
            (seq!['k', 'b', 'r', 'r', 'f'], true, 3u8),
            (seq!['k', 'b', 'r', 'r', 'c'], false, 3u8),
            (seq!['k', 'b', 'r', 'r', 'r', 'f'], true, 4u8),
            (seq!['k', 'b', 'r', 'r', 'r', 'c'], false, 4u8),
            (seq!['b', 'f'], true, 1u8),
            (seq!['b', 'c'], false, 1u8),
            (seq!['b', 'r', 'f'], true, 2u8),
            (seq!['b', 'r', 'c'], false, 2u8),
            (seq!['b', 'r', 'r', 'f'], true, 3u8),
            (seq!['b', 'r', 'r', 'c'], false, 3u8),
            (seq!['b', 'r', 'r', 'r', 'f'], true, 4u8),
            (seq!['b', 'r', 'r', 'r', 'c'], false, 4u8),
        ]);
}

/// Preflop and postdraw template counts as plain numbers:
/// (prefixes, continuing outcomes, folding outcomes).
pub open spec fn preflop_counts() -> (int, int, int) {
    (
        preflop_shape().0.len() as int,
        count_continuing(preflop_shape().1) as int,
        count_folds(preflop_shape().1) as int,
    )
}

pub open spec fn postdraw_counts() -> (int, int, int) {
    (
        postdraw_shape().0.len() as int,
        count_continuing(postdraw_shape().1) as int,
        count_folds(postdraw_shape().1) as int,
    )
}

proof fn lemma_counts_values()
    ensures
        preflop_counts() == (8int, 7int, 7int),
        postdraw_counts() == (10int, 9int, 8int),
{
    lemma_template_counts();
}

/// Exact leaf count of the true tree: folds on every street, plus the
/// showdown lines of the final street, with 36 draw-count combinations
/// between consecutive betting streets.
pub open spec fn spec_true_tree_leaves() -> int {
    let (_, c0, f0) = preflop_counts();
    let (_, c1, f1) = postdraw_counts();
    f0 + c0 * 36 * f1 + c0 * 36 * c1 * 36 * f1 + c0 * 36 * c1 * 36 * c1 * 36 * (f1 + c1)
}

/// The true tree has 450,372,391 leaves.
pub proof fn lemma_true_tree_leaves_value()
    ensures
        spec_true_tree_leaves() == 450_372_391,
        spec_true_tree_leaves() == 7 + 7 * 36 * 8 + 7 * 36 * 9 * 36 * 8 + 7 * 36 * 9 * 36 * 9 * 36 * 17,
{
    lemma_counts_values();
    let (p0, c0, f0) = preflop_counts();
    let (p1, c1, f1) = postdraw_counts();
    assert(c0 == 7 && f0 == 7 && c1 == 9 && f1 == 8);
    assert(spec_true_tree_leaves() == f0 + c0 * 36 * f1 + c0 * 36 * c1 * 36 * f1 + c0 * 36 * c1 * 36
        * c1 * 36 * (f1 + c1));
    assert(f0 + c0 * 36 * f1 + c0 * 36 * c1 * 36 * f1 + c0 * 36 * c1 * 36 * c1 * 36 * (f1 + c1)
        == 7 + 7 * 36 * 8 + 7 * 36 * 9 * 36 * 8 + 7 * 36 * 9 * 36 * 9 * 36 * 17) by (nonlinear_arith)
        requires
            c0 == 7 && f0 == 7 && c1 == 9 && f1 == 8,
    ;
}

/// Lines alive entering betting street `street`, and leaves produced
/// before it, of the true tree's leaf DP.
pub open spec fn leaves_dp(street: nat) -> (int, int)
    decreases street,
{
    if street == 0 {
        (1, 0)
    } else {
        let (lines, leaves) = leaves_dp((street - 1) as nat);
        let (_, c, f) = if street - 1 == 0 {
            preflop_counts()
        } else {
            postdraw_counts()
        };
        let continuing = lines * c;
        if street - 1 < 3 {
            (continuing * 36, leaves + lines * f)
        } else {
            (lines, leaves + lines * f + continuing)
        }
    }
}

/// Exact leaf count of the true tree (folds at every street plus
/// showdown lines), by the same DP the stats use, over raw sequences.
pub fn true_tree_leaves() -> (r: u64)
    ensures
        r == spec_true_tree_leaves(),
{
    let pre = preflop_template();
    let post = postdraw_template();
    proof {
        lemma_counts_values();
        reveal_with_fuel(leaves_dp, 5);
        assert(leaves_dp(1) == (252int, 7int));
        assert(leaves_dp(2) == (252int * 9 * 36, 7 + 252int * 8));
    }
    let mut lines: u64 = 1;
    let mut leaves: u64 = 0;
    let mut street: usize = 0;
    while street < 4
        invariant
            street <= 4,
            pre.shape() == preflop_shape(),
            post.shape() == postdraw_shape(),
            preflop_counts() == (8int, 7int, 7int),
            postdraw_counts() == (10int, 9int, 8int),
            (lines as int, leaves as int) == leaves_dp(street as nat),
            leaves_dp(1) == (252int, 7int),
            leaves_dp(2) == (252int * 9 * 36, 7 + 252int * 8),
            leaves_dp(3) == (252int * 9 * 36 * 9 * 36, 7 + 252int * 8 + 252int * 9 * 36 * 8),
        decreases 4 - street,
    {
        let template = if street == 0 {
            &pre
        } else {
            &post
        };
        let folds = template.folds() as u64;
        let continuing_here = template.continuing() as u64;
        proof {
            reveal_with_fuel(leaves_dp, 2);
            assert(street == 0 ==> folds == 7 && continuing_here == 7 && lines == 1 && leaves == 0);
            assert(street > 0 ==> folds == 8 && continuing_here == 9);
        }
        leaves = leaves + lines * folds;
        let continuing = lines * continuing_here;
        if street < 3 {
            lines = continuing * 36;
        } else {
            leaves = leaves + continuing;
        }
        street = street + 1;
    }
    proof {
        reveal_with_fuel(leaves_dp, 2);
        assert(leaves_dp(4).1 == 7 + 252int * 8 + 252int * 9 * 36 * 8 + 252int * 9 * 36 * 9 * 36 * 17);
        lemma_true_tree_leaves_value();
    }
    leaves
}


/// An abstraction lens: how much of the public history a solver's key
/// retains. `TrueTree` retains everything (no merging at all).
#[derive(Copy, Clone, Debug, PartialEq, Eq, Structural)]
pub enum Lens {
    /// Full history, draws 0-5: the game itself.
    TrueTree,
    /// Full history, draw menu trimmed to 0-3 (action removal only).
    TrimDraws,
    /// Trimmed draws; past streets' betting collapsed to a per-street
    /// wager tier (0-1 / 2 / 3-4 wagers). Draw-count history stays exact.
    TrimPlusPotTiers,
    /// Trimmed draws; betting collapsed to one cumulative pot tier; draw
    /// history collapsed to the last round's counts plus each player's
    /// ever-stood-pat flag.
    ShortMemory,
}

impl Lens {
    pub open spec fn spec_draw_options(self) -> u64 {
        match self {
            Lens::TrueTree => 6,
            _ => 4,
        }
    }

    fn draw_options(self) -> (r: u64)
        ensures
            r == self.spec_draw_options(),
    {
        match self {
            Lens::TrueTree => 6,
            _ => 4,
        }
    }

    /// History classes a completed betting street contributes, given the
    /// street's continuing outcome count.
    pub open spec fn spec_street_classes(self, continuing: int) -> int {
        match self {
            Lens::TrueTree | Lens::TrimDraws => continuing,
            Lens::TrimPlusPotTiers => 3,
            Lens::ShortMemory => 3,
        }
    }

    /// History classes a completed draw round contributes (both seats).
    pub open spec fn spec_draw_classes(self) -> int {
        match self {
            Lens::TrueTree => 36,
            Lens::TrimDraws | Lens::TrimPlusPotTiers => 16,
            Lens::ShortMemory => 16,
        }
    }

    fn street_classes(self, template: &StreetTemplate) -> (r: u64)
        ensures
            r == self.spec_street_classes(count_continuing(template.shape().1) as int),
    {
        match self {
            Lens::TrueTree | Lens::TrimDraws => template.continuing() as u64,
            Lens::TrimPlusPotTiers => 3,
            Lens::ShortMemory => 3,
        }
    }

    fn draw_classes(self, _round: usize) -> (r: u64)
        ensures
            r == self.spec_draw_classes(),
    {
        match self {
            Lens::TrueTree => 36,
            Lens::TrimDraws | Lens::TrimPlusPotTiers => 16,
            Lens::ShortMemory => 16,
        }
    }

    /// Every lens, most to least detailed.
    pub fn all() -> (r: [Lens; 4])
        ensures
            r@ == seq![Lens::TrueTree, Lens::TrimDraws, Lens::TrimPlusPotTiers, Lens::ShortMemory],
    {
        [Lens::TrueTree, Lens::TrimDraws, Lens::TrimPlusPotTiers, Lens::ShortMemory]
    }

    pub open spec fn spec_label(self) -> Seq<char> {
        match self {
            Lens::TrueTree => "true tree"@,
            Lens::TrimDraws => "trim draws 0-3"@,
            Lens::TrimPlusPotTiers => "trim + pot tiers"@,
            Lens::ShortMemory => "short draw memory"@,
        }
    }

    pub fn label(self) -> (r: &'static str)
        ensures
            r@ == self.spec_label(),
    {
        match self {
            Lens::TrueTree => "true tree",
            Lens::TrimDraws => "trim draws 0-3",
            Lens::TrimPlusPotTiers => "trim + pot tiers",
            Lens::ShortMemory => "short draw memory",
        }
    }
}

/// One stage's exact statistics under a lens.
#[derive(Clone, Debug)]
pub struct StageStats {
    pub name: &'static str,
    /// Distinct public-history classes entering the stage.
    pub classes_in: u64,
    /// Public decision points (classes x acting prefixes/draw nodes).
    pub decision_points: u64,
    /// Fold leaves this stage produces (betting stages only).
    pub fold_leaves: u64,
    /// History classes continuing to the next stage.
    pub classes_out: u64,
}

/// Full-tree statistics under a lens.
#[derive(Clone, Debug)]
pub struct TreeStats {
    pub lens: Lens,
    pub stages: Vec<StageStats>,
    pub showdown_classes: u64,
    pub total_decision_points: u64,
    /// Information sets with `buckets` private classes per public point.
    pub infosets: u64,
}

/// The seven stage names, in play order.
pub open spec fn stage_name(stage: int) -> Seq<char> {
    if stage == 0 {
        "bet: predraw"@
    } else if stage == 1 {
        "draw 1"@
    } else if stage == 2 {
        "bet: post-draw-1"@
    } else if stage == 3 {
        "draw 2"@
    } else if stage == 4 {
        "bet: post-draw-2"@
    } else if stage == 5 {
        "draw 3"@
    } else {
        "bet: final"@
    }
}

/// Per-round draw decision nodes per entering class: seat 1 decides once,
/// then seat 0 decides knowing seat 1's count.
pub open spec fn spec_draw_nodes_per_class(options: int) -> int {
    1 + options
}

fn draw_nodes_per_class(options: u64) -> (r: u64)
    requires
        options < u64::MAX,
    ensures
        r == spec_draw_nodes_per_class(options as int),
{
    1 + options
}

/// ShortMemory's between-street history state: last-round draw combo
/// (16) x ever-pat flags (4) - before the first draw, 1.
pub open spec fn spec_draw_memory_classes(betting_street: int) -> int {
    if betting_street == 0 {
        1
    } else {
        64
    }
}

fn draw_memory_classes(lens: Lens, betting_street: usize) -> (r: u64)
    requires
        lens == Lens::ShortMemory,
    ensures
        r == spec_draw_memory_classes(betting_street as int),
{
    if betting_street == 0 {
        1
    } else {
        64
    }
}

/// Counts of the template a betting stage uses: preflop first, postdraw
/// after.
pub open spec fn stage_counts(betting_street: int) -> (int, int, int) {
    if betting_street == 0 {
        preflop_counts()
    } else {
        postdraw_counts()
    }
}

/// Classes a stage passes on, given the classes entering it (for the last
/// betting stage: the classes reaching showdown before ShortMemory's
/// replacement).
pub open spec fn stage_out(lens: Lens, stage: int, classes: int) -> int {
    if stage % 2 == 0 {
        let betting_street = stage / 2;
        match lens {
            Lens::ShortMemory => if betting_street == 3 {
                0
            } else {
                3 * spec_draw_memory_classes(betting_street)
            },
            _ => classes * lens.spec_street_classes(stage_counts(betting_street).1),
        }
    } else {
        match lens {
            Lens::ShortMemory => classes,
            _ => classes * lens.spec_draw_classes(),
        }
    }
}

/// Classes entering `stage` (0..=7) under `lens`.
pub open spec fn classes_in(lens: Lens, stage: nat) -> int
    decreases stage,
{
    if stage == 0 {
        1
    } else {
        stage_out(lens, stage - 1, classes_in(lens, (stage - 1) as nat))
    }
}

/// Decision points of one stage.
pub open spec fn stage_points(lens: Lens, stage: int) -> int {
    let classes = classes_in(lens, stage as nat);
    if stage % 2 == 0 {
        classes * stage_counts(stage / 2).0
    } else {
        classes * spec_draw_nodes_per_class(lens.spec_draw_options() as int)
    }
}

/// Fold leaves of one stage.
pub open spec fn stage_folds(lens: Lens, stage: int) -> int {
    if stage % 2 == 0 {
        classes_in(lens, stage as nat) * stage_counts(stage / 2).2
    } else {
        0
    }
}

/// Classes one stage reports passing on (0 after the final betting stage).
pub open spec fn stage_classes_out(lens: Lens, stage: int) -> int {
    if stage == 6 {
        0
    } else {
        stage_out(lens, stage, classes_in(lens, stage as nat))
    }
}

/// Decision points over the first `stage` stages.
pub open spec fn decisions_before(lens: Lens, stage: nat) -> int
    decreases stage,
{
    if stage == 0 {
        0
    } else {
        decisions_before(lens, (stage - 1) as nat) + stage_points(lens, stage - 1)
    }
}

/// Public decision points over the whole tree.
pub open spec fn spec_total_decisions(lens: Lens) -> int {
    decisions_before(lens, 7)
}

/// History classes reaching showdown.
pub open spec fn spec_showdown_classes(lens: Lens) -> int {
    match lens {
        Lens::ShortMemory => classes_in(lens, 6),
        _ => stage_out(lens, 6, classes_in(lens, 6)),
    }
}

/// The exact per-stage numbers of the four lenses, and their totals.
#[verifier::spinoff_prover]
#[verifier::rlimit(60)]
pub proof fn lemma_stage_values(lens: Lens)
    ensures
        lens == Lens::TrueTree ==> classes_in(lens, 1) == 7 && classes_in(lens, 2) == 252
            && classes_in(lens, 3) == 2268 && classes_in(lens, 4) == 81648 && classes_in(lens, 5)
            == 734832 && classes_in(lens, 6) == 26453952 && spec_total_decisions(lens) == 270518277
            && spec_showdown_classes(lens) == 238085568,
        lens == Lens::TrimDraws ==> classes_in(lens, 1) == 7 && classes_in(lens, 2) == 112
            && classes_in(lens, 3) == 1008 && classes_in(lens, 4) == 16128 && classes_in(lens, 5)
            == 145152 && classes_in(lens, 6) == 2322432 && spec_total_decisions(lens) == 24117563
            && spec_showdown_classes(lens) == 20901888,
        lens == Lens::TrimPlusPotTiers ==> classes_in(lens, 1) == 3 && classes_in(lens, 2) == 48
            && classes_in(lens, 3) == 144 && classes_in(lens, 4) == 2304 && classes_in(lens, 5)
            == 6912 && classes_in(lens, 6) == 110592 && spec_total_decisions(lens) == 1164743
            && spec_showdown_classes(lens) == 331776,
        forall|s: nat| s <= 7 ==> 0 <= #[trigger] decisions_before(lens, s) <= 270518277,
        forall|s: nat|
            s <= 6 ==> {
                &&& 0 <= #[trigger] classes_in(lens, s) <= 26453952
                &&& 0 <= stage_points(lens, s as int) <= 264539520
                &&& 0 <= stage_folds(lens, s as int) <= 211631616
                &&& 0 <= stage_out(lens, s as int, classes_in(lens, s)) <= 238085568
            },
        lens == Lens::ShortMemory ==> classes_in(lens, 1) == 3 && classes_in(lens, 2) == 3
            && classes_in(lens, 3) == 192 && classes_in(lens, 4) == 192 && classes_in(lens, 5)
            == 192 && classes_in(lens, 6) == 192 && spec_total_decisions(lens) == 5813
            && spec_showdown_classes(lens) == 192,
{
    lemma_counts_values();
    match lens {
        Lens::TrueTree => {
            assert(classes_in(lens, 0) == 1);
            assert(stage_counts(0) == preflop_counts());
            assert(classes_in(lens, 1) == 7);
            assert(classes_in(lens, 2) == 252);
            assert(classes_in(lens, 3) == 2268);
            assert(classes_in(lens, 4) == 81648);
            assert(classes_in(lens, 5) == 734832);
            assert(classes_in(lens, 6) == 26453952);
            assert(stage_counts(1) == postdraw_counts());
            assert(stage_counts(2) == postdraw_counts());
            assert(stage_counts(3) == postdraw_counts());
            assert(stage_points(lens, 0) == 8);
            assert(stage_points(lens, 1) == 49);
            assert(stage_points(lens, 2) == 2520);
            assert(stage_points(lens, 3) == 15876);
            assert(stage_points(lens, 4) == 816480);
            assert(stage_points(lens, 5) == 5143824);
            assert(stage_points(lens, 6) == 264539520);
            assert(decisions_before(lens, 0) == 0);
            assert(decisions_before(lens, 1) == 8);
            assert(decisions_before(lens, 2) == 57);
            assert(decisions_before(lens, 3) == 2577);
            assert(decisions_before(lens, 4) == 18453);
            assert(decisions_before(lens, 5) == 834933);
            assert(decisions_before(lens, 6) == 5978757);
            assert(decisions_before(lens, 7) == 270518277) by {
                reveal_with_fuel(decisions_before, 8);
            }
            assert(stage_out(lens, 6, classes_in(lens, 6)) == spec_showdown_classes(lens) || lens == Lens::ShortMemory);
            assert forall|s: nat| s <= 6 implies {
                &&& 0 <= #[trigger] classes_in(lens, s) <= 26453952
                &&& 0 <= stage_points(lens, s as int) <= 264539520
                &&& 0 <= stage_folds(lens, s as int) <= 211631616
                &&& 0 <= stage_out(lens, s as int, classes_in(lens, s)) <= 238085568
            } by {
                if s == 0 {
                } else if s == 1 {
                } else if s == 2 {
                } else if s == 3 {
                } else if s == 4 {
                } else if s == 5 {
                } else {
                }
            }
            assert forall|s: nat| s <= 7 implies 0 <= #[trigger] decisions_before(lens, s) <= 270518277 by {
                if s == 0 {} else if s == 1 {} else if s == 2 {} else if s == 3 {} else if s == 4 {} else if s == 5 {} else if s == 6 {} else {}
            }
        },
        Lens::TrimDraws => {
            assert(classes_in(lens, 0) == 1);
            assert(stage_counts(0) == preflop_counts());
            assert(classes_in(lens, 1) == 7);
            assert(classes_in(lens, 2) == 112);
            assert(classes_in(lens, 3) == 1008);
            assert(classes_in(lens, 4) == 16128);
            assert(classes_in(lens, 5) == 145152);
            assert(classes_in(lens, 6) == 2322432);
            assert(stage_counts(1) == postdraw_counts());
            assert(stage_counts(2) == postdraw_counts());
            assert(stage_counts(3) == postdraw_counts());
            assert(stage_points(lens, 0) == 8);
            assert(stage_points(lens, 1) == 35);
            assert(stage_points(lens, 2) == 1120);
            assert(stage_points(lens, 3) == 5040);
            assert(stage_points(lens, 4) == 161280);
            assert(stage_points(lens, 5) == 725760);
            assert(stage_points(lens, 6) == 23224320);
            assert(decisions_before(lens, 0) == 0);
            assert(decisions_before(lens, 1) == 8);
            assert(decisions_before(lens, 2) == 43);
            assert(decisions_before(lens, 3) == 1163);
            assert(decisions_before(lens, 4) == 6203);
            assert(decisions_before(lens, 5) == 167483);
            assert(decisions_before(lens, 6) == 893243);
            assert(decisions_before(lens, 7) == 24117563) by {
                reveal_with_fuel(decisions_before, 8);
            }
            assert(stage_out(lens, 6, classes_in(lens, 6)) == spec_showdown_classes(lens) || lens == Lens::ShortMemory);
            assert forall|s: nat| s <= 6 implies {
                &&& 0 <= #[trigger] classes_in(lens, s) <= 26453952
                &&& 0 <= stage_points(lens, s as int) <= 264539520
                &&& 0 <= stage_folds(lens, s as int) <= 211631616
                &&& 0 <= stage_out(lens, s as int, classes_in(lens, s)) <= 238085568
            } by {
                if s == 0 {
                } else if s == 1 {
                } else if s == 2 {
                } else if s == 3 {
                } else if s == 4 {
                } else if s == 5 {
                } else {
                }
            }
            assert forall|s: nat| s <= 7 implies 0 <= #[trigger] decisions_before(lens, s) <= 270518277 by {
                if s == 0 {} else if s == 1 {} else if s == 2 {} else if s == 3 {} else if s == 4 {} else if s == 5 {} else if s == 6 {} else {}
            }
        },
        Lens::TrimPlusPotTiers => {
            assert(classes_in(lens, 0) == 1);
            assert(stage_counts(0) == preflop_counts());
            assert(classes_in(lens, 1) == 3);
            assert(classes_in(lens, 2) == 48);
            assert(classes_in(lens, 3) == 144);
            assert(classes_in(lens, 4) == 2304);
            assert(classes_in(lens, 5) == 6912);
            assert(classes_in(lens, 6) == 110592);
            assert(stage_counts(1) == postdraw_counts());
            assert(stage_counts(2) == postdraw_counts());
            assert(stage_counts(3) == postdraw_counts());
            assert(stage_points(lens, 0) == 8);
            assert(stage_points(lens, 1) == 15);
            assert(stage_points(lens, 2) == 480);
            assert(stage_points(lens, 3) == 720);
            assert(stage_points(lens, 4) == 23040);
            assert(stage_points(lens, 5) == 34560);
            assert(stage_points(lens, 6) == 1105920);
            assert(decisions_before(lens, 0) == 0);
            assert(decisions_before(lens, 1) == 8);
            assert(decisions_before(lens, 2) == 23);
            assert(decisions_before(lens, 3) == 503);
            assert(decisions_before(lens, 4) == 1223);
            assert(decisions_before(lens, 5) == 24263);
            assert(decisions_before(lens, 6) == 58823);
            assert(decisions_before(lens, 7) == 1164743) by {
                reveal_with_fuel(decisions_before, 8);
            }
            assert(stage_out(lens, 6, classes_in(lens, 6)) == spec_showdown_classes(lens) || lens == Lens::ShortMemory);
            assert forall|s: nat| s <= 6 implies {
                &&& 0 <= #[trigger] classes_in(lens, s) <= 26453952
                &&& 0 <= stage_points(lens, s as int) <= 264539520
                &&& 0 <= stage_folds(lens, s as int) <= 211631616
                &&& 0 <= stage_out(lens, s as int, classes_in(lens, s)) <= 238085568
            } by {
                if s == 0 {
                } else if s == 1 {
                } else if s == 2 {
                } else if s == 3 {
                } else if s == 4 {
                } else if s == 5 {
                } else {
                }
            }
            assert forall|s: nat| s <= 7 implies 0 <= #[trigger] decisions_before(lens, s) <= 270518277 by {
                if s == 0 {} else if s == 1 {} else if s == 2 {} else if s == 3 {} else if s == 4 {} else if s == 5 {} else if s == 6 {} else {}
            }
        },
        Lens::ShortMemory => {
            assert(classes_in(lens, 0) == 1);
            assert(stage_counts(0) == preflop_counts());
            assert(classes_in(lens, 1) == 3);
            assert(classes_in(lens, 2) == 3);
            assert(classes_in(lens, 3) == 192);
            assert(classes_in(lens, 4) == 192);
            assert(classes_in(lens, 5) == 192);
            assert(classes_in(lens, 6) == 192);
            assert(stage_counts(1) == postdraw_counts());
            assert(stage_counts(2) == postdraw_counts());
            assert(stage_counts(3) == postdraw_counts());
            assert(stage_points(lens, 0) == 8);
            assert(stage_points(lens, 1) == 15);
            assert(stage_points(lens, 2) == 30);
            assert(stage_points(lens, 3) == 960);
            assert(stage_points(lens, 4) == 1920);
            assert(stage_points(lens, 5) == 960);
            assert(stage_points(lens, 6) == 1920);
            assert(decisions_before(lens, 0) == 0);
            assert(decisions_before(lens, 1) == 8);
            assert(decisions_before(lens, 2) == 23);
            assert(decisions_before(lens, 3) == 53);
            assert(decisions_before(lens, 4) == 1013);
            assert(decisions_before(lens, 5) == 2933);
            assert(decisions_before(lens, 6) == 3893);
            assert(decisions_before(lens, 7) == 5813) by {
                reveal_with_fuel(decisions_before, 8);
            }
            assert(stage_out(lens, 6, classes_in(lens, 6)) == spec_showdown_classes(lens) || lens == Lens::ShortMemory);
            assert forall|s: nat| s <= 6 implies {
                &&& 0 <= #[trigger] classes_in(lens, s) <= 26453952
                &&& 0 <= stage_points(lens, s as int) <= 264539520
                &&& 0 <= stage_folds(lens, s as int) <= 211631616
                &&& 0 <= stage_out(lens, s as int, classes_in(lens, s)) <= 238085568
            } by {
                if s == 0 {
                } else if s == 1 {
                } else if s == 2 {
                } else if s == 3 {
                } else if s == 4 {
                } else if s == 5 {
                } else {
                }
            }
            assert forall|s: nat| s <= 7 implies 0 <= #[trigger] decisions_before(lens, s) <= 270518277 by {
                if s == 0 {} else if s == 1 {} else if s == 2 {} else if s == 3 {} else if s == 4 {} else if s == 5 {} else if s == 6 {} else {}
            }
        },
    }
}


/// Every class count, decision count and total of the stats DP stays
/// small enough for machine words.
proof fn lemma_stage_bounds(lens: Lens, stage: nat)
    requires
        stage <= 7,
    ensures
        stage <= 6 ==> 0 <= classes_in(lens, stage) <= 26453952,
        stage <= 6 ==> 0 <= stage_points(lens, stage as int) <= 264539520,
        stage <= 6 ==> 0 <= stage_folds(lens, stage as int) <= 211631616,
        stage <= 6 ==> 0 <= stage_out(lens, stage as int, classes_in(lens, stage)) <= 238085568,
        0 <= decisions_before(lens, stage) <= 270518277,
        0 <= spec_showdown_classes(lens) <= 238085568,
        spec_total_decisions(lens) == decisions_before(lens, 7),
{
    lemma_stage_values(lens);
    if stage <= 6 {
        assert(0 <= classes_in(lens, stage) <= 26453952);
    }
}

/// Compute exact stage statistics for `lens` with `buckets` private
/// classes per decision point.
pub fn stats(lens: Lens, buckets: u64) -> (r: TreeStats)
    requires
        spec_total_decisions(lens) * buckets <= u64::MAX,
    ensures
        r.lens == lens,
        r.stages@.len() == 7,
        forall|i: int|
            #![trigger r.stages@[i]]
            0 <= i < 7 ==> {
                &&& r.stages@[i].name@ == stage_name(i)
                &&& r.stages@[i].classes_in == classes_in(lens, i as nat)
                &&& r.stages@[i].decision_points == stage_points(lens, i)
                &&& r.stages@[i].fold_leaves == stage_folds(lens, i)
                &&& r.stages@[i].classes_out == stage_classes_out(lens, i)
            },
        r.showdown_classes == spec_showdown_classes(lens),
        r.total_decision_points == spec_total_decisions(lens),
        r.infosets == spec_total_decisions(lens) * buckets,
{
    let pre = preflop_template();
    let post = postdraw_template();
    let stage_names: [&'static str; 7] = [
        "bet: predraw",
        "draw 1",
        "bet: post-draw-1",
        "draw 2",
        "bet: post-draw-2",
        "draw 3",
        "bet: final",
    ];
    proof {
        lemma_counts_values();
    }
    let mut stages: Vec<StageStats> = Vec::new();
    let mut classes: u64 = 1;
    let mut decisions: u64 = 0;
    let mut showdown: u64 = 0;
    let mut betting_street: usize = 0;
    let mut stage: usize = 0;
    while stage < 7
        invariant
            stage <= 7,
            betting_street == (stage + 1) / 2,
            pre.shape() == preflop_shape(),
            post.shape() == postdraw_shape(),
            preflop_counts() == (8int, 7int, 7int),
            postdraw_counts() == (10int, 9int, 8int),
            stage_names@ == seq![
                "bet: predraw",
                "draw 1",
                "bet: post-draw-1",
                "draw 2",
                "bet: post-draw-2",
                "draw 3",
                "bet: final",
            ],
            classes == if stage <= 6 {
                classes_in(lens, stage as nat)
            } else {
                stage_out(lens, 6, classes_in(lens, 6))
            },
            decisions == decisions_before(lens, stage as nat),
            showdown == if stage == 7 {
                spec_showdown_classes(lens)
            } else {
                0
            },
            stages@.len() == stage,
            forall|i: int|
                #![trigger stages@[i]]
                0 <= i < stage ==> {
                    &&& stages@[i].name@ == stage_name(i)
                    &&& stages@[i].classes_in == classes_in(lens, i as nat)
                    &&& stages@[i].decision_points == stage_points(lens, i)
                    &&& stages@[i].fold_leaves == stage_folds(lens, i)
                    &&& stages@[i].classes_out == stage_classes_out(lens, i)
                },
        decreases 7 - stage,
    {
        proof {
            lemma_stage_bounds(lens, stage as nat);
            lemma_stage_bounds(lens, (stage + 1) as nat);
            assert(stage_counts(0) == preflop_counts());
            assert(stage_counts(1) == postdraw_counts());
            assert(stage_counts(2) == postdraw_counts());
            assert(stage_counts(3) == postdraw_counts());
            reveal_with_fuel(classes_in, 2);
            reveal_with_fuel(decisions_before, 2);
        }
        let name = stage_names[stage];
        if stage % 2 == 0 {
            let template = if betting_street == 0 {
                &pre
            } else {
                &post
            };
            let points = classes * template.prefixes.len() as u64;
            let folds = classes * template.folds() as u64;
            let out = match lens {
                Lens::ShortMemory => {
                    if betting_street == 3 {
                        0
                    } else {
                        3 * draw_memory_classes(lens, betting_street)
                    }
                },
                _ => classes * lens.street_classes(template),
            };
            stages.push(
                StageStats {
                    name,
                    classes_in: classes,
                    decision_points: points,
                    fold_leaves: folds,
                    classes_out: if betting_street == 3 {
                        0
                    } else {
                        out
                    },
                },
            );
            decisions = decisions + points;
            if betting_street == 3 {
                showdown =
                match lens {
                    Lens::ShortMemory => classes,
                    _ => classes * lens.street_classes(template),
                };
            }
            classes = out;
            betting_street = betting_street + 1;
        } else {
            let options = lens.draw_options();
            let points = classes * draw_nodes_per_class(options);
            let out = match lens {
                Lens::ShortMemory => classes,
                _ => classes * lens.draw_classes(stage / 2),
            };
            stages.push(
                StageStats {
                    name,
                    classes_in: classes,
                    decision_points: points,
                    fold_leaves: 0,
                    classes_out: out,
                },
            );
            decisions = decisions + points;
            classes = out;
        }
        stage = stage + 1;
    }
    proof {
        lemma_stage_bounds(lens, 7);
        assert(decisions * buckets <= u64::MAX);
    }
    TreeStats {
        lens,
        stages,
        showdown_classes: showdown,
        total_decision_points: decisions,
        infosets: decisions * buckets,
    }
}


/// The true-tree lens merges nothing: its fold leaves over the seven
/// stages plus its showdown classes are exactly the true tree's 450,372,391
/// leaves; 238,085,568 of them are showdowns, and the tree has 270,518,277
/// decision points.
pub proof fn lemma_true_tree_lens_is_exact()
    ensures
        stage_folds(Lens::TrueTree, 0) + stage_folds(Lens::TrueTree, 1) + stage_folds(Lens::TrueTree, 2)
            + stage_folds(Lens::TrueTree, 3) + stage_folds(Lens::TrueTree, 4) + stage_folds(Lens::TrueTree, 5)
            + stage_folds(Lens::TrueTree, 6) + spec_showdown_classes(Lens::TrueTree) == spec_true_tree_leaves(),
        spec_true_tree_leaves() == 450_372_391,
        spec_showdown_classes(Lens::TrueTree) == 238_085_568,
        spec_total_decisions(Lens::TrueTree) == 270_518_277,
{
    let lens = Lens::TrueTree;
    lemma_stage_values(lens);
    lemma_true_tree_leaves_value();
    lemma_counts_values();
    assert(classes_in(lens, 0) == 1);
    assert(stage_counts(0) == preflop_counts());
    assert(stage_counts(1) == postdraw_counts());
    assert(stage_counts(2) == postdraw_counts());
    assert(stage_counts(3) == postdraw_counts());
    assert(stage_folds(lens, 0) == 7);
    assert(stage_folds(lens, 1) == 0);
    assert(stage_folds(lens, 2) == 2016);
    assert(stage_folds(lens, 3) == 0);
    assert(stage_folds(lens, 4) == 653184);
    assert(stage_folds(lens, 5) == 0);
    assert(stage_folds(lens, 6) == 211631616);
}

/// The lens list shrinks strictly, lens by lens: every coarser lens has
/// fewer public decision points than the one before it, and the
/// short-memory lens stays under a million decision points (and, at the
/// reference 50 buckets, under five million information sets).
pub proof fn lemma_lenses_shrink()
    ensures
        spec_total_decisions(Lens::TrimDraws) < spec_total_decisions(Lens::TrueTree),
        spec_total_decisions(Lens::TrimPlusPotTiers) < spec_total_decisions(Lens::TrimDraws),
        spec_total_decisions(Lens::ShortMemory) < spec_total_decisions(Lens::TrimPlusPotTiers),
        spec_total_decisions(Lens::ShortMemory) < 1_000_000,
        spec_total_decisions(Lens::ShortMemory) * 50 < 5_000_000,
{
    lemma_stage_values(Lens::TrueTree);
    lemma_stage_values(Lens::TrimDraws);
    lemma_stage_values(Lens::TrimPlusPotTiers);
    lemma_stage_values(Lens::ShortMemory);
}

/// `true`/`false`.
pub open spec fn json_bool(b: bool) -> Seq<char> {
    if b {
        "true"@
    } else {
        "false"@
    }
}

/// A string wrapped in double quotes.
pub open spec fn quoted(p: Seq<char>) -> Seq<char> {
    "\""@ + p + "\""@
}

/// One outcome as a JSON object.
pub open spec fn outcome_json(o: OutcomeView) -> Seq<char> {
    "{\"seq\":\""@ + o.0 + "\",\"fold\":"@ + json_bool(o.1) + ",\"wagers\":"@ + decimal(o.2 as nat)
        + "}"@
}

/// A street template as a JSON object.
pub open spec fn template_json(first_actor: nat, shape: ShapeView) -> Seq<char> {
    "{\"first_actor\":"@ + decimal(first_actor) + ",\"prefixes\":["@ + comma_join(
        shape.0.map_values(|p: Seq<char>| quoted(p)),
    ) + "],\"outcomes\":["@ + comma_join(shape.1.map_values(|o: OutcomeView| outcome_json(o)))
        + "]}"@
}

/// One stage of a lens's statistics as a JSON object.
#[verifier::opaque]
pub open spec fn stage_json(lens: Lens, i: int) -> Seq<char> {
    "{\"name\":\""@ + stage_name(i) + "\",\"classes_in\":"@ + decimal(
        classes_in(lens, i as nat) as nat,
    ) + ",\"decisions\":"@ + decimal(stage_points(lens, i) as nat) + ",\"folds\":"@ + decimal(
        stage_folds(lens, i) as nat,
    ) + ",\"classes_out\":"@ + decimal(stage_classes_out(lens, i) as nat) + "}"@
}

/// One lens's statistics as a JSON object.
pub open spec fn lens_json(lens: Lens, buckets: nat) -> Seq<char> {
    "{\"label\":\""@ + lens.spec_label() + "\",\"draw_options\":"@ + decimal(
        lens.spec_draw_options() as nat,
    ) + ",\"stages\":["@ + comma_join(Seq::new(7, |i: int| stage_json(lens, i)))
        + "],\"showdown_classes\":"@ + decimal(spec_showdown_classes(lens) as nat)
        + ",\"decisions\":"@ + decimal(spec_total_decisions(lens) as nat) + ",\"infosets\":"@
        + decimal((spec_total_decisions(lens) * buckets) as nat) + "}"@
}

/// The explorer's data document.
pub open spec fn spec_explorer_json(buckets: nat) -> Seq<char> {
    "{\"preflop\":"@ + template_json(0, preflop_shape()) + ",\"postdraw\":"@ + template_json(
        1,
        postdraw_shape(),
    ) + ",\"true_leaves\":"@ + decimal(spec_true_tree_leaves() as nat) + ",\"buckets\":"@
        + decimal(buckets) + ",\"lenses\":["@ + comma_join(
        seq![
            lens_json(Lens::TrueTree, buckets),
            lens_json(Lens::TrimDraws, buckets),
            lens_json(Lens::TrimPlusPotTiers, buckets),
            lens_json(Lens::ShortMemory, buckets),
        ],
    ) + "]}"@
}

fn push_bool(out: &mut String, b: bool)
    ensures
        final(out)@ == old(out)@ + json_bool(b),
{
    if b {
        push_str(out, "true");
    } else {
        push_str(out, "false");
    }
}

fn push_template_json(out: &mut String, template: &StreetTemplate)
    ensures
        final(out)@ == old(out)@ + template_json(template.first_actor as nat, template.shape()),
{
    let ghost start = out@;
    push_str(out, "{\"first_actor\":");
    push_decimal(out, template.first_actor as u64);
    push_str(out, ",\"prefixes\":[");
    let ghost head = out@;
    let ghost prefixes = template.shape().0.map_values(|p: Seq<char>| quoted(p));
    let mut i: usize = 0;
    while i < template.prefixes.len()
        invariant
            i <= template.prefixes.len(),
            prefixes == template.shape().0.map_values(|p: Seq<char>| quoted(p)),
            out@ == head + comma_join(prefixes.take(i as int)),
        decreases template.prefixes.len() - i,
    {
        proof {
            assert(prefixes.take(i as int + 1) =~= prefixes.take(i as int).push(prefixes[i as int]));
            lemma_comma_join_push(prefixes.take(i as int), prefixes[i as int]);
        }
        if i > 0 {
            push_str(out, ",");
        }
        push_str(out, "\"");
        push_str(out, template.prefixes[i].as_str());
        push_str(out, "\"");
        proof {
            assert(out@ =~= head + comma_join(prefixes.take(i as int + 1)));
        }
        i = i + 1;
    }
    proof {
        assert(prefixes.take(prefixes.len() as int) =~= prefixes);
    }
    push_str(out, "],\"outcomes\":[");
    let ghost mid = out@;
    let ghost outcomes = template.shape().1.map_values(|o: OutcomeView| outcome_json(o));
    let mut j: usize = 0;
    while j < template.outcomes.len()
        invariant
            j <= template.outcomes.len(),
            outcomes == template.shape().1.map_values(|o: OutcomeView| outcome_json(o)),
            out@ == mid + comma_join(outcomes.take(j as int)),
        decreases template.outcomes.len() - j,
    {
        proof {
            assert(outcomes.take(j as int + 1) =~= outcomes.take(j as int).push(outcomes[j as int]));
            lemma_comma_join_push(outcomes.take(j as int), outcomes[j as int]);
        }
        if j > 0 {
            push_str(out, ",");
        }
        let o = &template.outcomes[j];
        push_str(out, "{\"seq\":\"");
        push_str(out, o.seq.as_str());
        push_str(out, "\",\"fold\":");
        push_bool(out, o.fold);
        push_str(out, ",\"wagers\":");
        push_decimal(out, o.wagers as u64);
        push_str(out, "}");
        proof {
            assert(out@ =~= mid + comma_join(outcomes.take(j as int + 1)));
        }
        j = j + 1;
    }
    proof {
        assert(outcomes.take(outcomes.len() as int) =~= outcomes);
    }
    push_str(out, "]}");
    proof {
        assert(out@ =~= start + template_json(template.first_actor as nat, template.shape()));
    }
}

#[verifier::rlimit(40)]
fn push_lens_json(out: &mut String, lens: Lens, buckets: u64)
    requires
        spec_total_decisions(lens) * buckets <= u64::MAX,
    ensures
        final(out)@ == old(out)@ + lens_json(lens, buckets as nat),
{
    let ghost start = out@;
    let stats = stats(lens, buckets);
    proof {
        lemma_stage_bounds(lens, 7);
    }
    push_str(out, "{\"label\":\"");
    push_str(out, lens.label());
    push_str(out, "\",\"draw_options\":");
    push_decimal(out, lens.draw_options());
    push_str(out, ",\"stages\":[");
    let ghost head = out@;
    let ghost items = Seq::new(7, |i: int| stage_json(lens, i));
    let mut i: usize = 0;
    while i < stats.stages.len()
        invariant
            i <= stats.stages.len(),
            stats.stages@.len() == 7,
            items == Seq::new(7, |i: int| stage_json(lens, i)),
            forall|k: int|
                #![trigger stats.stages@[k]]
                0 <= k < 7 ==> {
                    &&& stats.stages@[k].name@ == stage_name(k)
                    &&& stats.stages@[k].classes_in == classes_in(lens, k as nat)
                    &&& stats.stages@[k].decision_points == stage_points(lens, k)
                    &&& stats.stages@[k].fold_leaves == stage_folds(lens, k)
                    &&& stats.stages@[k].classes_out == stage_classes_out(lens, k)
                },
            out@ == head + comma_join(items.take(i as int)),
        decreases stats.stages.len() - i,
    {
        proof {
            assert(items.take(i as int + 1) =~= items.take(i as int).push(items[i as int]));
            lemma_comma_join_push(items.take(i as int), items[i as int]);
        }
        if i > 0 {
            push_str(out, ",");
        }
        let st = &stats.stages[i];
        let ghost before = out@;
        proof {
            assert(items[i as int] == stage_json(lens, i as int));
            assert(st.name@ == stage_name(i as int));
            assert(st.classes_in == classes_in(lens, i as nat));
            assert(st.decision_points == stage_points(lens, i as int));
            assert(st.fold_leaves == stage_folds(lens, i as int));
            assert(st.classes_out == stage_classes_out(lens, i as int));
        }
        push_str(out, "{\"name\":\"");
        push_str(out, st.name);
        push_str(out, "\",\"classes_in\":");
        push_decimal(out, st.classes_in);
        push_str(out, ",\"decisions\":");
        push_decimal(out, st.decision_points);
        push_str(out, ",\"folds\":");
        push_decimal(out, st.fold_leaves);
        push_str(out, ",\"classes_out\":");
        push_decimal(out, st.classes_out);
        push_str(out, "}");
        proof {
            assert(out@ =~= before + stage_json(lens, i as int)) by {
                reveal(stage_json);
            }
            assert(out@ =~= head + comma_join(items.take(i as int + 1)));
        }
        i = i + 1;
    }
    proof {
        assert(items.take(7) =~= items);
    }
    push_str(out, "],\"showdown_classes\":");
    push_decimal(out, stats.showdown_classes);
    push_str(out, ",\"decisions\":");
    push_decimal(out, stats.total_decision_points);
    push_str(out, ",\"infosets\":");
    push_decimal(out, stats.infosets);
    push_str(out, "}");
    proof {
        assert(out@ =~= start + lens_json(lens, buckets as nat));
    }
}

/// The explorer's data document: both street templates, per-lens stage
/// stats at the given bucket count, and the true-tree totals.
pub fn explorer_json(buckets: u64) -> (r: String)
    requires
        spec_total_decisions(Lens::TrueTree) * buckets <= u64::MAX,
    ensures
        r@ == spec_explorer_json(buckets as nat),
{
    proof {
        lemma_lenses_shrink();
        lemma_true_tree_leaves_value();
        assert(spec_total_decisions(Lens::TrimDraws) * buckets <= spec_total_decisions(Lens::TrueTree) * buckets) by (nonlinear_arith)
            requires spec_total_decisions(Lens::TrimDraws) < spec_total_decisions(Lens::TrueTree);
        assert(spec_total_decisions(Lens::TrimPlusPotTiers) * buckets <= spec_total_decisions(Lens::TrueTree) * buckets) by (nonlinear_arith)
            requires spec_total_decisions(Lens::TrimPlusPotTiers) < spec_total_decisions(Lens::TrueTree);
        assert(spec_total_decisions(Lens::ShortMemory) * buckets <= spec_total_decisions(Lens::TrueTree) * buckets) by (nonlinear_arith)
            requires spec_total_decisions(Lens::ShortMemory) < spec_total_decisions(Lens::TrueTree);
    }
    let mut out = String::new();
    push_str(&mut out, "{\"preflop\":");
    push_template_json(&mut out, &preflop_template());
    push_str(&mut out, ",\"postdraw\":");
    push_template_json(&mut out, &postdraw_template());
    push_str(&mut out, ",\"true_leaves\":");
    push_decimal(&mut out, true_tree_leaves());
    push_str(&mut out, ",\"buckets\":");
    push_decimal(&mut out, buckets);
    push_str(&mut out, ",\"lenses\":[");
    let ghost head = out@;
    let lenses = Lens::all();
    let ghost items = seq![
        lens_json(Lens::TrueTree, buckets as nat),
        lens_json(Lens::TrimDraws, buckets as nat),
        lens_json(Lens::TrimPlusPotTiers, buckets as nat),
        lens_json(Lens::ShortMemory, buckets as nat),
    ];
    let mut index: usize = 0;
    while index < 4
        invariant
            index <= 4,
            lenses@ == seq![Lens::TrueTree, Lens::TrimDraws, Lens::TrimPlusPotTiers, Lens::ShortMemory],
            items == seq![
                lens_json(Lens::TrueTree, buckets as nat),
                lens_json(Lens::TrimDraws, buckets as nat),
                lens_json(Lens::TrimPlusPotTiers, buckets as nat),
                lens_json(Lens::ShortMemory, buckets as nat),
            ],
            forall|k: int| 0 <= k < 4 ==> spec_total_decisions(#[trigger] lenses@[k]) * buckets <= u64::MAX,
            out@ == head + comma_join(items.take(index as int)),
        decreases 4 - index,
    {
        proof {
            assert(items.take(index as int + 1) =~= items.take(index as int).push(items[index as int]));
            lemma_comma_join_push(items.take(index as int), items[index as int]);
        }
        if index > 0 {
            push_str(&mut out, ",");
        }
        push_lens_json(&mut out, lenses[index], buckets);
        proof {
            assert(out@ =~= head + comma_join(items.take(index as int + 1)));
        }
        index = index + 1;
    }
    proof {
        assert(items.take(4) =~= items);
    }
    push_str(&mut out, "]}");
    proof {
        assert(out@ =~= spec_explorer_json(buckets as nat));
    }
    out
}

} // verus!
