//! Lossy abstraction: per-street bucket tables, a discrete action menu,
//! and the resulting abstract betting sequences per street.
//!
//! Big-bet games offer two sizes (pot, all-in) with at most two wagers per
//! street; fixed-limit games are already discrete (one size, engine-capped
//! raises). A draw decision branches only on how many cards to discard.
use vstd::prelude::*;
use crate::text::str_eq;

verus! {

/// A game's betting structure.
#[derive(Copy, Clone, Debug, PartialEq, Eq, Structural)]
pub enum BettingKind {
    /// Fixed limit with a cap on total wagers per round (`None` = uncapped).
    FixedLimit { raise_cap: Option<u8> },
    NoLimit,
    PotLimit,
}

/// Sequences continuing after `wagers` wagers with a bet outstanding: the
/// facing player may fold, call, or (below the cap) raise with any of
/// `sizes` sizes.
pub open spec fn chain(wagers: nat, cap: nat, sizes: nat) -> nat
    decreases cap - wagers,
{
    if wagers < cap {
        2 + sizes * chain(wagers + 1, cap, sizes)
    } else {
        2
    }
}

/// Heads-up betting sequences for a street with `sizes` bet/raise sizes
/// and at most `cap` wagers (the opening bet counting as the first). A
/// round opened by force (a stud bring-in: bring in or complete, each a
/// first wager) has `2 * chain(1)`; otherwise check-check, or either
/// player opens after the other checked or first: `1 + 2 * sizes *
/// chain(1)`.
pub open spec fn spec_bet_sequences(sizes: nat, cap: nat, opened_by_force: bool) -> nat {
    if opened_by_force {
        2 * chain(1, cap, sizes)
    } else {
        1 + 2 * sizes * chain(1, cap, sizes)
    }
}

proof fn lemma_chain_monotone(wagers: nat, cap: nat, sizes: nat)
    requires
        sizes >= 1,
    ensures
        chain(wagers + 1, cap, sizes) <= chain(wagers, cap, sizes),
        wagers < cap ==> sizes * chain(wagers + 1, cap, sizes) <= chain(wagers, cap, sizes),
        chain(wagers, cap, sizes) >= 2,
    decreases cap - wagers,
{
    if wagers + 1 < cap {
        lemma_chain_monotone(wagers + 1, cap, sizes);
    }
    assert(chain(wagers + 1, cap, sizes) <= sizes * chain(wagers + 1, cap, sizes)) by (nonlinear_arith)
        requires
            sizes >= 1,
    ;
}

proof fn lemma_chain_below(wagers: nat, cap: nat, sizes: nat)
    requires
        1 <= wagers,
        sizes >= 1,
    ensures
        chain(wagers, cap, sizes) <= chain(1, cap, sizes),
    decreases wagers,
{
    if wagers > 1 {
        lemma_chain_below((wagers - 1) as nat, cap, sizes);
        lemma_chain_monotone((wagers - 1) as nat, cap, sizes);
    }
}

fn chain_exec(wagers: u32, cap: u32, sizes: u64) -> (r: u64)
    requires
        1 <= wagers,
        sizes >= 1,
        chain(1, cap as nat, sizes as nat) <= u64::MAX,
    ensures
        r == chain(wagers as nat, cap as nat, sizes as nat),
    decreases cap - wagers,
{
    proof {
        lemma_chain_below(wagers as nat, cap as nat, sizes as nat);
        lemma_chain_monotone(wagers as nat, cap as nat, sizes as nat);
    }
    let mut n: u64 = 2;
    if wagers < cap {
        n = n + sizes * chain_exec(wagers + 1, cap, sizes);
    }
    n
}

/// Count heads-up betting sequences for a street: `sizes` bet/raise sizes
/// on the menu, at most `cap` wagers (the opening bet counts as the
/// first); `opened_by_force` models a stud bring-in street.
pub fn bet_sequences(sizes: u64, cap: u32, opened_by_force: bool) -> (r: u64)
    requires
        spec_bet_sequences(sizes as nat, cap as nat, opened_by_force) <= u64::MAX,
        chain(1, cap as nat, sizes as nat) <= u64::MAX,
    ensures
        r == spec_bet_sequences(sizes as nat, cap as nat, opened_by_force),
{
    if sizes == 0 {
        // Nothing can be bet: only the passive lines remain.
        proof {
            lemma_chain_zero_sizes(1, cap as nat);
            assert(2 * (sizes as nat) * chain(1, cap as nat, 0) == 0) by (nonlinear_arith)
                requires
                    sizes == 0,
            ;
        }
        return if opened_by_force {
            4
        } else {
            1
        };
    }
    let c = chain_exec(1, cap, sizes);
    if opened_by_force {
        return 2 * c;
    }
    proof {
        assert(c == chain(1, cap as nat, sizes as nat));
    }
    proof {
        lemma_chain_monotone(1, cap as nat, sizes as nat);
        assert(2 * sizes <= 2 * sizes * c) by (nonlinear_arith)
            requires
                c >= 2,
        ;
        assert(2 * sizes * c == 2 * (sizes as nat) * chain(1, cap as nat, sizes as nat));
    }
    1 + 2 * sizes * c
}

proof fn lemma_chain_zero_sizes(wagers: nat, cap: nat)
    ensures
        chain(wagers, cap, 0) == 2,
{
    assert(0 * chain(wagers + 1, cap, 0) == 0);
}

/// The abstract action-menu parameters for a betting structure: bet/raise
/// sizes offered and the wager cap per street.
pub open spec fn spec_menu(betting: BettingKind) -> (u64, u32) {
    match betting {
        BettingKind::FixedLimit { raise_cap } => (
            1,
            match raise_cap {
                Some(cap) => cap as u32,
                None => 4,
            },
        ),
        BettingKind::NoLimit | BettingKind::PotLimit => (2, 2),
    }
}

/// The menu for `betting`: the engine's cap is authoritative for fixed
/// limit (uncapped is still capped at four to keep the tree finite); big
/// bet games offer pot and all-in with two wagers per street.
pub fn menu(betting: BettingKind) -> (r: (u64, u32))
    ensures
        r == spec_menu(betting),
{
    match betting {
        BettingKind::FixedLimit { raise_cap } => (
            1,
            match raise_cap {
                Some(cap) => cap as u32,
                None => 4,
            },
        ),
        BettingKind::NoLimit | BettingKind::PotLimit => (2, 2),
    }
}

/// Per-game bucket counts, indexed by street.
pub open spec fn spec_bucket_table(game_id: Seq<char>) -> Option<Seq<u64>> {
    if game_id == "holdem-fl"@ {
        Some(seq![169u64, 40, 40, 40])
    } else if game_id == "holdem-nl"@ {
        Some(seq![169u64, 24, 24, 24])
    } else if game_id == "omaha-pl"@ || game_id == "omaha8-pl"@ || game_id == "bigo-pl"@ {
        Some(seq![100u64, 24, 24, 24])
    } else if game_id == "omaha8-fl"@ {
        Some(seq![100u64, 40, 40, 40])
    } else if game_id == "stud-fl"@ || game_id == "stud8-fl"@ || game_id == "razz-fl"@ {
        Some(seq![1u64, 30, 12, 12, 12, 12])
    } else if game_id == "27td-fl"@ || game_id == "a5td-fl"@ || game_id == "badacey-fl"@
        || game_id == "badeucy-fl"@ || game_id == "archie-fl"@ {
        Some(seq![50u64, 10, 10, 10])
    } else if game_id == "badugi-fl"@ {
        Some(seq![50u64, 12, 12, 12])
    } else if game_id == "5cd-nl"@ || game_id == "27sd-nl"@ {
        Some(seq![500u64, 2000])
    } else if game_id == "drawmaha-fl"@ || game_id == "drawmaha-27-fl"@ || game_id
        == "drawmaha-dugi-fl"@ {
        Some(seq![30u64, 15, 12, 15, 15])
    } else {
        None
    }
}

/// Per-game bucket counts, indexed by street; `None` for an unknown game.
/// First-street counts at or below the lossless class count stay exact
/// (hold'em's 169); everything else is an equity-percentile bucketing.
pub fn bucket_table(game_id: &str) -> (r: Option<Vec<u64>>)
    ensures
        match r {
            Some(t) => spec_bucket_table(game_id@) == Some(t@),
            None => spec_bucket_table(game_id@) is None,
        },
{
    if str_eq(game_id, "holdem-fl") {
        Some(vec![169, 40, 40, 40])
    } else if str_eq(game_id, "holdem-nl") {
        Some(vec![169, 24, 24, 24])
    } else if str_eq(game_id, "omaha-pl") || str_eq(game_id, "omaha8-pl") || str_eq(game_id, "bigo-pl") {
        Some(vec![100, 24, 24, 24])
    } else if str_eq(game_id, "omaha8-fl") {
        Some(vec![100, 40, 40, 40])
    } else if str_eq(game_id, "stud-fl") || str_eq(game_id, "stud8-fl") || str_eq(game_id, "razz-fl") {
        // Street 0 is the bet-less down-card deal; its chance folds into
        // third street's bucket.
        Some(vec![1, 30, 12, 12, 12, 12])
    } else if str_eq(game_id, "27td-fl") || str_eq(game_id, "a5td-fl") || str_eq(game_id, "badacey-fl")
        || str_eq(game_id, "badeucy-fl") || str_eq(game_id, "archie-fl") {
        Some(vec![50, 10, 10, 10])
    } else if str_eq(game_id, "badugi-fl") {
        Some(vec![50, 12, 12, 12])
    } else if str_eq(game_id, "5cd-nl") || str_eq(game_id, "27sd-nl") {
        Some(vec![500, 2000])
    } else if str_eq(game_id, "drawmaha-fl") || str_eq(game_id, "drawmaha-27-fl") || str_eq(
        game_id,
        "drawmaha-dugi-fl",
    ) {
        Some(vec![30, 15, 12, 15, 15])
    } else {
        None
    }
}


/// How the first betting round of a hand is opened.
#[derive(Copy, Clone, Debug, PartialEq, Eq, Structural)]
pub enum ForcedBets {
    /// Blinds (and optional antes): the round opens check-or-bet.
    Blinds,
    /// A stud bring-in: the round opens with a forced choice.
    BringIn,
}

/// What the abstraction reads of one street of a game.
#[derive(Clone, Debug)]
pub struct StreetSpec {
    pub label: &'static str,
    /// The street has a betting round.
    pub betting: bool,
    /// `Some(max)` when the street is a draw allowing up to `max` discards.
    pub draw_max: Option<u8>,
}

/// What the abstraction reads of a game.
#[derive(Clone, Debug)]
pub struct GameSpec {
    pub id: &'static str,
    pub betting: BettingKind,
    pub forced_bets: ForcedBets,
    pub streets: Vec<StreetSpec>,
}

/// One street of the abstract game.
#[derive(Clone, Debug)]
pub struct StreetPlan {
    pub label: &'static str,
    /// Equity-percentile buckets for this street's card contexts.
    pub buckets: u64,
    /// Heads-up betting sequences this street's abstract menu allows
    /// (1 for a street with no betting round).
    pub bet_sequences: u64,
    /// Branches of the abstract draw decision (`max_discards + 1`; 1 for
    /// a non-draw street).
    pub draw_options: u64,
}

/// The abstraction plan for one game.
#[derive(Clone, Debug)]
pub struct GamePlan {
    pub game_id: &'static str,
    pub streets: Vec<StreetPlan>,
}

/// No street before `index` has a betting round.
pub open spec fn no_betting_before(streets: Seq<StreetSpec>, index: int) -> bool {
    forall|j: int| 0 <= j < index ==> !(#[trigger] streets[j]).betting
}

/// The plan's bucket count for street `index`: the game's table entry,
/// or 1 where the table has none.
pub open spec fn spec_street_buckets(game_id: Seq<char>, index: int) -> u64 {
    match spec_bucket_table(game_id) {
        Some(t) => if 0 <= index < t.len() {
            t[index]
        } else {
            1
        },
        None => 1,
    }
}

/// Street `index`'s abstract plan.
pub open spec fn spec_street_plan(spec: GameSpec, index: int) -> (u64, u64, u64) {
    let street = spec.streets@[index];
    let (sizes, cap) = spec_menu(spec.betting);
    let bet = if street.betting {
        spec_bet_sequences(
            sizes as nat,
            cap as nat,
            no_betting_before(spec.streets@, index) && spec.forced_bets == ForcedBets::BringIn,
        ) as u64
    } else {
        1
    };
    let draw = match street.draw_max {
        Some(max) => (max + 1) as u64,
        None => 1,
    };
    (spec_street_buckets(spec.id@, index), bet, draw)
}

proof fn lemma_chain_one_size(wagers: nat, cap: nat)
    requires
        1 <= wagers,
    ensures
        chain(wagers, cap, 1) <= 2 * cap + 2,
        wagers <= cap ==> chain(wagers, cap, 1) == 2 * (cap - wagers) + 2,
    decreases cap - wagers,
{
    if wagers < cap {
        lemma_chain_one_size(wagers + 1, cap);
        assert(1 * chain(wagers + 1, cap, 1) == chain(wagers + 1, cap, 1));
    }
}

/// Every menu the abstraction builds keeps its sequence counts small.
proof fn lemma_menu_bounded(betting: BettingKind)
    ensures
        chain(1, spec_menu(betting).1 as nat, spec_menu(betting).0 as nat) <= 1024,
        spec_bet_sequences(spec_menu(betting).0 as nat, spec_menu(betting).1 as nat, true) <= 2048,
        spec_bet_sequences(spec_menu(betting).0 as nat, spec_menu(betting).1 as nat, false) <= 4096,
        spec_menu(betting).0 >= 1,
{
    let (sizes, cap) = spec_menu(betting);
    if sizes == 1 {
        lemma_chain_one_size(1, cap as nat);
    } else {
        reveal_with_fuel(chain, 3);
        assert(chain(1, 2, 2) == 6);
    }
}

/// Build the abstraction plan for a game: one street plan per street,
/// in order.
pub fn plan(spec: &GameSpec) -> (r: GamePlan)
    ensures
        r.game_id == spec.id,
        r.streets@.len() == spec.streets@.len(),
        forall|i: int|
            #![trigger r.streets@[i]]
            0 <= i < r.streets@.len() ==> {
                &&& r.streets@[i].label == spec.streets@[i].label
                &&& (r.streets@[i].buckets, r.streets@[i].bet_sequences, r.streets@[i].draw_options)
                    == spec_street_plan(*spec, i)
            },
{
    let (sizes, cap) = menu(spec.betting);
    let buckets = bucket_table(spec.id);
    proof {
        lemma_menu_bounded(spec.betting);
    }
    let mut first_betting_street = true;
    let mut streets: Vec<StreetPlan> = Vec::new();
    let mut index: usize = 0;
    while index < spec.streets.len()
        invariant
            index <= spec.streets@.len(),
            (sizes, cap) == spec_menu(spec.betting),
            match buckets {
                Some(t) => spec_bucket_table(spec.id@) == Some(t@),
                None => spec_bucket_table(spec.id@) is None,
            },
            chain(1, cap as nat, sizes as nat) <= 1024,
            spec_bet_sequences(sizes as nat, cap as nat, true) <= 2048,
            spec_bet_sequences(sizes as nat, cap as nat, false) <= 4096,
            first_betting_street == no_betting_before(spec.streets@, index as int),
            streets@.len() == index,
            forall|i: int|
                #![trigger streets@[i]]
                0 <= i < index ==> {
                    &&& streets@[i].label == spec.streets@[i].label
                    &&& (streets@[i].buckets, streets@[i].bet_sequences, streets@[i].draw_options)
                        == spec_street_plan(*spec, i)
                },
        decreases spec.streets@.len() - index,
    {
        let street = &spec.streets[index];
        let bet_sequences = if street.betting {
            let forced = first_betting_street && spec.forced_bets == ForcedBets::BringIn;
            first_betting_street = false;
            bet_sequences(sizes, cap, forced)
        } else {
            1
        };
        let draw_options: u64 = match street.draw_max {
            Some(max) => max as u64 + 1,
            None => 1,
        };
        let street_buckets: u64 = match &buckets {
            Some(table) => if index < table.len() {
                table[index]
            } else {
                1
            },
            None => 1,
        };
        streets.push(StreetPlan { label: street.label, buckets: street_buckets, bet_sequences, draw_options });
        proof {
            assert(first_betting_street == no_betting_before(spec.streets@, index as int + 1));
        }
        index = index + 1;
    }
    GamePlan { game_id: spec.id, streets }
}

} // verus!
