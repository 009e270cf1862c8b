//! Abstract actions, decision kinds, and the information-set address the
//! trainer writes strategies under and the player looks them up by.
use vstd::prelude::*;
use crate::text::{decimal, lemma_decimal_digits, lemma_decimal_injective, push_char, push_decimal, push_str};

verus! {

/// An abstract action of the simulator's menu.
#[derive(Clone, Copy, Debug, PartialEq, Eq, Structural)]
pub enum Abs {
    Fold,
    /// Check when nothing is outstanding, call otherwise.
    CheckCall,
    /// The street's fixed-limit size.
    BetFixed,
    /// A pot-sized bet or raise.
    BetPot,
    /// Shove.
    AllIn,
    /// Post the stud bring-in.
    BringIn,
    /// Discard exactly `n` cards this draw turn.
    Draw(u8),
}

impl Abs {
    /// The path letter of an abstract action.
    pub open spec fn spec_letter(self) -> char {
        match self {
            Abs::Fold => 'f',
            Abs::CheckCall => 'c',
            Abs::BetFixed => 'b',
            Abs::BetPot => 'p',
            Abs::AllIn => 'a',
            Abs::BringIn => 'i',
            Abs::Draw(_) => 'g',
        }
    }

    /// The path letter appended when this action is taken.
    pub fn letter(self) -> (r: char)
        ensures
            r == self.spec_letter(),
    {
        match self {
            Abs::Fold => 'f',
            Abs::CheckCall => 'c',
            Abs::BetFixed => 'b',
            Abs::BetPot => 'p',
            Abs::AllIn => 'a',
            Abs::BringIn => 'i',
            Abs::Draw(_) => 'g',
        }
    }
}

/// Decision kinds, the second component of an infoset key.
#[derive(Clone, Copy, Debug, PartialEq, Eq, Structural)]
pub enum Kind {
    Wager,
    Draw,
    BringIn,
}

impl Kind {
    /// The key letter of a decision kind.
    pub open spec fn spec_letter(self) -> char {
        match self {
            Kind::Wager => 'w',
            Kind::Draw => 'd',
            Kind::BringIn => 'i',
        }
    }

    pub fn letter(self) -> (r: char)
        ensures
            r == self.spec_letter(),
    {
        match self {
            Kind::Wager => 'w',
            Kind::Draw => 'd',
            Kind::BringIn => 'i',
        }
    }
}

/// The infoset address `street|kind|bucket|path|menu_len`, numbers in
/// decimal.
pub open spec fn spec_infoset_key(street: nat, kind: Kind, bucket: nat, path: Seq<char>, menu_len: nat) -> Seq<char> {
    decimal(street) + seq!['|', kind.spec_letter(), '|'] + decimal(bucket) + seq!['|'] + path + seq!['|']
        + decimal(menu_len)
}

/// The infoset address for one decision point. The number of abstract
/// actions on offer is part of the address, so one key never names two
/// different menus.
pub fn infoset_key(street: usize, kind: Kind, bucket: u64, path: &str, menu_len: usize) -> (r: String)
    ensures
        r@ == spec_infoset_key(street as nat, kind, bucket as nat, path@, menu_len as nat),
{
    let mut s = String::new();
    push_decimal(&mut s, street as u64);
    push_char(&mut s, '|');
    push_char(&mut s, kind.letter());
    push_char(&mut s, '|');
    push_decimal(&mut s, bucket);
    push_char(&mut s, '|');
    push_str(&mut s, path);
    push_char(&mut s, '|');
    push_decimal(&mut s, menu_len as u64);
    proof {
        assert(s@ =~= spec_infoset_key(street as nat, kind, bucket as nat, path@, menu_len as nat));
    }
    s
}


/// A key names its decision point uniquely: two keys are equal only when
/// street, kind, bucket, path and menu length all agree.
pub proof fn lemma_infoset_key_injective(
    s1: nat,
    k1: Kind,
    b1: nat,
    p1: Seq<char>,
    m1: nat,
    s2: nat,
    k2: Kind,
    b2: nat,
    p2: Seq<char>,
    m2: nat,
)
    requires
        spec_infoset_key(s1, k1, b1, p1, m1) == spec_infoset_key(s2, k2, b2, p2, m2),
    ensures
        s1 == s2,
        k1 == k2,
        b1 == b2,
        p1 == p2,
        m1 == m2,
{
    let key = spec_infoset_key(s1, k1, b1, p1, m1);
    let key2 = spec_infoset_key(s2, k2, b2, p2, m2);
    lemma_decimal_digits(s1);
    lemma_decimal_digits(s2);
    lemma_decimal_digits(b1);
    lemma_decimal_digits(b2);
    lemma_decimal_digits(m1);
    lemma_decimal_digits(m2);
    let (ds1, ds2) = (decimal(s1), decimal(s2));
    // The street is everything before the first bar.
    if ds1.len() < ds2.len() {
        assert(key[ds1.len() as int] == '|');
        assert(key2[ds1.len() as int] == ds2[ds1.len() as int]);
    } else if ds2.len() < ds1.len() {
        assert(key2[ds2.len() as int] == '|');
        assert(key[ds2.len() as int] == ds1[ds2.len() as int]);
    }
    assert(ds1.len() == ds2.len());
    assert(ds1 =~= key.subrange(0, ds1.len() as int));
    assert(ds2 =~= key2.subrange(0, ds2.len() as int));
    lemma_decimal_injective(s1, s2);
    let l = ds1.len() as int;
    assert(key[l + 1] == k1.spec_letter());
    assert(key2[l + 1] == k2.spec_letter());
    // The bucket runs from after the kind to the next bar.
    let (db1, db2) = (decimal(b1), decimal(b2));
    let o = l + 3;
    if db1.len() < db2.len() {
        assert(key[o + db1.len()] == '|');
        assert(key2[o + db1.len()] == db2[db1.len() as int]);
    } else if db2.len() < db1.len() {
        assert(key2[o + db2.len()] == '|');
        assert(key[o + db2.len()] == db1[db2.len() as int]);
    }
    assert(db1 =~= key.subrange(o, o + db1.len()));
    assert(db2 =~= key2.subrange(o, o + db2.len()));
    lemma_decimal_injective(b1, b2);
    // The menu length is everything after the last bar.
    let (dm1, dm2) = (decimal(m1), decimal(m2));
    let n = key.len() as int;
    if dm1.len() < dm2.len() {
        assert(key[n - dm1.len() - 1] == '|');
        assert(key2[n - dm1.len() - 1] == dm2[dm2.len() - dm1.len() - 1]);
    } else if dm2.len() < dm1.len() {
        assert(key2[n - dm2.len() - 1] == '|');
        assert(key[n - dm2.len() - 1] == dm1[dm1.len() - dm2.len() - 1]);
    }
    assert(dm1 =~= key.subrange(n - dm1.len(), n));
    assert(dm2 =~= key2.subrange(n - dm2.len(), n));
    lemma_decimal_injective(m1, m2);
    // The path is what lies between.
    let start = o + db1.len() + 1;
    assert(p1 =~= key.subrange(start, start + p1.len()));
    assert(p2 =~= key2.subrange(start, start + p2.len()));
}


/// The conventional file name of a game's blueprint inside a blueprint
/// directory: the game id with a `.json` extension.
pub fn file_name(game_id: &str) -> (r: String)
    ensures
        r@ == game_id@ + ".json"@,
{
    let mut name = String::new();
    push_str(&mut name, game_id);
    push_str(&mut name, ".json");
    proof {
        assert(name@ =~= game_id@ + ".json"@);
    }
    name
}

} // verus!
