//! Suit isomorphism: lossless card abstraction. Two contexts that differ
//! only by a relabeling of the four suits are strategically identical, so
//! each is replaced by a canonical representative: the relabeling whose
//! per-group-sorted, flattened card sequence is lexicographically smallest.
//! Group boundaries carry information (hole cards, board, a street's
//! upcards) and are kept; order within a group is not, so groups are sorted.
//!
//! A card is its index `4 * rank + suit` (suit 0..4), so relabeling keeps
//! the rank and moves the suit.
use vstd::prelude::*;
use vstd::relations::{sorted_by, total_ordering};
use crate::ofc::{sort_cards, sorted_cards};

verus! {

/// `p` relabels the four suits: each entry is a suit and no two agree.
pub open spec fn is_suit_permutation(p: [u8; 4]) -> bool {
    &&& forall|i: int| 0 <= i < 4 ==> #[trigger] p[i] < 4
    &&& forall|i: int, j: int| 0 <= i < j < 4 ==> #[trigger] p[i] != #[trigger] p[j]
}

/// `p` comes strictly before `q` in lexicographic order.
pub open spec fn perm_less(p: [u8; 4], q: [u8; 4]) -> bool {
    ||| p[0] < q[0]
    ||| (p[0] == q[0] && p[1] < q[1])
    ||| (p[0] == q[0] && p[1] == q[1] && p[2] < q[2])
    ||| (p[0] == q[0] && p[1] == q[1] && p[2] == q[2] && p[3] < q[3])
}

/// How many of `0..x` differ from `skip`.
spec fn count_unlike1(x: int, skip: int) -> int {
    if skip < x {
        x - 1
    } else {
        x
    }
}

/// How many of `0..x` differ from both `s1` and `s2` (which differ).
spec fn count_unlike2(x: int, s1: int, s2: int) -> int {
    x - (if s1 < x {
        1int
    } else {
        0
    }) - (if s2 < x {
        1int
    } else {
        0
    })
}

/// `p` is one of the first `n` entries of `list`.
pub open spec fn listed(list: [[u8; 4]; 24], n: int, p: [u8; 4]) -> bool {
    exists|i: int| 0 <= i < n && #[trigger] list[i] == p
}

proof fn lemma_listed_kept(before: [[u8; 4]; 24], after: [[u8; 4]; 24], n: int, p: [u8; 4])
    requires
        listed(before, n, p),
        forall|i: int| 0 <= i < n ==> #[trigger] after[i] == before[i],
    ensures
        listed(after, n + 1, p),
{
    let i = choose|i: int| 0 <= i < n && #[trigger] before[i] == p;
    assert(after[i] == p);
}

/// All 24 permutations of the four suits, each as the suit every suit is
/// relabeled to, in strictly increasing lexicographic order: every entry is
/// a permutation and no two entries are equal.
pub fn suit_permutations() -> (out: [[u8; 4]; 24])
    ensures
        forall|i: int| 0 <= i < 24 ==> is_suit_permutation(#[trigger] out[i]),
        forall|i: int, j: int| 0 <= i < j < 24 ==> perm_less(#[trigger] out[i], #[trigger] out[j]),
        forall|p: [u8; 4]| #[trigger] is_suit_permutation(p) ==> listed(out, 24, p),
{
    let mut out = [[0u8; 4]; 24];
    let mut n: usize = 0;
    let mut a: u8 = 0;
    while a < 4
        invariant
            a <= 4,
            n == 6 * a,
            forall|i: int| 0 <= i < n ==> is_suit_permutation(#[trigger] out[i]),
            forall|i: int| 0 <= i < n ==> (#[trigger] out[i])[0] < a,
            forall|i: int, j: int| 0 <= i < j < n ==> perm_less(#[trigger] out[i], #[trigger] out[j]),
            forall|p: [u8; 4]| #[trigger] is_suit_permutation(p) && p[0] < a ==> listed(out, n as int, p),
        decreases 4 - a,
    {
        let mut b: u8 = 0;
        while b < 4
            invariant
                a < 4,
                b <= 4,
                n == 6 * a + 2 * count_unlike1(b as int, a as int),
                forall|i: int| 0 <= i < n ==> is_suit_permutation(#[trigger] out[i]),
                forall|i: int| 0 <= i < 6 * a ==> (#[trigger] out[i])[0] < a,
                forall|i: int| 6 * a <= i < n ==> (#[trigger] out[i])[0] == a && out[i][1] < b,
                forall|i: int, j: int| 0 <= i < j < n ==> perm_less(#[trigger] out[i], #[trigger] out[j]),
                forall|p: [u8; 4]| #[trigger] is_suit_permutation(p) && p[0] < a ==> listed(out, n as int, p),
                forall|p: [u8; 4]|
                    #[trigger] is_suit_permutation(p) && p[0] == a && p[1] < b ==> listed(out, n as int, p),
            decreases 4 - b,
        {
            if b != a {
                let mut c: u8 = 0;
                while c < 4
                    invariant
                        a < 4,
                        b < 4,
                        a != b,
                        c <= 4,
                        n == 6 * a + 2 * count_unlike1(b as int, a as int) + count_unlike2(
                            c as int,
                            a as int,
                            b as int,
                        ),
                        forall|i: int| 0 <= i < n ==> is_suit_permutation(#[trigger] out[i]),
                        forall|i: int| 0 <= i < 6 * a ==> (#[trigger] out[i])[0] < a,
                        forall|i: int|
                            6 * a <= i < 6 * a + 2 * count_unlike1(b as int, a as int) ==> (#[trigger] out[i])[0]
                                == a && out[i][1] < b,
                        forall|i: int|
                            6 * a + 2 * count_unlike1(b as int, a as int) <= i < n ==> (#[trigger] out[i])[0]
                                == a && out[i][1] == b && out[i][2] < c,
                        forall|i: int, j: int| 0 <= i < j < n ==> perm_less(#[trigger] out[i], #[trigger] out[j]),
                        forall|p: [u8; 4]|
                            #[trigger] is_suit_permutation(p) && p[0] < a ==> listed(out, n as int, p),
                        forall|p: [u8; 4]|
                            #[trigger] is_suit_permutation(p) && p[0] == a && p[1] < b ==> listed(
                                out,
                                n as int,
                                p,
                            ),
                        forall|p: [u8; 4]|
                            #[trigger] is_suit_permutation(p) && p[0] == a && p[1] == b && p[2] < c
                                ==> listed(out, n as int, p),
                    decreases 4 - c,
                {
                    if c != a && c != b {
                        let d = 6 - a - b - c;
                        let p: [u8; 4] = [a, b, c, d];
                        let ghost before = out;
                        out[n] = p;
                        proof {
                            assert(p[0] == a && p[1] == b && p[2] == c && p[3] == d);
                            assert(is_suit_permutation(p));
                            assert forall|i: int| 0 <= i < n implies out[i] == before[i] by {}
                            assert(out[n as int] == p);
                            assert forall|i: int, j: int| 0 <= i < j < n + 1 implies perm_less(
                                #[trigger] out[i],
                                #[trigger] out[j],
                            ) by {
                                if j == n {
                                    assert(out[i] == before[i]);
                                } else {
                                    assert(out[i] == before[i] && out[j] == before[j]);
                                }
                            }
                            assert forall|q: [u8; 4]| #[trigger] is_suit_permutation(q) && (q[0] < a || (q[0]
                                == a && q[1] < b) || (q[0] == a && q[1] == b && q[2] <= c)) implies listed(
                                out,
                                n + 1,
                                q,
                            ) by {
                                if q[0] == a && q[1] == b && q[2] == c {
                                    assert(q[3] == d);
                                    assert(q =~= p);
                                    assert(out[n as int] == q);
                                } else {
                                    lemma_listed_kept(before, out, n as int, q);
                                }
                            }
                        }
                        n = n + 1;
                    }
                    c = c + 1;
                }
            }
            b = b + 1;
        }
        a = a + 1;
    }
    out
}


/// Card `c` with its suit relabeled by `p`.
pub open spec fn relabel(p: [u8; 4], c: u8) -> u8 {
    (4 * (c / 4) + p[(c % 4) as int]) as u8
}

/// Every card of `g` relabeled by `p`, in place.
pub open spec fn relabel_group(p: [u8; 4], g: Seq<u8>) -> Seq<u8> {
    g.map_values(|c: u8| relabel(p, c))
}

/// Ascending order of card indices.
pub open spec fn ascending() -> spec_fn(u8, u8) -> bool {
    |a: u8, b: u8| a <= b
}

/// The context `groups` relabeled by `p`, each group sorted.
pub open spec fn relabeled(groups: Seq<Seq<u8>>, p: [u8; 4]) -> Seq<Seq<u8>> {
    groups.map_values(|g: Seq<u8>| relabel_group(p, g).sort_by(ascending()))
}

/// `a` comes strictly before `b` in lexicographic order (a proper prefix
/// comes first).
pub open spec fn lex_less(a: Seq<u8>, b: Seq<u8>) -> bool
    decreases a.len(),
{
    if a.len() == 0 {
        b.len() > 0
    } else if b.len() == 0 {
        false
    } else if a[0] != b[0] {
        a[0] < b[0]
    } else {
        lex_less(a.drop_first(), b.drop_first())
    }
}

/// Every card of every group is a valid index.
pub open spec fn valid_groups(groups: Seq<Seq<u8>>) -> bool {
    forall|i: int, j: int| 0 <= i < groups.len() && 0 <= j < groups[i].len() ==> #[trigger] groups[i][j] < 52
}

/// `r` is the canonical form of `groups`: the context relabeled by some
/// suit permutation, whose flattened cards no relabeling undercuts.
pub open spec fn is_canonical(groups: Seq<Seq<u8>>, r: Seq<Seq<u8>>) -> bool {
    &&& exists|p: [u8; 4]| is_suit_permutation(p) && r == #[trigger] relabeled(groups, p)
    &&& forall|q: [u8; 4]|
        is_suit_permutation(q) ==> !lex_less(#[trigger] relabeled(groups, q).flatten(), r.flatten())
}

/// The groups of a context as sequences.
pub open spec fn groups_view(groups: Seq<Vec<u8>>) -> Seq<Seq<u8>> {
    groups.map_values(|g: Vec<u8>| g@)
}

proof fn lemma_ascending_total()
    ensures
        total_ordering(ascending()),
{
}

proof fn lemma_lex_irreflexive(a: Seq<u8>)
    ensures
        !lex_less(a, a),
    decreases a.len(),
{
    if a.len() > 0 {
        lemma_lex_irreflexive(a.drop_first());
    }
}

proof fn lemma_lex_transitive(a: Seq<u8>, b: Seq<u8>, c: Seq<u8>)
    requires
        lex_less(a, b),
        lex_less(b, c),
    ensures
        lex_less(a, c),
    decreases a.len(),
{
    if a.len() > 0 && b.len() > 0 && c.len() > 0 && a[0] == b[0] && b[0] == c[0] {
        lemma_lex_transitive(a.drop_first(), b.drop_first(), c.drop_first());
    }
}

proof fn lemma_lex_total(a: Seq<u8>, b: Seq<u8>)
    requires
        !lex_less(a, b),
        !lex_less(b, a),
    ensures
        a == b,
    decreases a.len(),
{
    if a.len() > 0 && b.len() > 0 {
        lemma_lex_total(a.drop_first(), b.drop_first());
        assert(a =~= seq![a[0]] + a.drop_first());
        assert(b =~= seq![b[0]] + b.drop_first());
    } else {
        assert(a =~= b);
    }
}

/// Whether `a` comes strictly before `b` in lexicographic order.
fn lex_less_exec(a: &Vec<u8>, b: &Vec<u8>) -> (r: bool)
    ensures
        r == lex_less(a@, b@),
{
    let mut i: usize = 0;
    proof {
        assert(a@.skip(0) =~= a@);
        assert(b@.skip(0) =~= b@);
    }
    while i < a.len() && i < b.len()
        invariant
            i <= a@.len(),
            i <= b@.len(),
            lex_less(a@, b@) == lex_less(a@.skip(i as int), b@.skip(i as int)),
        decreases a@.len() - i,
    {
        if a[i] != b[i] {
            return a[i] < b[i];
        }
        proof {
            assert(a@.skip(i as int).drop_first() =~= a@.skip(i + 1));
            assert(b@.skip(i as int).drop_first() =~= b@.skip(i + 1));
        }
        i = i + 1;
    }
    i < b.len()
}

/// The cards of `groups`, group after group.
fn flatten_groups(groups: &Vec<Vec<u8>>) -> (r: Vec<u8>)
    ensures
        r@ == groups_view(groups@).flatten(),
{
    let mut out: Vec<u8> = Vec::new();
    let mut i: usize = 0;
    while i < groups.len()
        invariant
            i <= groups@.len(),
            out@ == groups_view(groups@.take(i as int)).flatten(),
        decreases groups@.len() - i,
    {
        let mut j: usize = 0;
        let ghost start = out@;
        while j < groups[i].len()
            invariant
                i < groups@.len(),
                j <= groups@[i as int]@.len(),
                out@ == start + groups@[i as int]@.take(j as int),
            decreases groups@[i as int]@.len() - j,
        {
            out.push(groups[i][j]);
            j = j + 1;
            proof {
                assert(out@ =~= start + groups@[i as int]@.take(j as int));
            }
        }
        proof {
            assert(groups@[i as int]@.take(j as int) =~= groups@[i as int]@);
            assert(groups_view(groups@.take(i + 1)) =~= groups_view(groups@.take(i as int)).push(
                groups@[i as int]@,
            ));
            groups_view(groups@.take(i as int)).lemma_flatten_push(groups@[i as int]@);
        }
        i = i + 1;
    }
    proof {
        assert(groups@.take(i as int) =~= groups@);
    }
    out
}

/// The group `g` relabeled by `p` and sorted.
fn relabel_sorted(p: [u8; 4], g: &Vec<u8>) -> (r: Vec<u8>)
    requires
        is_suit_permutation(p),
        forall|j: int| 0 <= j < g@.len() ==> #[trigger] g@[j] < 52,
    ensures
        r@ == relabel_group(p, g@).sort_by(ascending()),
        forall|j: int| 0 <= j < r@.len() ==> #[trigger] r@[j] < 52,
{
    let mut moved: Vec<u8> = Vec::new();
    let mut j: usize = 0;
    while j < g.len()
        invariant
            is_suit_permutation(p),
            forall|k: int| 0 <= k < g@.len() ==> #[trigger] g@[k] < 52,
            j <= g@.len(),
            moved@ == relabel_group(p, g@.take(j as int)),
            forall|k: int| 0 <= k < moved@.len() ==> #[trigger] moved@[k] < 52,
        decreases g@.len() - j,
    {
        let c = g[j];
        let suit = p[(c % 4) as usize];
        let card = 4 * (c / 4) + suit;
        moved.push(card);
        j = j + 1;
        proof {
            assert(relabel_group(p, g@.take(j as int)) =~= relabel_group(p, g@.take(j - 1)).push(
                relabel(p, c),
            ));
        }
    }
    proof {
        assert(g@.take(j as int) =~= g@);
    }
    let sorted = sort_cards(moved.as_slice());
    proof {
        broadcast use vstd::seq_lib::group_to_multiset_ensures;

        lemma_ascending_total();
        moved@.lemma_sort_by_ensures(ascending());
        assert(sorted_by(sorted@, ascending()));
        vstd::seq_lib::lemma_sorted_unique(sorted@, moved@.sort_by(ascending()), ascending());
        assert forall|k: int| 0 <= k < sorted@.len() implies #[trigger] sorted@[k] < 52 by {
            assert(sorted@.contains(sorted@[k]));
            assert(moved@.contains(sorted@[k]));
        }
    }
    sorted
}

/// The context relabeled by `p`, each group sorted.
fn relabel_context(p: [u8; 4], groups: &[Vec<u8>]) -> (r: Vec<Vec<u8>>)
    requires
        is_suit_permutation(p),
        valid_groups(groups_view(groups@)),
    ensures
        groups_view(r@) == relabeled(groups_view(groups@), p),
{
    let mut out: Vec<Vec<u8>> = Vec::new();
    let mut i: usize = 0;
    while i < groups.len()
        invariant
            is_suit_permutation(p),
            valid_groups(groups_view(groups@)),
            i <= groups@.len(),
            groups_view(out@) == relabeled(groups_view(groups@.take(i as int)), p),
        decreases groups@.len() - i,
    {
        proof {
            assert forall|j: int| 0 <= j < groups@[i as int]@.len() implies #[trigger] groups@[i as int]@[j]
                < 52 by {
                assert(groups_view(groups@)[i as int][j] < 52);
            }
        }
        let g = relabel_sorted(p, &groups[i]);
        let ghost before = out@;
        out.push(g);
        i = i + 1;
        proof {
            let prev = groups_view(groups@.take(i - 1));
            assert(groups_view(groups@.take(i as int)) =~= prev.push(groups@[i - 1]@));
            assert(relabeled(prev.push(groups@[i - 1]@), p) =~= relabeled(prev, p).push(
                relabel_group(p, groups@[i - 1]@).sort_by(ascending()),
            ));
            assert(groups_view(out@) =~= groups_view(before).push(g@));
        }
    }
    proof {
        assert(groups@.take(i as int) =~= groups@);
    }
    out
}

/// The canonical (suit-relabeled, per-group-sorted) form of `groups`.
///
/// Any two inputs that are suit relabelings of each other, with the same
/// group structure and any order within groups, map to the same output.
pub fn canonical(groups: &[Vec<u8>]) -> (r: Vec<Vec<u8>>)
    requires
        valid_groups(groups_view(groups@)),
    ensures
        is_canonical(groups_view(groups@), groups_view(r@)),
{
    let ghost gv = groups_view(groups@);
    let perms = suit_permutations();
    let mut best = relabel_context(perms[0], groups);
    let mut best_flat = flatten_groups(&best);
    let ghost mut best_at: int = 0;
    proof {
        lemma_lex_irreflexive(best_flat@);
    }
    let mut k: usize = 1;
    while k < 24
        invariant
            gv == groups_view(groups@),
            valid_groups(gv),
            1 <= k <= 24,
            forall|i: int| 0 <= i < 24 ==> is_suit_permutation(#[trigger] perms[i]),
            forall|q: [u8; 4]| #[trigger] is_suit_permutation(q) ==> listed(perms, 24, q),
            0 <= best_at < k,
            groups_view(best@) == relabeled(gv, perms[best_at]),
            best_flat@ == groups_view(best@).flatten(),
            forall|j: int| 0 <= j < k ==> !lex_less(#[trigger] relabeled(gv, perms[j]).flatten(), best_flat@),
        decreases 24 - k,
    {
        let cand = relabel_context(perms[k], groups);
        let cand_flat = flatten_groups(&cand);
        let less = lex_less_exec(&cand_flat, &best_flat);
        proof {
            lemma_lex_irreflexive(best_flat@);
        }
        if less {
            proof {
                assert forall|j: int| 0 <= j < k + 1 implies !lex_less(
                    #[trigger] relabeled(gv, perms[j]).flatten(),
                    cand_flat@,
                ) by {
                    if j == k {
                        lemma_lex_irreflexive(cand_flat@);
                    } else if lex_less(relabeled(gv, perms[j]).flatten(), cand_flat@) {
                        lemma_lex_transitive(relabeled(gv, perms[j]).flatten(), cand_flat@, best_flat@);
                    }
                }
                best_at = k as int;
            }
            best = cand;
            best_flat = cand_flat;
        }
        k = k + 1;
    }
    proof {
        assert(is_suit_permutation(perms[best_at]));
        assert forall|q: [u8; 4]| is_suit_permutation(q) implies !lex_less(
            #[trigger] relabeled(gv, q).flatten(),
            groups_view(best@).flatten(),
        ) by {
            assert(listed(perms, 24, q));
            let i = choose|i: int| 0 <= i < 24 && #[trigger] perms[i] == q;
            assert(relabeled(gv, perms[i]) == relabeled(gv, q));
        }
    }
    best
}


/// The relabeling that applies `s` first and then `q`.
pub open spec fn compose(q: [u8; 4], s: [u8; 4]) -> [u8; 4] {
    [q[s[0] as int], q[s[1] as int], q[s[2] as int], q[s[3] as int]]
}

/// The relabeling that undoes `s`.
pub open spec fn inverse(s: [u8; 4]) -> [u8; 4] {
    [pre_image(s, 0), pre_image(s, 1), pre_image(s, 2), pre_image(s, 3)]
}

/// The suit that `s` relabels to `v`.
pub open spec fn pre_image(s: [u8; 4], v: u8) -> u8 {
    if s[0] == v {
        0
    } else if s[1] == v {
        1
    } else if s[2] == v {
        2
    } else {
        3
    }
}

proof fn lemma_compose_inverse(q: [u8; 4], s: [u8; 4])
    requires
        is_suit_permutation(q),
        is_suit_permutation(s),
    ensures
        is_suit_permutation(compose(q, s)),
        is_suit_permutation(inverse(s)),
        compose(compose(q, inverse(s)), s) == q,
{
    let inv = inverse(s);
    assert(s[0] != s[1] && s[0] != s[2] && s[0] != s[3] && s[1] != s[2] && s[1] != s[3] && s[2] != s[3]);
    assert(q[0] != q[1] && q[0] != q[2] && q[0] != q[3] && q[1] != q[2] && q[1] != q[3] && q[2] != q[3]);
    assert(s[0] < 4 && s[1] < 4 && s[2] < 4 && s[3] < 4);
    assert(q[0] < 4 && q[1] < 4 && q[2] < 4 && q[3] < 4);
    assert(inv[s[0] as int] == 0 && inv[s[1] as int] == 1 && inv[s[2] as int] == 2 && inv[s[3] as int] == 3);
    assert(compose(compose(q, inv), s) =~= q);
}

proof fn lemma_relabel_compose(q: [u8; 4], s: [u8; 4], c: u8)
    requires
        is_suit_permutation(q),
        is_suit_permutation(s),
        c < 52,
    ensures
        relabel(q, relabel(s, c)) == relabel(compose(q, s), c),
        relabel(s, c) < 52,
{
    let k = c / 4;
    let r = c % 4;
    assert(s[r as int] < 4);
    let d = relabel(s, c);
    assert(d == 4 * k + s[r as int]);
    assert(d / 4 == k && d % 4 == s[r as int]) by (nonlinear_arith)
        requires
            d == 4 * k + s[r as int],
            s[r as int] < 4,
    ;
    assert(compose(q, s)[r as int] == q[s[r as int] as int]);
}

proof fn lemma_relabel_multiset(q: [u8; 4], x: Seq<u8>, y: Seq<u8>)
    requires
        x.to_multiset() == y.to_multiset(),
    ensures
        relabel_group(q, x).to_multiset() == relabel_group(q, y).to_multiset(),
    decreases x.len(),
{
    broadcast use vstd::seq_lib::group_to_multiset_ensures;
    broadcast use vstd::multiset::group_multiset_axioms;

    vstd::seq_lib::to_multiset_len(x);
    vstd::seq_lib::to_multiset_len(y);
    if x.len() == 0 {
        assert(relabel_group(q, x) =~= Seq::<u8>::empty());
        assert(relabel_group(q, y) =~= Seq::<u8>::empty());
    } else {
        let e = x.last();
        let xs = x.drop_last();
        assert(x =~= xs.push(e));
        assert(x.to_multiset().count(e) > 0);
        assert(y.contains(e));
        let j = choose|j: int| 0 <= j < y.len() && y[j] == e;
        let ys = y.remove(j);
        vstd::seq_lib::to_multiset_remove(y, j);
        assert(xs.to_multiset() =~= x.to_multiset().remove(e));
        lemma_relabel_multiset(q, xs, ys);
        assert(relabel_group(q, x) =~= relabel_group(q, xs).push(relabel(q, e)));
        assert(y =~= ys.insert(j, e));
        assert(relabel_group(q, y) =~= relabel_group(q, ys).insert(j, relabel(q, e)));
        vstd::seq_lib::to_multiset_insert(relabel_group(q, ys), j, relabel(q, e));
    }
}

proof fn lemma_sort_same_multiset(x: Seq<u8>, y: Seq<u8>)
    requires
        x.to_multiset() == y.to_multiset(),
    ensures
        x.sort_by(ascending()) == y.sort_by(ascending()),
{
    lemma_ascending_total();
    x.lemma_sort_by_ensures(ascending());
    y.lemma_sort_by_ensures(ascending());
    vstd::seq_lib::lemma_sorted_unique(x.sort_by(ascending()), y.sort_by(ascending()), ascending());
}

proof fn lemma_sort_len(x: Seq<u8>)
    ensures
        x.sort_by(ascending()).len() == x.len(),
{
    lemma_ascending_total();
    x.lemma_sort_by_ensures(ascending());
    vstd::seq_lib::to_multiset_len(x);
    vstd::seq_lib::to_multiset_len(x.sort_by(ascending()));
}

proof fn lemma_flatten_same_shape(x: Seq<Seq<u8>>, y: Seq<Seq<u8>>)
    requires
        x.len() == y.len(),
        forall|i: int| 0 <= i < x.len() ==> (#[trigger] x[i]).len() == y[i].len(),
        x.flatten() == y.flatten(),
    ensures
        x == y,
    decreases x.len(),
{
    if x.len() == 0 {
        assert(x =~= y);
    } else {
        let n = x[0].len() as int;
        assert(x.flatten() == x[0] + x.drop_first().flatten());
        assert(y.flatten() == y[0] + y.drop_first().flatten());
        assert(x[0] =~= x.flatten().take(n));
        assert(y[0] =~= y.flatten().take(n));
        assert(x.drop_first().flatten() =~= x.flatten().skip(n));
        assert(y.drop_first().flatten() =~= y.flatten().skip(n));
        lemma_flatten_same_shape(x.drop_first(), y.drop_first());
        assert(x =~= seq![x[0]] + x.drop_first());
        assert(y =~= seq![y[0]] + y.drop_first());
    }
}

/// A context has at most one canonical form.
pub proof fn lemma_canonical_unique(groups: Seq<Seq<u8>>, c1: Seq<Seq<u8>>, c2: Seq<Seq<u8>>)
    requires
        is_canonical(groups, c1),
        is_canonical(groups, c2),
    ensures
        c1 == c2,
{
    let p1 = choose|p: [u8; 4]| is_suit_permutation(p) && c1 == #[trigger] relabeled(groups, p);
    let p2 = choose|p: [u8; 4]| is_suit_permutation(p) && c2 == #[trigger] relabeled(groups, p);
    assert(!lex_less(relabeled(groups, p2).flatten(), c1.flatten()));
    assert(!lex_less(relabeled(groups, p1).flatten(), c2.flatten()));
    lemma_lex_total(c1.flatten(), c2.flatten());
    assert forall|i: int| 0 <= i < c1.len() implies (#[trigger] c1[i]).len() == c2[i].len() by {
        lemma_sort_len(relabel_group(p1, groups[i]));
        lemma_sort_len(relabel_group(p2, groups[i]));
    }
    lemma_flatten_same_shape(c1, c2);
}

proof fn lemma_relabeled_compose(a: Seq<Seq<u8>>, b: Seq<Seq<u8>>, s: [u8; 4], q: [u8; 4])
    requires
        valid_groups(a),
        is_suit_permutation(s),
        is_suit_permutation(q),
        a.len() == b.len(),
        forall|i: int| 0 <= i < a.len() ==> (#[trigger] b[i]).to_multiset() == relabel_group(s, a[i]).to_multiset(),
    ensures
        relabeled(b, q) == relabeled(a, compose(q, s)),
{
    assert forall|i: int| 0 <= i < a.len() implies #[trigger] relabeled(b, q)[i] == relabeled(a, compose(q, s))[i] by {
        let via = relabel_group(s, a[i]);
        assert forall|j: int| 0 <= j < a[i].len() implies #[trigger] relabel_group(q, via)[j] == relabel_group(
            compose(q, s),
            a[i],
        )[j] by {
            lemma_relabel_compose(q, s, a[i][j]);
        }
        assert(relabel_group(q, via) =~= relabel_group(compose(q, s), a[i]));
        lemma_relabel_multiset(q, b[i], via);
        lemma_sort_same_multiset(relabel_group(q, b[i]), relabel_group(q, via));
    }
    assert(relabeled(b, q) =~= relabeled(a, compose(q, s)));
}

/// Relabeling the suits of a context, and reordering cards within its
/// groups, leaves its canonical form unchanged: `b` holds in each group the
/// cards of the same group of `a` with suits relabeled by `s`, in any order.
pub proof fn lemma_canonical_ignores_suits_and_order(
    a: Seq<Seq<u8>>,
    b: Seq<Seq<u8>>,
    s: [u8; 4],
    ca: Seq<Seq<u8>>,
    cb: Seq<Seq<u8>>,
)
    requires
        valid_groups(a),
        is_suit_permutation(s),
        a.len() == b.len(),
        forall|i: int| 0 <= i < a.len() ==> (#[trigger] b[i]).to_multiset() == relabel_group(s, a[i]).to_multiset(),
        is_canonical(a, ca),
        is_canonical(b, cb),
    ensures
        ca == cb,
{
    let pb = choose|p: [u8; 4]| is_suit_permutation(p) && cb == #[trigger] relabeled(b, p);
    lemma_relabeled_compose(a, b, s, pb);
    lemma_compose_inverse(pb, s);
    assert(is_suit_permutation(compose(pb, s)));
    assert(cb == relabeled(a, compose(pb, s)));
    assert forall|q: [u8; 4]| is_suit_permutation(q) implies !lex_less(
        #[trigger] relabeled(a, q).flatten(),
        cb.flatten(),
    ) by {
        lemma_compose_inverse(q, s);
        let q2 = compose(q, inverse(s));
        lemma_compose_inverse(q, inverse(s));
        lemma_relabeled_compose(a, b, s, q2);
        assert(relabeled(b, q2) == relabeled(a, q));
        assert(!lex_less(relabeled(b, q2).flatten(), cb.flatten()));
    }
    assert(is_canonical(a, cb));
    lemma_canonical_unique(a, ca, cb);
}


/// `b` holds, group by group, the cards of `a` with the suits relabeled by
/// one suit permutation, in any order within each group.
pub open spec fn suit_isomorphic(a: Seq<Seq<u8>>, b: Seq<Seq<u8>>) -> bool {
    &&& a.len() == b.len()
    &&& exists|s: [u8; 4]|
        is_suit_permutation(s) && forall|i: int|
            0 <= i < a.len() ==> (#[trigger] b[i]).to_multiset() == relabel_group(s, a[i]).to_multiset()
}

proof fn lemma_inverse_undoes(q: [u8; 4], c: u8)
    requires
        is_suit_permutation(q),
        c < 52,
    ensures
        relabel(inverse(q), relabel(q, c)) == c,
{
    let inv = inverse(q);
    assert(q[0] != q[1] && q[0] != q[2] && q[0] != q[3] && q[1] != q[2] && q[1] != q[3] && q[2] != q[3]);
    assert(q[0] < 4 && q[1] < 4 && q[2] < 4 && q[3] < 4);
    assert(inv[q[0] as int] == 0 && inv[q[1] as int] == 1 && inv[q[2] as int] == 2 && inv[q[3] as int] == 3);
    lemma_compose_inverse(q, q);
    lemma_relabel_compose(inv, q, c);
    let k = c / 4;
    let r = c % 4;
    assert(compose(inv, q)[r as int] == r);
    assert(4 * k + r == c) by (nonlinear_arith)
        requires
            k == c / 4,
            r == c % 4,
    ;
}

/// Two contexts share their canonical form exactly when one is a suit
/// relabeling of the other, group by group and in any order within groups:
/// canonicalizing merges nothing else.
pub proof fn lemma_canonical_decides_isomorphism(
    a: Seq<Seq<u8>>,
    b: Seq<Seq<u8>>,
    ca: Seq<Seq<u8>>,
    cb: Seq<Seq<u8>>,
)
    requires
        valid_groups(a),
        valid_groups(b),
        is_canonical(a, ca),
        is_canonical(b, cb),
    ensures
        ca == cb <==> suit_isomorphic(a, b),
{
    if suit_isomorphic(a, b) {
        let s = choose|s: [u8; 4]|
            is_suit_permutation(s) && forall|i: int|
                0 <= i < a.len() ==> (#[trigger] b[i]).to_multiset() == relabel_group(s, a[i]).to_multiset();
        lemma_canonical_ignores_suits_and_order(a, b, s, ca, cb);
    }
    if ca == cb {
        let p = choose|p: [u8; 4]| is_suit_permutation(p) && ca == #[trigger] relabeled(a, p);
        let q = choose|p: [u8; 4]| is_suit_permutation(p) && cb == #[trigger] relabeled(b, p);
        let inv = inverse(q);
        lemma_compose_inverse(p, q);
        let s = compose(inv, p);
        lemma_compose_inverse(inv, p);
        assert(a.len() == ca.len() && b.len() == cb.len());
        assert forall|i: int| 0 <= i < a.len() implies (#[trigger] b[i]).to_multiset() == relabel_group(
            s,
            a[i],
        ).to_multiset() by {
            let x = relabel_group(p, a[i]);
            let y = relabel_group(q, b[i]);
            assert(ca[i] == x.sort_by(ascending()));
            assert(cb[i] == y.sort_by(ascending()));
            lemma_ascending_total();
            x.lemma_sort_by_ensures(ascending());
            y.lemma_sort_by_ensures(ascending());
            lemma_relabel_multiset(inv, x, y);
            assert forall|j: int| 0 <= j < a[i].len() implies #[trigger] relabel_group(inv, x)[j]
                == relabel_group(s, a[i])[j] by {
                lemma_relabel_compose(inv, p, a[i][j]);
            }
            assert(relabel_group(inv, x) =~= relabel_group(s, a[i]));
            assert forall|j: int| 0 <= j < b[i].len() implies #[trigger] relabel_group(inv, y)[j]
                == b[i][j] by {
                lemma_inverse_undoes(q, b[i][j]);
            }
            assert(relabel_group(inv, y) =~= b[i]);
        }
        assert(suit_isomorphic(a, b));
    }
}

/// The separator token written between groups of a key.
pub const SEPARATOR: u8 = 63;

/// The tokens a key packs: each group's cards, a separator between groups.
pub open spec fn key_tokens(c: Seq<Seq<u8>>) -> Seq<u8>
    decreases c.len(),
{
    if c.len() == 0 {
        Seq::empty()
    } else if c.len() == 1 {
        c[0]
    } else {
        key_tokens(c.drop_last()) + seq![SEPARATOR] + c.last()
    }
}

/// Tokens packed six bits each into a `u128`, the last token lowest (bits
/// shifted past the top are dropped).
pub open spec fn pack_tokens(t: Seq<u8>) -> u128
    decreases t.len(),
{
    if t.len() == 0 {
        0
    } else {
        (pack_tokens(t.drop_last()) << 6u128) | (t.last() as u128)
    }
}

fn push_token(key: u128, tokens: Ghost<Seq<u8>>, t: u8) -> (r: u128)
    requires
        key == pack_tokens(tokens@),
    ensures
        r == pack_tokens(tokens@.push(t)),
{
    proof {
        assert(tokens@.push(t).drop_last() =~= tokens@);
    }
    (key << 6u128) | (t as u128)
}

/// The canonical form of `groups` packed into one `u128` key: six bits per
/// card and a separator (63) between groups. Up to 18 cards with their
/// separators fit; keys are comparable between contexts of the same group
/// shape, as an information-set lookup key.
pub fn canonical_key(groups: &[Vec<u8>]) -> (r: u128)
    requires
        valid_groups(groups_view(groups@)),
    ensures
        exists|c: Seq<Seq<u8>>| #[trigger] is_canonical(groups_view(groups@), c) && r == pack_tokens(key_tokens(c)),
{
    let c = canonical(groups);
    let ghost cv = groups_view(c@);
    let mut key: u128 = 0;
    let ghost mut toks: Seq<u8> = Seq::empty();
    let mut i: usize = 0;
    while i < c.len()
        invariant
            cv == groups_view(c@),
            i <= c@.len(),
            toks == key_tokens(cv.take(i as int)),
            key == pack_tokens(toks),
        decreases c@.len() - i,
    {
        if i > 0 {
            key = push_token(key, Ghost(toks), SEPARATOR);
            proof {
                toks = toks.push(SEPARATOR);
            }
        }
        let mut j: usize = 0;
        let ghost start = toks;
        while j < c[i].len()
            invariant
                cv == groups_view(c@),
                i < c@.len(),
                j <= c@[i as int]@.len(),
                toks == start + c@[i as int]@.take(j as int),
                key == pack_tokens(toks),
            decreases c@[i as int]@.len() - j,
        {
            key = push_token(key, Ghost(toks), c[i][j]);
            proof {
                toks = toks.push(c@[i as int]@[j as int]);
                assert(toks =~= start + c@[i as int]@.take(j + 1));
            }
            j = j + 1;
        }
        proof {
            assert(c@[i as int]@.take(j as int) =~= c@[i as int]@);
            assert(cv.take(i + 1).drop_last() =~= cv.take(i as int));
            if i == 0 {
                assert(toks =~= cv.take(1)[0]);
            } else {
                assert(toks =~= key_tokens(cv.take(i as int)) + seq![SEPARATOR] + cv[i as int]);
            }
        }
        i = i + 1;
    }
    proof {
        assert(cv.take(i as int) =~= cv);
    }
    key
}

/// Contexts that are suit relabelings of each other, in any order within
/// groups, get the same key.
pub proof fn lemma_key_ignores_suits_and_order(
    a: Seq<Seq<u8>>,
    b: Seq<Seq<u8>>,
    s: [u8; 4],
    ca: Seq<Seq<u8>>,
    cb: Seq<Seq<u8>>,
)
    requires
        valid_groups(a),
        is_suit_permutation(s),
        a.len() == b.len(),
        forall|i: int| 0 <= i < a.len() ==> (#[trigger] b[i]).to_multiset() == relabel_group(s, a[i]).to_multiset(),
        is_canonical(a, ca),
        is_canonical(b, cb),
    ensures
        pack_tokens(key_tokens(ca)) == pack_tokens(key_tokens(cb)),
{
    lemma_canonical_ignores_suits_and_order(a, b, s, ca, cb);
}


/// Sixty-four to the `n`.
pub open spec fn pow64(n: nat) -> nat
    decreases n,
{
    if n == 0 {
        1
    } else {
        64 * pow64((n - 1) as nat)
    }
}

proof fn lemma_pow64_monotone(m: nat, n: nat)
    requires
        m <= n,
    ensures
        pow64(m) <= pow64(n),
    decreases n,
{
    if m < n {
        lemma_pow64_monotone(m, (n - 1) as nat);
    }
}

/// Below 21 tokens nothing is shifted out: each token is one base-64 digit.
proof fn lemma_pack_digits(t: Seq<u8>)
    requires
        t.len() <= 21,
        forall|i: int| 0 <= i < t.len() ==> #[trigger] t[i] < 64,
    ensures
        pack_tokens(t) < pow64(t.len()),
        t.len() > 0 ==> pack_tokens(t) == pack_tokens(t.drop_last()) * 64 + t.last(),
    decreases t.len(),
{
    if t.len() > 0 {
        let prefix = t.drop_last();
        lemma_pack_digits(prefix);
        let k = pack_tokens(prefix);
        let x = t.last() as u128;
        lemma_pow64_monotone(prefix.len(), 20);
        assert(pow64(20) == 0x1000000000000000000000000000000nat) by {
            reveal_with_fuel(pow64, 21);
        }
        assert((k << 6u128) | x == k * 64 + x) by (bit_vector)
            requires
                k < 0x1000000000000000000000000000000u128,
                x < 64,
        ;
    }
}

proof fn lemma_pack_tokens_injective(t1: Seq<u8>, t2: Seq<u8>)
    requires
        t1.len() == t2.len(),
        t1.len() <= 21,
        forall|i: int| 0 <= i < t1.len() ==> #[trigger] t1[i] < 64,
        forall|i: int| 0 <= i < t2.len() ==> #[trigger] t2[i] < 64,
        pack_tokens(t1) == pack_tokens(t2),
    ensures
        t1 == t2,
    decreases t1.len(),
{
    if t1.len() == 0 {
        assert(t1 =~= t2);
    } else {
        lemma_pack_digits(t1);
        lemma_pack_digits(t2);
        lemma_pack_tokens_injective(t1.drop_last(), t2.drop_last());
        assert(t1 =~= t1.drop_last().push(t1.last()));
        assert(t2 =~= t2.drop_last().push(t2.last()));
    }
}

/// The contexts have the same number of groups, group by group of the same
/// size.
pub open spec fn same_shape(a: Seq<Seq<u8>>, b: Seq<Seq<u8>>) -> bool {
    a.len() == b.len() && forall|i: int| 0 <= i < a.len() ==> (#[trigger] a[i]).len() == b[i].len()
}

proof fn lemma_key_tokens_shape(c1: Seq<Seq<u8>>, c2: Seq<Seq<u8>>)
    requires
        same_shape(c1, c2),
    ensures
        key_tokens(c1).len() == key_tokens(c2).len(),
        key_tokens(c1) == key_tokens(c2) ==> c1 == c2,
    decreases c1.len(),
{
    if c1.len() == 0 {
        assert(c1 =~= c2);
    } else if c1.len() == 1 {
        assert(c1 =~= seq![c1[0]]);
        assert(c2 =~= seq![c2[0]]);
    } else {
        let p1 = c1.drop_last();
        let p2 = c2.drop_last();
        lemma_key_tokens_shape(p1, p2);
        let n = key_tokens(p1).len() as int;
        if key_tokens(c1) == key_tokens(c2) {
            assert(key_tokens(p1) =~= key_tokens(c1).take(n));
            assert(key_tokens(p2) =~= key_tokens(c2).take(n));
            assert(c1.last() =~= key_tokens(c1).skip(n + 1));
            assert(c2.last() =~= key_tokens(c2).skip(n + 1));
            assert(c1 =~= p1.push(c1.last()));
            assert(c2 =~= p2.push(c2.last()));
        }
    }
}

proof fn lemma_key_tokens_small(c: Seq<Seq<u8>>)
    requires
        valid_groups(c),
    ensures
        forall|i: int| 0 <= i < key_tokens(c).len() ==> #[trigger] key_tokens(c)[i] < 64,
    decreases c.len(),
{
    if c.len() > 1 {
        lemma_key_tokens_small(c.drop_last());
        let n = key_tokens(c.drop_last()).len() as int;
        assert forall|i: int| 0 <= i < key_tokens(c).len() implies #[trigger] key_tokens(c)[i] < 64 by {
            if i < n {
                assert(key_tokens(c)[i] == key_tokens(c.drop_last())[i]);
            } else if i > n {
                assert(key_tokens(c)[i] == c.last()[i - n - 1]);
                assert(c[c.len() - 1][i - n - 1] < 52);
            }
        }
    } else if c.len() == 1 {
        assert forall|i: int| 0 <= i < key_tokens(c).len() implies #[trigger] key_tokens(c)[i] < 64 by {
            assert(c[0][i] < 52);
        }
    }
}

/// The canonical form of a valid context holds valid cards, group by group
/// as many as the context.
proof fn lemma_canonical_shape(groups: Seq<Seq<u8>>, c: Seq<Seq<u8>>)
    requires
        valid_groups(groups),
        is_canonical(groups, c),
    ensures
        same_shape(groups, c),
        valid_groups(c),
{
    let p = choose|p: [u8; 4]| is_suit_permutation(p) && c == #[trigger] relabeled(groups, p);
    assert forall|i: int| 0 <= i < groups.len() implies (#[trigger] groups[i]).len() == c[i].len() by {
        lemma_sort_len(relabel_group(p, groups[i]));
    }
    assert forall|i: int, j: int| 0 <= i < c.len() && 0 <= j < c[i].len() implies #[trigger] c[i][j] < 52 by {
        let x = relabel_group(p, groups[i]);
        lemma_ascending_total();
        x.lemma_sort_by_ensures(ascending());
        lemma_sort_len(x);
        assert(c[i].contains(c[i][j]));
        assert(x.contains(c[i][j]));
        let k = choose|k: int| 0 <= k < x.len() && x[k] == c[i][j];
        lemma_relabel_compose(p, p, groups[i][k]);
    }
}

/// For contexts of one shape whose key holds at most 21 tokens (18 cards
/// with their separators), keys are equal exactly when the contexts are
/// suit relabelings of each other: the key is a lossless lookup address for
/// the isomorphism class.
pub proof fn lemma_key_decides_isomorphism(
    a: Seq<Seq<u8>>,
    b: Seq<Seq<u8>>,
    ca: Seq<Seq<u8>>,
    cb: Seq<Seq<u8>>,
)
    requires
        valid_groups(a),
        valid_groups(b),
        same_shape(a, b),
        is_canonical(a, ca),
        is_canonical(b, cb),
        key_tokens(ca).len() <= 21,
    ensures
        pack_tokens(key_tokens(ca)) == pack_tokens(key_tokens(cb)) <==> suit_isomorphic(a, b),
{
    lemma_canonical_decides_isomorphism(a, b, ca, cb);
    lemma_canonical_shape(a, ca);
    lemma_canonical_shape(b, cb);
    assert(same_shape(ca, cb)) by {
        assert forall|i: int| 0 <= i < ca.len() implies (#[trigger] ca[i]).len() == cb[i].len() by {
            assert(a[i].len() == ca[i].len());
            assert(b[i].len() == cb[i].len());
        }
    }
    lemma_key_tokens_shape(ca, cb);
    if pack_tokens(key_tokens(ca)) == pack_tokens(key_tokens(cb)) {
        lemma_key_tokens_small(ca);
        lemma_key_tokens_small(cb);
        lemma_pack_tokens_injective(key_tokens(ca), key_tokens(cb));
    }
}

} // verus!
