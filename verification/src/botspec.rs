//! Operator plumbing shared by the `--bot` vocabularies: the optional
//! `NAME@` prefix of a spec, number parsing, and naming a whole field of
//! bots without collisions.
use vstd::prelude::*;
use crate::text::{decimal, push_char, push_decimal, push_str};

verus! {

/// What std's `Debug` formatting writes for a string: the string quoted,
/// with quotes, backslashes and unprintable characters escaped.
pub uninterp spec fn debug_text(s: Seq<char>) -> Seq<char>;

/// std's `Debug` rendering of `s`, as `format!("{s:?}")` writes it.
#[verifier::external_body]
fn debug_string(s: &str) -> (r: String)
    ensures
        r@ == debug_text(s@),
{
    format!("{s:?}")
}

/// Appends std's `Debug` rendering of `s` to `out`.
pub(crate) fn push_debug(out: &mut String, s: &str)
    ensures
        final(out)@ == old(out)@ + debug_text(s@),
{
    let d = debug_string(s);
    push_str(out, d.as_str());
}

/// `c` is a control character: general category Cc, which is exactly
/// U+0000..=U+001F and U+007F..=U+009F.
pub open spec fn is_control(c: char) -> bool {
    (c as u32) <= 0x1f || (0x7f <= (c as u32) && (c as u32) <= 0x9f)
}

fn char_is_control(c: char) -> (r: bool)
    ensures
        r == is_control(c),
{
    let v = c as u32;
    v <= 0x1f || (0x7f <= v && v <= 0x9f)
}

/// `i` is where `c` first occurs in `s`.
pub open spec fn first_index_of(s: Seq<char>, c: char, i: int) -> bool {
    &&& 0 <= i < s.len()
    &&& s[i] == c
    &&& forall|j: int| 0 <= j < i ==> s[j] != c
}

/// The name prefix of a `--bot` spec and the spec after it: the text before
/// the first `@`, when there is one, that is non-empty and holds no `:` (a
/// `:` there means the `@` belongs to the spec itself, such as a command).
pub open spec fn named_prefix(s: Seq<char>) -> Option<(Seq<char>, Seq<char>)> {
    if exists|i: int| first_index_of(s, '@', i) {
        let i = choose|i: int| first_index_of(s, '@', i);
        let n = s.take(i);
        if n.len() > 0 && !n.contains(':') {
            Some((n, s.skip(i + 1)))
        } else {
            None
        }
    } else {
        None
    }
}

/// A bot name is 1..=32 characters with no control character.
pub open spec fn valid_bot_name(n: Seq<char>) -> bool {
    n.len() <= 32 && forall|i: int| 0 <= i < n.len() ==> !is_control(#[trigger] n[i])
}

/// The message for a rejected bot name.
pub open spec fn invalid_name_message(n: Seq<char>) -> Seq<char> {
    "invalid bot name "@ + debug_text(n) + ": 1..=32 characters, no control characters"@
}

proof fn lemma_first_index_unique(s: Seq<char>, c: char, i: int, j: int)
    requires
        first_index_of(s, c, i),
        first_index_of(s, c, j),
    ensures
        i == j,
{
    if i < j {
        assert(s[i] != c);
    } else if j < i {
        assert(s[j] != c);
    }
}

/// Where `c` first occurs in `s`, if anywhere.
fn find_char(s: &str, c: char) -> (r: Option<usize>)
    ensures
        match r {
            Some(i) => first_index_of(s@, c, i as int),
            None => forall|j: int| 0 <= j < s@.len() ==> s@[j] != c,
        },
{
    let n = s.unicode_len();
    let mut i: usize = 0;
    while i < n
        invariant
            i <= n,
            n == s@.len(),
            forall|j: int| 0 <= j < i ==> s@[j] != c,
        decreases n - i,
    {
        if s.get_char(i) == c {
            return Some(i);
        }
        i = i + 1;
    }
    None
}

/// Splits an optional `NAME@` prefix off a `--bot` spec and validates the
/// name, returning it (if any) and the rest of the spec for a vocabulary's
/// own parser. A name over 32 characters or holding a control character is
/// refused.
pub fn split_named_spec<'a>(spec: &'a str) -> (r: Result<(Option<String>, &'a str), String>)
    ensures
        match named_prefix(spec@) {
            None => r matches Ok((None, rest)) && rest@ == spec@,
            Some((n, rest)) => if valid_bot_name(n) {
                r matches Ok((Some(name), tail)) && name@ == n && tail@ == rest
            } else {
                r matches Err(m) && m@ == invalid_name_message(n)
            },
        },
{
    let len = spec.unicode_len();
    match find_char(spec, '@') {
        None => {
            proof {
                if exists|i: int| first_index_of(spec@, '@', i) {
                    let i = choose|i: int| first_index_of(spec@, '@', i);
                    assert(spec@[i] == '@');
                }
            }
            Ok((None, spec))
        },
        Some(at) => {
            proof {
                let i = choose|i: int| first_index_of(spec@, '@', i);
                lemma_first_index_unique(spec@, '@', i, at as int);
            }
            let name = spec.substring_char(0, at);
            let rest = spec.substring_char(at + 1, len);
            proof {
                assert(name@ =~= spec@.take(at as int));
                assert(rest@ =~= spec@.skip(at as int + 1));
            }
            if at == 0 || find_char(name, ':').is_some() {
                proof {
                    if at > 0 {
                        let k = choose|k: int| first_index_of(name@, ':', k);
                        assert(name@[k] == ':');
                        assert(name@.contains(':'));
                    }
                }
                return Ok((None, spec));
            }
            proof {
                assert(!name@.contains(':'));
            }
            if at > 32 {
                let mut m = String::new();
                push_str(&mut m, "invalid bot name ");
                push_debug(&mut m, name);
                push_str(&mut m, ": 1..=32 characters, no control characters");
                proof {
                    assert(m@ =~= invalid_name_message(name@));
                }
                return Err(m);
            }
            proof {
                assert(named_prefix(spec@) == Some((name@, rest@)));
            }
            let mut k: usize = 0;
            while k < at
                invariant
                    k <= at,
                    named_prefix(spec@) == Some((name@, rest@)),
                    at == name@.len(),
                    forall|j: int| 0 <= j < k ==> !is_control(#[trigger] name@[j]),
                decreases at - k,
            {
                if char_is_control(name.get_char(k)) {
                    let mut m = String::new();
                    push_str(&mut m, "invalid bot name ");
                    push_debug(&mut m, name);
                    push_str(&mut m, ": 1..=32 characters, no control characters");
                    proof {
                        assert(m@ =~= invalid_name_message(name@));
                        assert(is_control(name@[k as int]));
                        assert(!valid_bot_name(name@));
                    }
                    return Err(m);
                }
                k = k + 1;
            }
            Ok((Some(name.to_owned()), rest))
        },
    }
}


/// The text of each string.
pub open spec fn views(s: Seq<String>) -> Seq<Seq<char>> {
    s.map_values(|x: String| x@)
}

/// `base` suffixed `-k`.
pub open spec fn suffixed(base: Seq<char>, k: nat) -> Seq<char> {
    base + seq!['-'] + decimal(k)
}

/// How many times `x` occurs in `s`.
pub open spec fn count_of(s: Seq<Seq<char>>, x: Seq<char>) -> nat
    decreases s.len(),
{
    if s.len() == 0 {
        0
    } else {
        count_of(s.drop_last(), x) + if s.last() == x {
            1nat
        } else {
            0
        }
    }
}

/// Which use of its base name entry `i` is: 1 for the first, 2 for the
/// second, and so on.
pub open spec fn occurrence(bases: Seq<Seq<char>>, i: int) -> nat {
    count_of(bases.take(i + 1), bases[i])
}

/// The names taken when entry `i` is named: every base name given, and
/// every name handed out before it.
pub open spec fn taken_before(bases: Seq<Seq<char>>, out: Seq<Seq<char>>, i: int, s: Seq<char>) -> bool {
    bases.contains(s) || out.take(i).contains(s)
}

/// Entry `i` of `out` names entry `i` of `bases`: the first use of a base
/// name keeps it; a later use gets the base suffixed `-k`, for the least
/// `k`, from the use's number on, whose name is not taken.
pub open spec fn named_at(bases: Seq<Seq<char>>, out: Seq<Seq<char>>, i: int) -> bool {
    if !bases.take(i).contains(bases[i]) {
        out[i] == bases[i]
    } else {
        exists|k: nat|
            k >= occurrence(bases, i) && out[i] == #[trigger] suffixed(bases[i], k) && !taken_before(
                bases,
                out,
                i,
                out[i],
            ) && forall|j: nat| occurrence(bases, i) <= j < k ==> taken_before(bases, out, i, #[trigger] suffixed(bases[i], j))
    }
}

proof fn lemma_suffixed_injective(base: Seq<char>, j: nat, k: nat)
    requires
        suffixed(base, j) == suffixed(base, k),
    ensures
        j == k,
{
    let l = base.len() as int + 1;
    assert(decimal(j) =~= suffixed(base, j).skip(l));
    assert(decimal(k) =~= suffixed(base, k).skip(l));
    crate::text::lemma_decimal_injective(j, k);
}

proof fn lemma_count_of_push(s: Seq<Seq<char>>, y: Seq<char>, x: Seq<char>)
    ensures
        count_of(s.push(y), x) == count_of(s, x) + if y == x {
            1nat
        } else {
            0
        },
{
    assert(s.push(y).drop_last() =~= s);
}

proof fn lemma_count_of_le(s: Seq<Seq<char>>, x: Seq<char>)
    ensures
        count_of(s, x) <= s.len(),
    decreases s.len(),
{
    if s.len() > 0 {
        lemma_count_of_le(s.drop_last(), x);
    }
}

proof fn lemma_views_push(s: Seq<String>, x: String)
    ensures
        views(s.push(x)) == views(s).push(x@),
{
    assert(views(s.push(x)) =~= views(s).push(x@));
}

proof fn lemma_push_contains(s: Seq<Seq<char>>, x: Seq<char>, y: Seq<char>)
    ensures
        s.push(x).contains(y) <==> (s.contains(y) || y == x),
{
    if s.push(x).contains(y) && y != x {
        let q = choose|q: int| 0 <= q < s.push(x).len() && s.push(x)[q] == y;
        assert(s[q] == y);
    }
    if s.contains(y) {
        let q = choose|q: int| 0 <= q < s.len() && s[q] == y;
        assert(s.push(x)[q] == y);
    }
    if y == x {
        assert(s.push(x)[s.len() as int] == y);
    }
}

proof fn lemma_count_positive(s: Seq<Seq<char>>, q: int, x: Seq<char>)
    requires
        0 <= q < s.len(),
        s[q] == x,
    ensures
        count_of(s, x) >= 1,
    decreases s.len(),
{
    if q < s.len() - 1 {
        assert(s.drop_last()[q] == x);
        lemma_count_positive(s.drop_last(), q, x);
    }
}

proof fn lemma_count_zero(s: Seq<Seq<char>>, x: Seq<char>)
    requires
        !s.contains(x),
    ensures
        count_of(s, x) == 0,
    decreases s.len(),
{
    if s.len() > 0 {
        assert forall|q: int| 0 <= q < s.drop_last().len() implies s.drop_last()[q] != x by {
            assert(s[q] == s.drop_last()[q]);
        }
        lemma_count_zero(s.drop_last(), x);
        assert(s[s.len() - 1] == s.last());
    }
}

/// Extending the list of names handed out keeps every earlier entry named
/// as it was.
proof fn lemma_named_at_stable(bases: Seq<Seq<char>>, out: Seq<Seq<char>>, x: Seq<char>, p: int)
    requires
        0 <= p < out.len(),
        named_at(bases, out, p),
    ensures
        named_at(bases, out.push(x), p),
{
    let o2 = out.push(x);
    assert(o2.take(p) =~= out.take(p));
    assert(o2[p] == out[p]);
    if bases.take(p).contains(bases[p]) {
        let k = choose|k: nat|
            k >= occurrence(bases, p) && out[p] == #[trigger] suffixed(bases[p], k) && !taken_before(
                bases,
                out,
                p,
                out[p],
            ) && forall|j: nat| occurrence(bases, p) <= j < k ==> taken_before(bases, out, p, #[trigger] suffixed(bases[p], j));
        assert(o2[p] == suffixed(bases[p], k));
    }
}

/// The names handed out to a field of bots are pairwise distinct, whatever
/// names were asked for.
pub proof fn lemma_disambiguated_names_distinct(bases: Seq<Seq<char>>, out: Seq<Seq<char>>)
    requires
        out.len() == bases.len(),
        forall|i: int| 0 <= i < bases.len() ==> #[trigger] named_at(bases, out, i),
    ensures
        forall|i: int, j: int| 0 <= i < j < out.len() ==> out[i] != out[j],
{
    assert forall|i: int, j: int| 0 <= i < j < out.len() implies out[i] != out[j] by {
        assert(named_at(bases, out, i));
        assert(named_at(bases, out, j));
        assert(out.take(j)[i] == out[i]);
        assert(out.take(j).contains(out[i]));
        if !bases.take(j).contains(bases[j]) {
            if !bases.take(i).contains(bases[i]) {
                assert(bases.take(j)[i] == bases[i]);
            } else {
                assert(bases.contains(bases[j]));
            }
        }
    }
}

/// Appends `base`, a dash and the decimal `k` to a fresh string.
fn suffixed_name(base: &String, k: u64) -> (r: String)
    ensures
        r@ == suffixed(base@, k as nat),
{
    let mut s = String::new();
    push_str(&mut s, base.as_str());
    push_char(&mut s, '-');
    push_decimal(&mut s, k);
    proof {
        assert(s@ =~= suffixed(base@, k as nat));
    }
    s
}

fn holds_name(names: &Vec<String>, x: &String) -> (r: bool)
    ensures
        r == views(names@).contains(x@),
{
    let mut t: usize = 0;
    while t < names.len()
        invariant
            t <= names@.len(),
            forall|q: int| 0 <= q < t ==> names@[q]@ != x@,
        decreases names@.len() - t,
    {
        if names[t] == *x {
            proof {
                assert(views(names@)[t as int] == x@);
            }
            return true;
        }
        t = t + 1;
    }
    proof {
        if views(names@).contains(x@) {
            let q = choose|q: int| 0 <= q < views(names@).len() && views(names@)[q] == x@;
            assert(names@[q]@ == x@);
        }
    }
    false
}

/// The names in the suffix family of `base` from `k` on that `taken` holds.
spec fn family_from(taken: Set<Seq<char>>, base: Seq<char>, k: nat) -> Set<Seq<char>> {
    taken.filter(|s: Seq<char>| exists|j: nat| j >= k && s == #[trigger] suffixed(base, j))
}

proof fn lemma_family_bounded(taken: Set<Seq<char>>, base: Seq<char>, k: nat)
    requires
        taken.finite(),
    ensures
        family_from(taken, base, k).finite(),
        family_from(taken, base, k).len() <= taken.len(),
{
    taken.lemma_len_filter(|s: Seq<char>| exists|j: nat| j >= k && s == #[trigger] suffixed(base, j));
}

proof fn lemma_family_shrinks(taken: Set<Seq<char>>, base: Seq<char>, k: nat)
    requires
        taken.finite(),
        taken.contains(suffixed(base, k)),
    ensures
        family_from(taken, base, k).finite(),
        family_from(taken, base, k + 1).finite(),
        family_from(taken, base, k + 1).len() < family_from(taken, base, k).len(),
        family_from(taken, base, k).len() <= taken.len(),
{
    let big = family_from(taken, base, k);
    let small = family_from(taken, base, k + 1);
    taken.lemma_len_filter(|s: Seq<char>| exists|j: nat| j >= k && s == #[trigger] suffixed(base, j));
    assert(big.contains(suffixed(base, k)));
    assert forall|s: Seq<char>| small.contains(s) implies big.remove(suffixed(base, k)).contains(s) by {
        let j = choose|j: nat| j >= k + 1 && s == #[trigger] suffixed(base, j);
        if s == suffixed(base, k) {
            lemma_suffixed_injective(base, j, k);
        }
    }
    vstd::set_lib::lemma_len_subset(small, big.remove(suffixed(base, k)));
}

/// Names in `--bot` order, with the second and later use of a base name
/// suffixed `-2`, `-3`, ...: each later use takes the least suffix, from
/// its use's number on, that no given name and no earlier handed-out name
/// holds. The names handed out are pairwise distinct.
pub fn disambiguate(base_names: &[String]) -> (r: Vec<String>)
    requires
        base_names@.len() <= u32::MAX,
    ensures
        r@.len() == base_names@.len(),
        forall|i: int| 0 <= i < base_names@.len() ==> #[trigger] named_at(views(base_names@), views(r@), i),
        forall|i: int, j: int| 0 <= i < j < r@.len() ==> r@[i]@ != r@[j]@,
{
    let ghost b = views(base_names@);
    let n = base_names.len();
    let mut taken: Vec<String> = Vec::new();
    let mut t: usize = 0;
    while t < n
        invariant
            t <= n,
            n == base_names@.len(),
            b == views(base_names@),
            views(taken@) == b.take(t as int),
        decreases n - t,
    {
        let ghost before = taken@;
        taken.push(base_names[t].clone());
        proof {
            lemma_views_push(before, base_names@[t as int]);
            assert(views(taken@) =~= b.take(t as int + 1));
        }
        t = t + 1;
    }
    proof {
        assert(b.take(n as int) =~= b);
    }
    let mut out: Vec<String> = Vec::new();
    let mut i: usize = 0;
    while i < n
        invariant
            i <= n,
            n == base_names@.len(),
            n <= u32::MAX,
            b == views(base_names@),
            out@.len() == i,
            taken@.len() <= n + i,
            forall|p: int| 0 <= p < i ==> #[trigger] named_at(b, views(out@), p),
            forall|s: Seq<char>| views(taken@).contains(s) <==> taken_before(b, views(out@), i as int, s),
        decreases n - i,
    {
        let base = &base_names[i];
        let mut occ: u64 = 0;
        let mut j: usize = 0;
        while j <= i
            invariant
                j <= i + 1,
                i < n,
                n == base_names@.len(),
                n <= u32::MAX,
                b == views(base_names@),
                *base == base_names@[i as int],
                occ == count_of(b.take(j as int), b[i as int]),
                occ <= j,
            decreases i + 1 - j,
        {
            proof {
                assert(b.take(j as int + 1) =~= b.take(j as int).push(b[j as int]));
                lemma_count_of_push(b.take(j as int), b[j as int], b[i as int]);
            }
            if base_names[j] == *base {
                occ = occ + 1;
            }
            j = j + 1;
        }
        let ghost ov = views(out@);
        let ghost tv = views(taken@);
        proof {
            assert(b[i as int] == base@);
            assert(occ == occurrence(b, i as int));
            assert(b.take(i as int + 1) =~= b.take(i as int).push(b[i as int]));
            lemma_count_of_push(b.take(i as int), b[i as int], b[i as int]);
            lemma_count_of_le(b.take(i as int + 1), b[i as int]);
            assert(ov.take(i as int) =~= ov);
        }
        let name: String;
        if occ == 1 {
            proof {
                if b.take(i as int).contains(b[i as int]) {
                    let q = choose|q: int| 0 <= q < b.take(i as int).len() && b.take(i as int)[q] == b[i as int];
                    lemma_count_positive(b.take(i as int), q, b[i as int]);
                }
                assert(b.contains(b[i as int])) by {
                    assert(b[i as int] == b[i as int]);
                }
            }
            name = base.clone();
        } else {
            proof {
                if !b.take(i as int).contains(b[i as int]) {
                    lemma_count_zero(b.take(i as int), b[i as int]);
                }
            }
            let ghost tset = views(taken@).to_set();
            proof {
                vstd::seq_lib::seq_to_set_is_finite(views(taken@));
                views(taken@).lemma_cardinality_of_set();
                lemma_family_bounded(tset, b[i as int], occ as nat);
            }
            let mut k: u64 = occ;
            let mut chosen: Option<String> = None;
            while chosen.is_none()
                invariant_except_break
                    chosen is None,
                invariant
                    i < n,
                    n <= u32::MAX,
                    b == views(base_names@),
                    *base == base_names@[i as int],
                    occ == occurrence(b, i as int),
                    2 <= occ <= n,
                    b[i as int] == base@,
                    k >= occ,
                    tset == views(taken@).to_set(),
                    tset.finite(),
                    tset.len() <= 2 * n,
                    ov == views(out@),
                    forall|s: Seq<char>| views(taken@).contains(s) <==> taken_before(b, ov, i as int, s),
                    family_from(tset, b[i as int], k as nat).finite(),
                    k + family_from(tset, b[i as int], k as nat).len() <= occ + tset.len(),
                    forall|q: nat| occ <= q < k ==> taken_before(b, ov, i as int, #[trigger] suffixed(b[i as int], q)),
                ensures
                    chosen matches Some(c) && c@ == suffixed(b[i as int], k as nat) && !taken_before(b, ov, i as int, c@),
                    k >= occ,
                    forall|q: nat| occ <= q < k ==> taken_before(b, ov, i as int, #[trigger] suffixed(b[i as int], q)),
                decreases family_from(tset, b[i as int], k as nat).len(),
            {
                let cand = suffixed_name(base, k);
                if !holds_name(&taken, &cand) {
                    proof {
                        assert(!taken_before(b, ov, i as int, cand@));
                    }
                    chosen = Some(cand);
                    break;
                }
                proof {
                    assert(views(taken@).contains(cand@));
                    assert(tset.contains(cand@));
                    lemma_family_shrinks(tset, b[i as int], k as nat);
                    assert(taken_before(b, ov, i as int, suffixed(b[i as int], k as nat)));
                }
                k = k + 1;
            }
            name = chosen.unwrap();
            proof {
                assert(name@ == suffixed(b[i as int], k as nat));
                assert(named_at(b, ov.push(name@), i as int)) by {
                    let o2 = ov.push(name@);
                    assert(o2.take(i as int) =~= ov.take(i as int));
                    assert(o2[i as int] == suffixed(b[i as int], k as nat));
                }
            }
            let ghost before = taken@;
            taken.push(name.clone());
            proof {
                lemma_views_push(before, name);
            }
        }
        let ghost x = name@;
        out.push(name);
        proof {
            assert(views(out@) =~= ov.push(x));
            assert(views(out@).take(i as int + 1) =~= ov.push(x));
            if occ == 1 {
                assert(named_at(b, ov.push(x), i as int)) by {
                    assert(ov.push(x).take(i as int) =~= ov.take(i as int));
                }
            }
            assert forall|p: int| 0 <= p < i + 1 implies #[trigger] named_at(b, views(out@), p) by {
                if p < i {
                    lemma_named_at_stable(b, ov, x, p);
                }
            }
            assert forall|s: Seq<char>| views(taken@).contains(s) <==> taken_before(b, views(out@), i as int + 1, s) by {
                lemma_push_contains(ov, x, s);
                lemma_push_contains(tv, x, s);
                assert(tv.contains(s) <==> taken_before(b, ov, i as int, s));
            }
        }
        i = i + 1;
    }
    proof {
        lemma_disambiguated_names_distinct(b, views(out@));
        assert forall|p: int, q: int| 0 <= p < q < out@.len() implies out@[p]@ != out@[q]@ by {
            assert(views(out@)[p] == out@[p]@);
            assert(views(out@)[q] == out@[q]@);
        }
    }
    out
}


/// `s` begins with `p`.
pub open spec fn has_prefix(s: Seq<char>, p: Seq<char>) -> bool {
    p.len() <= s.len() && s.take(p.len() as int) == p
}

/// Whether `s` begins with `p`.
pub fn starts_with(s: &str, p: &str) -> (r: bool)
    ensures
        r == has_prefix(s@, p@),
{
    let n = s.unicode_len();
    let m = p.unicode_len();
    if m > n {
        return false;
    }
    let mut i: usize = 0;
    while i < m
        invariant
            i <= m,
            m <= n,
            n == s@.len(),
            m == p@.len(),
            forall|j: int| 0 <= j < i ==> s@[j] == p@[j],
        decreases m - i,
    {
        if s.get_char(i) != p.get_char(i) {
            proof {
                assert(s@.take(m as int)[i as int] != p@[i as int]);
            }
            return false;
        }
        i = i + 1;
    }
    proof {
        assert(s@.take(m as int) =~= p@);
    }
    true
}

/// `s` from character `from` on.
pub fn tail_from<'a>(s: &'a str, from: usize) -> (r: &'a str)
    requires
        from <= s@.len(),
    ensures
        r@ == s@.skip(from as int),
{
    let n = s.unicode_len();
    let r = s.substring_char(from, n);
    proof {
        assert(r@ =~= s@.skip(from as int));
    }
    r
}

/// The text before the first `c` of `s` and, when `c` occurs, the text
/// after it (`splitn(2, c)`).
pub open spec fn split_first(s: Seq<char>, c: char) -> (Seq<char>, Option<Seq<char>>) {
    if exists|i: int| first_index_of(s, c, i) {
        let i = choose|i: int| first_index_of(s, c, i);
        (s.take(i), Some(s.skip(i + 1)))
    } else {
        (s, None)
    }
}

/// Splits `s` at its first `c`.
pub fn split_once_char<'a>(s: &'a str, c: char) -> (r: (&'a str, Option<&'a str>))
    ensures
        r.0@ == split_first(s@, c).0,
        match (r.1, split_first(s@, c).1) {
            (Some(a), Some(b)) => a@ == b,
            (None, None) => true,
            _ => false,
        },
{
    match find_char(s, c) {
        None => {
            proof {
                if exists|i: int| first_index_of(s@, c, i) {
                    let i = choose|i: int| first_index_of(s@, c, i);
                    assert(s@[i] == c);
                }
            }
            (s, None)
        },
        Some(i) => {
            proof {
                let j = choose|j: int| first_index_of(s@, c, j);
                lemma_first_index_unique(s@, c, i as int, j);
            }
            let n = s.unicode_len();
            let head = s.substring_char(0, i);
            let tail = s.substring_char(i + 1, n);
            proof {
                assert(head@ =~= s@.take(i as int));
                assert(tail@ =~= s@.skip(i as int + 1));
            }
            (head, Some(tail))
        },
    }
}

/// Unicode `White_Space`, the characters std's `trim` removes.
pub open spec fn is_white_space(c: char) -> bool {
    let v = c as u32;
    ||| (0x09 <= v && v <= 0x0d)
    ||| v == 0x20
    ||| v == 0x85
    ||| v == 0xa0
    ||| v == 0x1680
    ||| (0x2000 <= v && v <= 0x200a)
    ||| v == 0x2028
    ||| v == 0x2029
    ||| v == 0x202f
    ||| v == 0x205f
    ||| v == 0x3000
}

/// `s` is empty once trimmed: it holds white space only.
pub open spec fn blank(s: Seq<char>) -> bool {
    forall|i: int| 0 <= i < s.len() ==> is_white_space(#[trigger] s[i])
}

/// Whether `s` holds white space only.
pub fn is_blank(s: &str) -> (r: bool)
    ensures
        r == blank(s@),
{
    let n = s.unicode_len();
    let mut i: usize = 0;
    while i < n
        invariant
            i <= n,
            n == s@.len(),
            forall|j: int| 0 <= j < i ==> is_white_space(#[trigger] s@[j]),
        decreases n - i,
    {
        let v = s.get_char(i) as u32;
        let white = (0x09 <= v && v <= 0x0d) || v == 0x20 || v == 0x85 || v == 0xa0 || v == 0x1680 || (
        0x2000 <= v && v <= 0x200a) || v == 0x2028 || v == 0x2029 || v == 0x202f || v == 0x205f || v
            == 0x3000;
        if !white {
            proof {
                assert(!is_white_space(s@[i as int]));
            }
            return false;
        }
        i = i + 1;
    }
    true
}

/// The number a string of decimal digits spells.
pub open spec fn digits_value(s: Seq<char>) -> nat
    decreases s.len(),
{
    if s.len() == 0 {
        0
    } else {
        digits_value(s.drop_last()) * 10 + ((s.last() as nat) - 48) as nat
    }
}

/// `s` holds ASCII digits only.
pub open spec fn all_digits(s: Seq<char>) -> bool {
    forall|i: int| 0 <= i < s.len() ==> crate::text::is_digit(#[trigger] s[i])
}

/// What std's unsigned integer parsing accepts and gives: an optional `+`
/// followed by at least one ASCII digit, with a value of at most `max`.
pub open spec fn parse_unsigned(s: Seq<char>, max: nat) -> Option<nat> {
    let d = if s.len() > 0 && s[0] == '+' {
        s.skip(1)
    } else {
        s
    };
    if d.len() > 0 && all_digits(d) && digits_value(d) <= max {
        Some(digits_value(d))
    } else {
        None
    }
}

proof fn lemma_digits_value_prefix(s: Seq<char>, j: int)
    requires
        0 <= j <= s.len(),
        all_digits(s),
    ensures
        digits_value(s.take(j)) <= digits_value(s),
    decreases s.len() - j,
{
    if j < s.len() {
        assert(s.take(j + 1).drop_last() =~= s.take(j));
        assert(crate::text::is_digit(s[j]));
        assert(digits_value(s.take(j + 1)) >= digits_value(s.take(j))) by (nonlinear_arith)
            requires
                digits_value(s.take(j + 1)) == digits_value(s.take(j)) * 10 + ((s.take(j + 1).last() as nat) - 48) as nat,
        ;
        lemma_digits_value_prefix(s, j + 1);
    } else {
        assert(s.take(j) =~= s);
    }
}

/// Parses `s` as an unsigned number no greater than `max`, as std's
/// integer parsing does for a type whose largest value is `max`.
pub fn parse_unsigned_text(s: &str, max: u64) -> (r: Option<u64>)
    ensures
        match (r, parse_unsigned(s@, max as nat)) {
            (Some(v), Some(w)) => v == w,
            (None, None) => true,
            _ => false,
        },
{
    let n = s.unicode_len();
    let start: usize = if n > 0 && s.get_char(0) == '+' {
        1
    } else {
        0
    };
    let ghost d = if s@.len() > 0 && s@[0] == '+' {
        s@.skip(1)
    } else {
        s@
    };
    proof {
        assert(d =~= s@.skip(start as int));
    }
    if start == n {
        return None;
    }
    proof {
        assert(parse_unsigned(s@, max as nat) == (if d.len() > 0 && all_digits(d) && digits_value(d) <= max {
            Some(digits_value(d))
        } else {
            None
        }));
    }
    let mut value: u64 = 0;
    let mut i: usize = start;
    while i < n
        invariant
            start <= i <= n,
            n == s@.len(),
            d == s@.skip(start as int),
            d.len() > 0,
            parse_unsigned(s@, max as nat) == (if d.len() > 0 && all_digits(d) && digits_value(d) <= max {
                Some(digits_value(d))
            } else {
                None
            }),
            all_digits(d.take(i - start)),
            value == digits_value(d.take(i - start)),
            value <= max,
        decreases n - i,
    {
        let c = s.get_char(i);
        proof {
            assert(d[i - start] == c);
        }
        if c < '0' || c > '9' {
            proof {
                assert(!crate::text::is_digit(d[i - start]));
                assert(!all_digits(d));
            }
            return None;
        }
        let digit = (c as u32 - 48) as u64;
        proof {
            assert(d.take(i - start + 1).drop_last() =~= d.take(i - start));
            assert(d.take(i - start + 1).last() == c);
        }
        if digit > max || value > (max - digit) / 10 {
            proof {
                assert(value * 10 + digit > max) by (nonlinear_arith)
                    requires
                        digit > max || value > (max - digit) / 10,
                        digit <= max ==> value > (max - digit) / 10,
                ;
                if all_digits(d) {
                    lemma_digits_value_prefix(d, i - start + 1);
                }
            }
            return None;
        }
        proof {
            assert(value * 10 + digit <= max) by (nonlinear_arith)
                requires
                    value <= (max - digit) / 10,
                    digit <= max,
            ;
            assert forall|j: int| 0 <= j < i - start + 1 implies crate::text::is_digit(#[trigger] d.take(i - start + 1)[j]) by {
                if j < i - start {
                    assert(d.take(i - start + 1)[j] == d.take(i - start)[j]);
                }
            }
        }
        value = value * 10 + digit;
        i = i + 1;
    }
    proof {
        assert(d.take(n - start) =~= d);
    }
    Some(value)
}


/// The splitmix64 finalizer applied to `state` advanced by the golden-ratio
/// increment.
pub open spec fn splitmix64(state: u64) -> u64 {
    let s = state.wrapping_add(0x9E37_79B9_7F4A_7C15u64);
    let z1 = (s ^ (s >> 30u64)).wrapping_mul(0xBF58_476D_1CE4_E5B9u64);
    let z2 = (z1 ^ (z1 >> 27u64)).wrapping_mul(0x94D0_49BB_1331_11EBu64);
    z2 ^ (z2 >> 31u64)
}

/// The seed a run that pinned none gets from the clock's nanoseconds and
/// the process id: the process id in the high half, stirred through
/// splitmix64.
pub open spec fn seed_from_entropy(nanos: u64, pid: u32) -> u64 {
    splitmix64(nanos ^ ((pid as u64) << 32u64))
}

/// A fresh match seed from the clock's nanoseconds and the process id.
/// Match seeding, not cryptography.
pub fn entropy_seed(nanos: u64, pid: u32) -> (r: u64)
    ensures
        r == seed_from_entropy(nanos, pid),
{
    let high: u64 = (pid as u64) << 32u64;
    let state: u64 = (nanos ^ high).wrapping_add(0x9E37_79B9_7F4A_7C15u64);
    let mut z: u64 = state;
    z = (z ^ (z >> 30u64)).wrapping_mul(0xBF58_476D_1CE4_E5B9u64);
    z = (z ^ (z >> 27u64)).wrapping_mul(0x94D0_49BB_1331_11EBu64);
    z ^ (z >> 31u64)
}

/// The line announcing the match seed: a pinned seed as is, a generated
/// one with how to reproduce the match.
pub open spec fn seed_announcement(seed: u64, pinned: bool) -> Seq<char> {
    if pinned {
        "seed: "@ + decimal(seed as nat)
    } else {
        "seed: "@ + decimal(seed as nat) + " (pass --seed "@ + decimal(seed as nat)
            + " to reproduce this match)"@
    }
}

/// The match seed, the one `--seed` pinned or else a fresh one from the
/// clock's nanoseconds and the process id, with the line that announces it.
pub fn resolve_seed(pinned: Option<u64>, nanos: u64, pid: u32) -> (r: (u64, String))
    ensures
        r.0 == (match pinned {
            Some(seed) => seed,
            None => seed_from_entropy(nanos, pid),
        }),
        r.1@ == seed_announcement(r.0, pinned is Some),
{
    let mut line = String::new();
    push_str(&mut line, "seed: ");
    match pinned {
        Some(seed) => {
            push_decimal(&mut line, seed);
            proof {
                assert(line@ =~= seed_announcement(seed, true));
            }
            (seed, line)
        },
        None => {
            let seed = entropy_seed(nanos, pid);
            push_decimal(&mut line, seed);
            push_str(&mut line, " (pass --seed ");
            push_decimal(&mut line, seed);
            push_str(&mut line, " to reproduce this match)");
            proof {
                assert(line@ =~= seed_announcement(seed, false));
            }
            (seed, line)
        },
    }
}

} // verus!
