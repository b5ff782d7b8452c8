//! Reciprocal Rank Fusion (RRF): score-agnostic fusion of the lexical and the
//! vector recall channel.
//!
//! Every occurrence of an item at 0-based position `i` of a channel
//! contributes `1 / (k + i + 1)`; an item present in both channels gets the
//! contributions of both. Scores are kept as exact fractions, so the fused
//! order is the exact order of the reciprocal-rank sums.
use vstd::prelude::*;
use vstd::string::*;
use crate::error::{DocqError, RetrieveError};
use vstd::arithmetic::div_mod::{lemma_fundamental_div_mod, lemma_mod_pos_bound};

verus! {

/// An exact fused score `num / den` (`den > 0`).
#[derive(Clone, Copy, Debug, PartialEq, Eq, Structural)]
pub struct RrfScore {
    pub num: u128,
    pub den: u128,
}

/// `-1`, `0` or `1` according to the sign of `x`.
pub open spec fn sign(x: int) -> i8 {
    if x < 0 {
        -1i8
    } else if x == 0 {
        0i8
    } else {
        1i8
    }
}

impl RrfScore {
    /// `self >= other` as fractions.
    pub open spec fn at_least(self, other: RrfScore) -> bool {
        self.num * other.den >= other.num * self.den
    }

    /// `self == other` as fractions.
    pub open spec fn same_value(self, other: RrfScore) -> bool {
        self.num * other.den == other.num * self.den
    }
}

proof fn lemma_div_mod_parts(p: int, q: int)
    requires
        0 <= p,
        0 < q,
    ensures
        p == q * (p / q) + p % q,
        0 <= p % q < q,
        0 <= p / q,
{
    lemma_fundamental_div_mod(p, q);
    lemma_mod_pos_bound(p, q);
    assert(0 <= p / q) by (nonlinear_arith)
        requires
            p == q * (p / q) + p % q,
            0 <= p % q < q,
            0 <= p,
            0 < q,
    ;
}

/// Sign of `p/q - r/s`, by comparing integer parts and recursing on the
/// reciprocals of the remainders (no intermediate product can overflow).
fn compare_fractions(p: u128, q: u128, r: u128, s: u128) -> (c: i8)
    requires
        q > 0,
        s > 0,
    ensures
        c == sign(p * s - r * q),
    decreases q + s,
{
    let a = p / q;
    let b = r / s;
    let p1 = p % q;
    let r1 = r % s;
    proof {
        lemma_div_mod_parts(p as int, q as int);
        lemma_div_mod_parts(r as int, s as int);
    }
    if a < b {
        assert(p * s - r * q < 0) by (nonlinear_arith)
            requires
                p == q * a + p1,
                r == s * b + r1,
                0 <= p1 < q,
                0 <= r1 < s,
                a < b,
                q > 0,
                s > 0,
        ;
        -1
    } else if a > b {
        assert(p * s - r * q > 0) by (nonlinear_arith)
            requires
                p == q * a + p1,
                r == s * b + r1,
                0 <= p1 < q,
                0 <= r1 < s,
                a > b,
                q > 0,
                s > 0,
        ;
        1
    } else {
        assert(p * s - r * q == p1 * s - r1 * q) by (nonlinear_arith)
            requires
                p == q * a + p1,
                r == s * b + r1,
                a == b,
        ;
        if p1 == 0 && r1 == 0 {
            assert(p1 * s - r1 * q == 0) by (nonlinear_arith)
                requires
                    p1 == 0,
                    r1 == 0,
            ;
            0
        } else if p1 == 0 {
            assert(r1 * q > 0) by (nonlinear_arith)
                requires
                    r1 > 0,
                    q > 0,
            ;
            assert(p1 * s - r1 * q < 0) by (nonlinear_arith)
                requires
                    p1 == 0,
                    r1 * q > 0,
            ;
            -1
        } else if r1 == 0 {
            assert(p1 * s > 0) by (nonlinear_arith)
                requires
                    p1 > 0,
                    s > 0,
            ;
            assert(p1 * s - r1 * q > 0) by (nonlinear_arith)
                requires
                    r1 == 0,
                    p1 * s > 0,
            ;
            1
        } else {
            let c = compare_fractions(q, p1, s, r1);
            assert(q * r1 - s * p1 == -(p1 * s - r1 * q)) by (nonlinear_arith);
            assert(sign(p * s - r * q) == -sign(q * r1 - s * p1));
            -c
        }
    }
}

/// Sign of `a - b` as fractions.
pub fn compare_scores(a: RrfScore, b: RrfScore) -> (c: i8)
    requires
        a.den > 0,
        b.den > 0,
    ensures
        c == sign(a.num * b.den - b.num * a.den),
        c >= 0 <==> a.at_least(b),
        c == 0 <==> a.same_value(b),
{
    compare_fractions(a.num, a.den, b.num, b.den)
}


/// The character views of a list of ids.
pub open spec fn id_views(ids: Seq<String>) -> Seq<Seq<char>> {
    Seq::new(ids.len(), |i: int| ids[i]@)
}

/// No id occurs twice.
pub open spec fn distinct(ids: Seq<Seq<char>>) -> bool {
    forall|i: int, j: int| 0 <= i < j < ids.len() ==> ids[i] != ids[j]
}

/// The position of `x` in `s`, or `-1` when absent (`s` has no duplicates).
pub open spec fn position(s: Seq<Seq<char>>, x: Seq<char>) -> int {
    if exists|i: int| #![trigger s[i]] 0 <= i < s.len() && s[i] == x {
        choose|i: int| #![trigger s[i]] 0 <= i < s.len() && s[i] == x
    } else {
        -1
    }
}

/// The first occurrence of every id, in order.
pub open spec fn first_occurrences(s: Seq<Seq<char>>) -> Seq<Seq<char>>
    decreases s.len(),
{
    if s.len() == 0 {
        Seq::empty()
    } else {
        let r = first_occurrences(s.drop_last());
        if s.drop_last().contains(s.last()) {
            r
        } else {
            r.push(s.last())
        }
    }
}

proof fn lemma_first_occurrences(s: Seq<Seq<char>>)
    ensures
        distinct(first_occurrences(s)),
        forall|x: Seq<char>| first_occurrences(s).contains(x) <==> s.contains(x),
    decreases s.len(),
{
    if s.len() > 0 {
        let t = s.drop_last();
        let ft = first_occurrences(t);
        let fs = first_occurrences(s);
        lemma_first_occurrences(t);
        assert forall|x: Seq<char>| fs.contains(x) implies s.contains(x) by {
            let i = choose|i: int| 0 <= i < fs.len() && fs[i] == x;
            if i < ft.len() {
                assert(fs[i] == ft[i]);
                assert(ft[i] == x);
                assert(ft.contains(x));
                assert(t.contains(x));
                let j = choose|j: int| 0 <= j < t.len() && t[j] == x;
                assert(s[j] == x);
            } else {
                assert(x == s.last());
                assert(s[s.len() - 1] == x);
            }
        }
        assert forall|x: Seq<char>| s.contains(x) implies fs.contains(x) by {
            let i = choose|i: int| 0 <= i < s.len() && s[i] == x;
            if i < t.len() {
                assert(t[i] == x);
                assert(t.contains(x));
                assert(ft.contains(x));
                let j = choose|j: int| 0 <= j < ft.len() && ft[j] == x;
                assert(fs[j] == x);
            } else if t.contains(x) {
                assert(ft.contains(x));
                let j = choose|j: int| 0 <= j < ft.len() && ft[j] == x;
                assert(fs[j] == x);
            } else {
                assert(fs[fs.len() - 1] == x);
            }
        }
        if !t.contains(s.last()) {
            assert(!ft.contains(s.last()));
            assert forall|i: int, j: int| 0 <= i < j < fs.len() implies fs[i] != fs[j] by {
                if j == fs.len() - 1 {
                    assert(fs[i] == ft[i]);
                    if fs[i] == fs[j] {
                        assert(ft.contains(s.last()));
                    }
                } else {
                    assert(fs[i] == ft[i] && fs[j] == ft[j]);
                }
            }
        }
    }
}

/// A list without repeated ids is its own list of first occurrences.
proof fn lemma_first_occurrences_of_distinct(s: Seq<Seq<char>>)
    requires
        distinct(s),
    ensures
        first_occurrences(s) == s,
    decreases s.len(),
{
    if s.len() > 0 {
        let t = s.drop_last();
        assert(distinct(t));
        lemma_first_occurrences_of_distinct(t);
        assert(!t.contains(s.last())) by {
            if t.contains(s.last()) {
                let i = choose|i: int| 0 <= i < t.len() && t[i] == s.last();
                assert(s[i] == t[i]);
                assert(s[i] != s[s.len() - 1]);
            }
        }
        assert(t.push(s.last()) =~= s);
    }
}

/// Drop repeated ids, keeping each id's first (best-ranked) occurrence.
pub fn dedup_ids(ids: &Vec<String>) -> (r: Vec<String>)
    ensures
        id_views(r@) == first_occurrences(id_views(ids@)),
        distinct(id_views(r@)),
{
    let ghost s = id_views(ids@);
    let mut r: Vec<String> = Vec::new();
    let mut i: usize = 0;
    while i < ids.len()
        invariant
            i <= ids.len(),
            s == id_views(ids@),
            id_views(r@) == first_occurrences(s.take(i as int)),
        decreases ids.len() - i,
    {
        let ghost t = s.take(i + 1);
        assert(t.drop_last() =~= s.take(i as int));
        assert(t.last() == ids@[i as int]@);
        proof {
            lemma_first_occurrences(s.take(i as int));
        }
        let mut seen = false;
        let mut j: usize = 0;
        while j < r.len()
            invariant
                j <= r.len(),
                i < ids.len(),
                seen == exists|q: int| 0 <= q < j && (#[trigger] r@[q])@ == ids@[i as int]@,
            decreases r.len() - j,
        {
            if r[j] == ids[i] {
                seen = true;
            }
            j += 1;
        }
        proof {
            let rv = id_views(r@);
            if seen {
                let q = choose|q: int| 0 <= q < r.len() && (#[trigger] r@[q])@ == ids@[i as int]@;
                assert(rv[q] == ids@[i as int]@);
                assert(s.take(i as int).contains(t.last()));
            } else {
                assert forall|q: int| 0 <= q < rv.len() implies rv[q] != t.last() by {
                    assert(rv[q] == r@[q]@);
                }
                assert(!rv.contains(t.last()));
                assert(!s.take(i as int).contains(t.last()));
            }
        }
        if !seen {
            r.push(ids[i].clone());
        }
        assert(id_views(r@) =~= first_occurrences(t));
        i += 1;
    }
    assert(s.take(ids.len() as int) =~= s);
    proof {
        lemma_first_occurrences(s);
    }
    r
}

/// `acc` plus `1 / (k + i + 1)` for every position `i` of `s` holding `id`,
/// as a fraction `(numerator, denominator)` summed term by term.
pub open spec fn add_occurrences(s: Seq<Seq<char>>, k: int, id: Seq<char>, acc: (int, int)) -> (int, int)
    decreases s.len(),
{
    if s.len() == 0 {
        acc
    } else {
        let prev = add_occurrences(s.drop_last(), k, id, acc);
        if s.last() == id {
            let x = k + s.len();
            (prev.0 * x + prev.1, prev.1 * x)
        } else {
            prev
        }
    }
}

/// The exact fused score of `id`: `1 / (k + i + 1)` for every 0-based
/// position `i` at which it occurs in either channel, summed as a fraction
/// `(numerator, denominator)` (lexical channel first); `(0, 1)` when absent.
pub open spec fn rrf_fraction(bm: Seq<Seq<char>>, vs: Seq<Seq<char>>, k: int, id: Seq<char>) -> (
    int,
    int,
) {
    add_occurrences(vs, k, id, add_occurrences(bm, k, id, (0, 1)))
}

/// Every id of either channel once, in order of first appearance (the
/// lexical channel first).
pub open spec fn fused_ids(bm: Seq<Seq<char>>, vs: Seq<Seq<char>>) -> Seq<Seq<char>> {
    first_occurrences(bm + vs)
}

/// Both parts of a fraction fit in `u128`.
pub open spec fn fraction_fits(f: (int, int)) -> bool {
    f.0 <= u128::MAX && f.1 <= u128::MAX
}

/// Every fused id's exact score fits in `u128` parts.
pub open spec fn scores_fit(bm: Seq<Seq<char>>, vs: Seq<Seq<char>>, k: int) -> bool {
    forall|i: int|
        0 <= i < fused_ids(bm, vs).len() ==> fraction_fits(
            rrf_fraction(bm, vs, k, #[trigger] fused_ids(bm, vs)[i]),
        )
}

/// `p` is a permutation of `0..n`.
pub open spec fn is_permutation(p: Seq<int>, n: int) -> bool {
    &&& p.len() == n
    &&& forall|i: int| 0 <= i < n ==> 0 <= #[trigger] p[i] < n
    &&& forall|i: int, j: int| 0 <= i < j < n ==> p[i] != p[j]
}

/// `r` lists the entries `e[p[0]], e[p[1]], ...` with their exact scores,
/// ordered by non-increasing score, equal scores keeping the order of `e`.
pub open spec fn fused_order(
    r: Seq<(String, RrfScore)>,
    e: Seq<Seq<char>>,
    bm: Seq<Seq<char>>,
    vs: Seq<Seq<char>>,
    k: int,
    p: Seq<int>,
) -> bool {
    &&& r.len() == e.len()
    &&& is_permutation(p, e.len() as int)
    &&& forall|i: int|
        0 <= i < r.len() ==> {
            &&& (#[trigger] r[i]).0@ == e[p[i]]
            &&& r[i].1.num == rrf_fraction(bm, vs, k, e[p[i]]).0
            &&& r[i].1.den == rrf_fraction(bm, vs, k, e[p[i]]).1
        }
    &&& forall|i: int, j: int| 0 <= i < j < r.len() ==> (#[trigger] r[i]).1.at_least((#[trigger] r[j]).1)
    &&& forall|i: int, j: int|
        0 <= i < j < r.len() && (#[trigger] r[i]).1.same_value((#[trigger] r[j]).1) ==> p[i] < p[j]
}

proof fn lemma_at_least_trans(a: RrfScore, b: RrfScore, c: RrfScore)
    requires
        a.den > 0,
        b.den > 0,
        c.den > 0,
        a.at_least(b),
        !a.at_least(c),
    ensures
        !b.at_least(c),
{
    let (an, ad, bn, bd, cn, cd) = (a.num as int, a.den as int, b.num as int, b.den as int, c.num as int, c.den as int);
    assert(bn * ad * cd <= an * bd * cd) by (nonlinear_arith)
        requires
            an * bd >= bn * ad,
            cd > 0,
    ;
    assert(an * cd * bd < cn * ad * bd) by (nonlinear_arith)
        requires
            an * cd < cn * ad,
            bd > 0,
    ;
    assert(ad * (bn * cd) < ad * (cn * bd)) by (nonlinear_arith)
        requires
            bn * ad * cd <= an * bd * cd,
            an * cd * bd < cn * ad * bd,
    ;
    assert(bn * cd < cn * bd) by (nonlinear_arith)
        requires
            ad * (bn * cd) < ad * (cn * bd),
            ad > 0,
    ;
}

proof fn lemma_position_of_member(s: Seq<Seq<char>>, i: int)
    requires
        distinct(s),
        0 <= i < s.len(),
    ensures
        position(s, s[i]) == i,
{
    let x = s[i];
    assert(0 <= i < s.len() && s[i] == x);
    assert(exists|j: int| #![trigger s[j]] 0 <= j < s.len() && s[j] == x);
    let c = choose|j: int| #![trigger s[j]] 0 <= j < s.len() && s[j] == s[i];
    if c != i {
        if c < i {
            assert(s[c] != s[i]);
        } else {
            assert(s[i] != s[c]);
        }
    }
}

/// `r` holds the first `t` entries of `e` (entry `e[p[a]]` at slot `a`),
/// sorted by non-increasing score, equal scores in entry order.
#[verifier::opaque]
pub open spec fn sorted_prefix(
    r: Seq<(String, RrfScore)>,
    p: Seq<int>,
    e: Seq<(String, RrfScore)>,
    t: int,
) -> bool {
    &&& r.len() == t
    &&& p.len() == t
    &&& forall|a: int| 0 <= a < t ==> 0 <= #[trigger] p[a] < t
    &&& forall|a: int, b: int| 0 <= a < b < t ==> p[a] != p[b]
    &&& forall|a: int| 0 <= a < t ==> (#[trigger] r[a]) == e[p[a]]
    &&& forall|a: int, b: int| 0 <= a < b < t ==> (#[trigger] r[a]).1.at_least((#[trigger] r[b]).1)
    &&& forall|a: int, b: int|
        0 <= a < b < t && (#[trigger] r[a]).1.same_value((#[trigger] r[b]).1) ==> p[a] < p[b]
}

proof fn lemma_insert_sorted(
    old_r: Seq<(String, RrfScore)>,
    old_p: Seq<int>,
    e: Seq<(String, RrfScore)>,
    t: int,
    pos: int,
)
    requires
        0 <= t < e.len(),
        0 <= pos <= t,
        sorted_prefix(old_r, old_p, e, t),
        forall|a: int| 0 <= a < e.len() ==> (#[trigger] e[a]).1.den > 0,
        forall|a: int| 0 <= a < pos ==> (#[trigger] old_r[a]).1.at_least(e[t].1),
        pos < t ==> !old_r[pos].1.at_least(e[t].1),
    ensures
        sorted_prefix(old_r.insert(pos, e[t]), old_p.insert(pos, t), e, t + 1),
{
    reveal(sorted_prefix);
    let sc = e[t].1;
    let r = old_r.insert(pos, e[t]);
    let p = old_p.insert(pos, t);
    old_r.insert_ensures(pos, e[t]);
    old_p.insert_ensures(pos, t);
    assert forall|a: int| 0 <= a < old_r.len() implies (#[trigger] old_r[a]).1.den > 0 by {
        assert(old_r[a] == e[old_p[a]]);
    }
    assert forall|a: int| pos <= a < old_r.len() implies !(#[trigger] old_r[a]).1.at_least(sc) by {
        if a > pos {
            lemma_at_least_trans(old_r[pos].1, old_r[a].1, sc);
        }
    }
    assert forall|a: int| 0 <= a < t + 1 implies (#[trigger] r[a]) == e[p[a]] by {
        if a > pos {
            assert(r[a] == old_r[a - 1]);
            assert(p[a] == old_p[a - 1]);
        }
    }
    assert forall|a: int| 0 <= a < t + 1 implies 0 <= #[trigger] p[a] < t + 1 by {
        if a > pos {
            assert(p[a] == old_p[a - 1]);
        }
    }
    assert forall|a: int, b: int| 0 <= a < b < t + 1 implies p[a] != p[b] by {
        if a < pos && b < pos {
        } else if a < pos && b == pos {
        } else if a < pos {
            assert(p[b] == old_p[b - 1]);
        } else if a == pos {
            assert(p[b] == old_p[b - 1]);
        } else {
            assert(p[a] == old_p[a - 1]);
            assert(p[b] == old_p[b - 1]);
        }
    }
    assert forall|a: int, b: int| 0 <= a < b < t + 1 implies (#[trigger] r[a]).1.at_least(
        (#[trigger] r[b]).1,
    ) by {
        if a < pos && b < pos {
        } else if a < pos && b == pos {
        } else if a < pos {
            assert(r[b] == old_r[b - 1]);
            assert(old_r[a].1.at_least(old_r[b - 1].1));
        } else if a == pos {
            assert(r[b] == old_r[b - 1]);
            assert(!old_r[b - 1].1.at_least(sc));
        } else {
            assert(r[a] == old_r[a - 1]);
            assert(r[b] == old_r[b - 1]);
            assert(old_r[a - 1].1.at_least(old_r[b - 1].1));
        }
    }
    assert forall|a: int, b: int|
        0 <= a < b < t + 1 && (#[trigger] r[a]).1.same_value((#[trigger] r[b]).1) implies p[a]
        < p[b] by {
        if a < pos && b < pos {
        } else if a < pos && b == pos {
        } else if a < pos {
            assert(r[b] == old_r[b - 1]);
            assert(p[b] == old_p[b - 1]);
            assert(old_r[a].1.same_value(old_r[b - 1].1));
        } else if a == pos {
            assert(r[b] == old_r[b - 1]);
            assert(!old_r[b - 1].1.at_least(sc));
        } else {
            assert(r[a] == old_r[a - 1]);
            assert(r[b] == old_r[b - 1]);
            assert(p[a] == old_p[a - 1]);
            assert(p[b] == old_p[b - 1]);
            assert(old_r[a - 1].1.same_value(old_r[b - 1].1));
        }
    }
}


/// Adding occurrences only makes both parts of the fraction grow, from a
/// non-negative numerator and a positive denominator.
proof fn lemma_occurrences_grow(s: Seq<Seq<char>>, k: int, id: Seq<char>, acc: (int, int), j: int)
    requires
        k >= 0,
        acc.0 >= 0,
        acc.1 >= 1,
        0 <= j <= s.len(),
    ensures
        add_occurrences(s, k, id, acc).0 >= 0,
        add_occurrences(s, k, id, acc).1 >= 1,
        add_occurrences(s.take(j), k, id, acc).0 <= add_occurrences(s, k, id, acc).0,
        add_occurrences(s.take(j), k, id, acc).1 <= add_occurrences(s, k, id, acc).1,
    decreases s.len(),
{
    if s.len() == 0 {
        assert(s.take(j) =~= s);
    } else {
        let t = s.drop_last();
        if j == s.len() {
            assert(s.take(j) =~= s);
            lemma_occurrences_grow(t, k, id, acc, 0);
        } else {
            lemma_occurrences_grow(t, k, id, acc, j);
            assert(t.take(j) =~= s.take(j));
        }
        let p = add_occurrences(t, k, id, acc);
        if s.last() == id {
            let x = k + s.len();
            assert(p.0 * x + p.1 >= p.0 && p.1 * x >= p.1) by (nonlinear_arith)
                requires
                    p.0 >= 0,
                    p.1 >= 1,
                    x >= 1,
            ;
        }
    }
}

/// `acc` plus the occurrences of `id` in `s`, computed exactly; `None` when
/// a part of the result does not fit in `u128`.
fn occurrence_fraction(s: &Vec<String>, id: &String, k: usize, acc: (u128, u128)) -> (r: Option<
    (u128, u128),
>)
    requires
        k + s@.len() <= usize::MAX,
        acc.1 >= 1,
    ensures
        ({
            let f = add_occurrences(id_views(s@), k as int, id@, (acc.0 as int, acc.1 as int));
            &&& (r is Some <==> fraction_fits(f))
            &&& (r is Some ==> (r->0).0 == f.0 && (r->0).1 == f.1)
        }),
{
    let ghost sv = id_views(s@);
    let ghost a = (acc.0 as int, acc.1 as int);
    let mut cur = acc;
    let mut i: usize = 0;
    assert(sv.take(0) =~= Seq::<Seq<char>>::empty());
    while i < s.len()
        invariant
            i <= s.len(),
            sv == id_views(s@),
            k + s@.len() <= usize::MAX,
            a == (acc.0 as int, acc.1 as int),
            a.1 >= 1,
            (cur.0 as int, cur.1 as int) == add_occurrences(sv.take(i as int), k as int, id@, a),
        decreases s.len() - i,
    {
        let ghost t = sv.take(i + 1);
        assert(t.drop_last() =~= sv.take(i as int));
        assert(t.last() == s@[i as int]@);
        if s[i] == *id {
            let x = (k + i + 1) as u128;
            assert(x == k + t.len());
            let nx = cur.0.checked_mul(x);
            let dx = cur.1.checked_mul(x);
            if nx.is_none() || dx.is_none() {
                proof {
                    lemma_occurrences_grow(sv, k as int, id@, a, i + 1);
                }
                return None;
            }
            let n2 = nx.unwrap().checked_add(cur.1);
            if n2.is_none() {
                proof {
                    lemma_occurrences_grow(sv, k as int, id@, a, i + 1);
                }
                return None;
            }
            cur = (n2.unwrap(), dx.unwrap());
        }
        i += 1;
    }
    assert(sv.take(s.len() as int) =~= sv);
    Some(cur)
}

/// The exact fused score of `id`, or `None` when it does not fit.
fn entry_fraction(bm25_ids: &Vec<String>, vector_ids: &Vec<String>, id: &String, k: usize) -> (r:
    Option<RrfScore>)
    requires
        k + bm25_ids@.len() <= usize::MAX,
        k + vector_ids@.len() <= usize::MAX,
    ensures
        ({
            let f = rrf_fraction(id_views(bm25_ids@), id_views(vector_ids@), k as int, id@);
            &&& (r is Some <==> fraction_fits(f))
            &&& (r is Some ==> r->0.num == f.0 && r->0.den == f.1 && r->0.den > 0)
        }),
{
    let ghost bv = id_views(bm25_ids@);
    let ghost vv = id_views(vector_ids@);
    let ghost f1 = add_occurrences(bv, k as int, id@, (0, 1));
    proof {
        lemma_occurrences_grow(bv, k as int, id@, (0, 1), 0);
        lemma_occurrences_grow(vv, k as int, id@, f1, 0);
        assert(vv.take(0) =~= Seq::<Seq<char>>::empty());
    }
    match occurrence_fraction(bm25_ids, id, k, (0, 1)) {
        None => None,
        Some(a) => match occurrence_fraction(vector_ids, id, k, a) {
            None => None,
            Some(b) => Some(RrfScore { num: b.0, den: b.1 }),
        },
    }
}

/// Every fused id once, in first-appearance order, with its exact score;
/// `None` when some score does not fit.
fn fused_entries(bm25_ids: &Vec<String>, vector_ids: &Vec<String>, k: usize) -> (r: Option<
    Vec<(String, RrfScore)>,
>)
    requires
        k + bm25_ids@.len() <= usize::MAX,
        k + vector_ids@.len() <= usize::MAX,
    ensures
        ({
            let bv = id_views(bm25_ids@);
            let vv = id_views(vector_ids@);
            let fe = fused_ids(bv, vv);
            &&& (r is Some <==> scores_fit(bv, vv, k as int))
            &&& (r is Some ==> {
                &&& r->0@.len() == fe.len()
                &&& forall|t: int|
                    0 <= t < fe.len() ==> {
                        &&& (#[trigger] r->0@[t]).0@ == fe[t]
                        &&& r->0@[t].1.den > 0
                        &&& r->0@[t].1.num == rrf_fraction(bv, vv, k as int, fe[t]).0
                        &&& r->0@[t].1.den == rrf_fraction(bv, vv, k as int, fe[t]).1
                    }
            })
        }),
{
    let ghost bv = id_views(bm25_ids@);
    let ghost vv = id_views(vector_ids@);
    let mut all: Vec<String> = Vec::new();
    let mut i: usize = 0;
    while i < bm25_ids.len()
        invariant
            i <= bm25_ids.len(),
            all@.len() == i,
            id_views(all@) == id_views(bm25_ids@).take(i as int),
        decreases bm25_ids.len() - i,
    {
        let ghost before = all@;
        let c = bm25_ids[i].clone();
        assert(c@ == bm25_ids@[i as int]@);
        all.push(c);
        assert(all@ == before.push(c));
        assert(all@.len() == i + 1);
        assert forall|q: int| 0 <= q < all@.len() implies #[trigger] id_views(all@)[q] == id_views(
            bm25_ids@,
        ).take(i + 1)[q] by {
            assert(id_views(all@)[q] == all@[q]@);
            assert(id_views(bm25_ids@).take(i + 1)[q] == bm25_ids@[q]@);
            if q < i {
                assert(id_views(before)[q] == id_views(bm25_ids@).take(i as int)[q]);
                assert(all@[q] == before[q]);
            } else {
                assert(all@[q] == c);
            }
        }
        assert(id_views(all@) =~= id_views(bm25_ids@).take(i + 1));
        i += 1;
    }
    let mut j: usize = 0;
    while j < vector_ids.len()
        invariant
            j <= vector_ids.len(),
            all@.len() == bm25_ids@.len() + j,
            id_views(all@) == id_views(bm25_ids@) + id_views(vector_ids@).take(j as int),
        decreases vector_ids.len() - j,
    {
        let ghost before = all@;
        let c = vector_ids[j].clone();
        assert(c@ == vector_ids@[j as int]@);
        all.push(c);
        assert(all@ == before.push(c));
        assert forall|q: int| 0 <= q < all@.len() implies #[trigger] id_views(all@)[q] == (id_views(
            bm25_ids@,
        ) + id_views(vector_ids@).take(j + 1))[q] by {
            assert(id_views(all@)[q] == all@[q]@);
            if q < before.len() {
                assert(id_views(before)[q] == (id_views(bm25_ids@) + id_views(vector_ids@).take(
                    j as int,
                ))[q]);
                assert(all@[q] == before[q]);
            } else {
                assert(all@[q] == c);
            }
        }
        assert(id_views(all@) =~= id_views(bm25_ids@) + id_views(vector_ids@).take(j + 1));
        j += 1;
    }
    assert(id_views(vector_ids@).take(vector_ids.len() as int) =~= id_views(vector_ids@));
    let ids = dedup_ids(&all);
    let ghost fe = fused_ids(bv, vv);
    assert(id_views(ids@) == fe);
    let mut e: Vec<(String, RrfScore)> = Vec::new();
    let mut t: usize = 0;
    while t < ids.len()
        invariant
            t <= ids.len(),
            bv == id_views(bm25_ids@),
            vv == id_views(vector_ids@),
            fe == fused_ids(bv, vv),
            id_views(ids@) == fe,
            k + bm25_ids@.len() <= usize::MAX,
            k + vector_ids@.len() <= usize::MAX,
            e@.len() == t,
            forall|q: int| 0 <= q < t ==> fraction_fits(rrf_fraction(bv, vv, k as int, #[trigger] fe[q])),
            forall|q: int|
                0 <= q < t ==> {
                    &&& (#[trigger] e@[q]).0@ == fe[q]
                    &&& e@[q].1.den > 0
                    &&& e@[q].1.num == rrf_fraction(bv, vv, k as int, fe[q]).0
                    &&& e@[q].1.den == rrf_fraction(bv, vv, k as int, fe[q]).1
                },
        decreases ids.len() - t,
    {
        assert(ids@[t as int]@ == fe[t as int]);
        match entry_fraction(bm25_ids, vector_ids, &ids[t], k) {
            None => {
                assert(!fraction_fits(rrf_fraction(bv, vv, k as int, fe[t as int])));
                return None;
            },
            Some(sc) => {
                e.push((ids[t].clone(), sc));
            },
        }
        t += 1;
    }
    Some(e)
}

/// Order scored entries by non-increasing score, equal scores keeping their
/// order (a stable insertion sort on exact fractions).
fn sort_entries(e: &Vec<(String, RrfScore)>) -> (r: Vec<(String, RrfScore)>)
    requires
        forall|a: int| 0 <= a < e.len() ==> (#[trigger] e@[a]).1.den > 0,
    ensures
        exists|p: Seq<int>| sorted_prefix(r@, p, e@, e@.len() as int),
{
    // ---- stable insertion by non-increasing score ----
    let mut r: Vec<(String, RrfScore)> = Vec::new();
    let ghost mut p: Seq<int> = Seq::empty();
    let mut t: usize = 0;
    proof {
        reveal(sorted_prefix);
    }
    while t < e.len()
        invariant
            t <= e.len(),
            forall|a: int| 0 <= a < e.len() ==> (#[trigger] e@[a]).1.den > 0,
            sorted_prefix(r@, p, e@, t as int),
        decreases e.len() - t,
    {
        let sc = e[t].1;
        proof {
            reveal(sorted_prefix);
        }
        let mut pos: usize = 0;
        while pos < r.len() && compare_scores(r[pos].1, sc) >= 0
            invariant
                pos <= r.len(),
                sc.den > 0,
                forall|a: int| 0 <= a < r.len() ==> (#[trigger] r@[a]).1.den > 0,
                forall|a: int| 0 <= a < pos ==> (#[trigger] r@[a]).1.at_least(sc),
            decreases r.len() - pos,
        {
            pos += 1;
        }
        let ghost old_r = r@;
        let ghost old_p = p;
        let item = (e[t].0.clone(), sc);
        assert(item == e@[t as int]);
        r.insert(pos, item);
        proof {
            p = old_p.insert(pos as int, t as int);
            lemma_insert_sorted(old_r, old_p, e@, t as int, pos as int);
        }
        t += 1;
    }
    proof {
        reveal(sorted_prefix);
    }
    proof {
        reveal(sorted_prefix);
    }
    r
}

/// Fuse two ranked id lists by reciprocal rank, or report that some exact
/// score does not fit in `u128` parts (`None`).
///
/// Only positions matter: the raw channel scores are not consulted. Every
/// occurrence of an id at 0-based position `i` of a channel contributes
/// `1 / (k + i + 1)`; the result lists every id of either channel once with
/// its exact summed score, highest score first; ids with equal scores keep
/// their first-appearance order (lexical channel first).
pub fn try_reciprocal_rank_fusion(bm25_ids: &Vec<String>, vector_ids: &Vec<String>, k: usize) -> (r:
    Option<Vec<(String, RrfScore)>>)
    requires
        k + bm25_ids.len() <= usize::MAX,
        k + vector_ids.len() <= usize::MAX,
    ensures
        r is Some <==> scores_fit(id_views(bm25_ids@), id_views(vector_ids@), k as int),
        r is Some ==> exists|p: Seq<int>|
            fused_order(
                r->0@,
                fused_ids(id_views(bm25_ids@), id_views(vector_ids@)),
                id_views(bm25_ids@),
                id_views(vector_ids@),
                k as int,
                p,
            ),
{
    let ghost bv = id_views(bm25_ids@);
    let ghost vv = id_views(vector_ids@);
    let ghost fe = fused_ids(bv, vv);
    match fused_entries(bm25_ids, vector_ids, k) {
        None => None,
        Some(e) => {
            let r = sort_entries(&e);
            proof {
                reveal(sorted_prefix);
                let p = choose|p: Seq<int>| sorted_prefix(r@, p, e@, e@.len() as int);
                assert(fused_order(r@, fe, bv, vv, k as int, p)) by {
                    assert forall|a: int| 0 <= a < r.len() implies {
                        &&& (#[trigger] r@[a]).0@ == fe[p[a]]
                        &&& r@[a].1.num == rrf_fraction(bv, vv, k as int, fe[p[a]]).0
                        &&& r@[a].1.den == rrf_fraction(bv, vv, k as int, fe[p[a]]).1
                    } by {
                        assert(r@[a] == e@[p[a]]);
                    }
                }
                assert(fe == fused_ids(id_views(bm25_ids@), id_views(vector_ids@)));
                assert(exists|p2: Seq<int>| fused_order(r@, fe, bv, vv, k as int, p2));
            }
            let res = Some(r);
            assert(res->0@ == r@);
            res
        },
    }
}

/// Fuse two ranked id lists by reciprocal rank: every id of either channel
/// once, with its exact score (the sum of `1 / (k + i + 1)` over all of its
/// occurrences), highest score first, ties in first-appearance order. When
/// some exact score does not fit in `u128` parts (an id repeated very many
/// times within a channel), the fusion is refused with a retrieval error.
pub fn reciprocal_rank_fusion(bm25_ids: &Vec<String>, vector_ids: &Vec<String>, k: usize) -> (r: Result<
    Vec<(String, RrfScore)>,
    DocqError,
>)
    requires
        k + bm25_ids.len() <= usize::MAX,
        k + vector_ids.len() <= usize::MAX,
    ensures
        r is Ok <==> scores_fit(id_views(bm25_ids@), id_views(vector_ids@), k as int),
        r is Ok ==> exists|p: Seq<int>|
            fused_order(
                r->Ok_0@,
                fused_ids(id_views(bm25_ids@), id_views(vector_ids@)),
                id_views(bm25_ids@),
                id_views(vector_ids@),
                k as int,
                p,
            ),
        r is Err ==> r->Err_0 is Retrieve && r->Err_0.detail() == "fused score too large to represent exactly"@,
{
    match try_reciprocal_rank_fusion(bm25_ids, vector_ids, k) {
        Some(fused) => {
            let r = Ok(fused);
            assert(r->Ok_0@ == fused@);
            r
        },
        None => Err(
            DocqError::Retrieve(
                RetrieveError::Other(String::from_str("fused score too large to represent exactly")),
            ),
        ),
    }
}


// ---------------------------------------------------------------------------
// Laws of the fusion.
/// Product of `k + i + 1` over the positions `i` of `s` holding `id`.
pub open spec fn occurrence_product(s: Seq<Seq<char>>, k: int, id: Seq<char>) -> int
    decreases s.len(),
{
    if s.len() == 0 {
        1
    } else if s.last() == id {
        occurrence_product(s.drop_last(), k, id) * (k + s.len())
    } else {
        occurrence_product(s.drop_last(), k, id)
    }
}

/// Sum, over the positions holding `id`, of the product of the other
/// positions' `k + i + 1`.
pub open spec fn occurrence_cofactor(s: Seq<Seq<char>>, k: int, id: Seq<char>) -> int
    decreases s.len(),
{
    if s.len() == 0 {
        0
    } else if s.last() == id {
        occurrence_cofactor(s.drop_last(), k, id) * (k + s.len()) + occurrence_product(
            s.drop_last(),
            k,
            id,
        )
    } else {
        occurrence_cofactor(s.drop_last(), k, id)
    }
}

/// Adding the occurrences of `id` to `n / d` gives `(n P + d Q) / (d P)`.
proof fn lemma_occurrences_closed_form(s: Seq<Seq<char>>, k: int, id: Seq<char>, n: int, d: int)
    ensures
        add_occurrences(s, k, id, (n, d)) == (
            n * occurrence_product(s, k, id) + d * occurrence_cofactor(s, k, id),
            d * occurrence_product(s, k, id),
        ),
    decreases s.len(),
{
    if s.len() > 0 {
        let t = s.drop_last();
        lemma_occurrences_closed_form(t, k, id, n, d);
        if s.last() == id {
            let pp = occurrence_product(t, k, id);
            let qq = occurrence_cofactor(t, k, id);
            let x = k + s.len();
            assert((n * pp + d * qq) * x + d * pp == n * (pp * x) + d * (qq * x + pp)) by (nonlinear_arith);
            assert((d * pp) * x == d * (pp * x)) by (nonlinear_arith);
        }
    }
}

/// Fusion treats the two channels alike: swapping them leaves every id's
/// score unchanged.
pub proof fn lemma_rrf_symmetric(bm: Seq<Seq<char>>, vs: Seq<Seq<char>>, k: int, id: Seq<char>)
    ensures
        rrf_fraction(bm, vs, k, id) == rrf_fraction(vs, bm, k, id),
{
    let pb = occurrence_product(bm, k, id);
    let qb = occurrence_cofactor(bm, k, id);
    let pv = occurrence_product(vs, k, id);
    let qv = occurrence_cofactor(vs, k, id);
    lemma_occurrences_closed_form(bm, k, id, 0, 1);
    lemma_occurrences_closed_form(vs, k, id, 0, 1);
    assert(0 * pb + 1 * qb == qb && 1 * pb == pb) by (nonlinear_arith);
    assert(0 * pv + 1 * qv == qv && 1 * pv == pv) by (nonlinear_arith);
    lemma_occurrences_closed_form(vs, k, id, qb, pb);
    lemma_occurrences_closed_form(bm, k, id, qv, pv);
    assert(qb * pv + pb * qv == qv * pb + pv * qb && pb * pv == pv * pb) by (nonlinear_arith);
}

/// In a channel without repeated ids, adding the occurrences of `id` adds
/// the one term of its position, if any.
proof fn lemma_occurrences_distinct(s: Seq<Seq<char>>, k: int, id: Seq<char>, acc: (int, int))
    requires
        distinct(s),
    ensures
        position(s, id) >= 0 ==> add_occurrences(s, k, id, acc) == (
            acc.0 * (k + position(s, id) + 1) + acc.1,
            acc.1 * (k + position(s, id) + 1),
        ),
        position(s, id) < 0 ==> add_occurrences(s, k, id, acc) == acc,
        -1 <= position(s, id) < s.len(),
    decreases s.len(),
{
    if exists|i: int| #![trigger s[i]] 0 <= i < s.len() && s[i] == id {
        let i = choose|i: int| #![trigger s[i]] 0 <= i < s.len() && s[i] == id;
        lemma_position_of_member(s, i);
    }
    if s.len() > 0 {
        let t = s.drop_last();
        assert(distinct(t));
        lemma_occurrences_distinct(t, k, id, acc);
        if s.last() == id {
            lemma_position_of_member(s, s.len() - 1);
            assert(s[s.len() - 1] == id);
            assert(!(exists|i: int| #![trigger t[i]] 0 <= i < t.len() && t[i] == id)) by {
                if exists|i: int| #![trigger t[i]] 0 <= i < t.len() && t[i] == id {
                    let i = choose|i: int| #![trigger t[i]] 0 <= i < t.len() && t[i] == id;
                    assert(s[i] == id);
                    assert(s[i] != s[s.len() - 1]);
                }
            }
        } else {
            if exists|i: int| #![trigger t[i]] 0 <= i < t.len() && t[i] == id {
                let i = choose|i: int| #![trigger t[i]] 0 <= i < t.len() && t[i] == id;
                lemma_position_of_member(t, i);
                assert(s[i] == t[i]);
                lemma_position_of_member(s, i);
            } else {
                assert(!(exists|i: int| #![trigger s[i]] 0 <= i < s.len() && s[i] == id)) by {
                    if exists|i: int| #![trigger s[i]] 0 <= i < s.len() && s[i] == id {
                        let i = choose|i: int| #![trigger s[i]] 0 <= i < s.len() && s[i] == id;
                        if i < t.len() {
                            assert(t[i] == s[i]);
                        }
                    }
                }
            }
        }
    }
}

/// With no id repeated within a channel, an id's score is
/// `1 / (k + a + 1) + 1 / (k + b + 1)` for its positions `a`, `b`, with the
/// term of a channel it is absent from left out.
pub proof fn lemma_rrf_fraction_of_positions(bm: Seq<Seq<char>>, vs: Seq<Seq<char>>, k: int, id: Seq<char>)
    requires
        distinct(bm),
        distinct(vs),
    ensures
        ({
            let a = position(bm, id);
            let b = position(vs, id);
            let x = k + a + 1;
            let y = k + b + 1;
            rrf_fraction(bm, vs, k, id) == if a >= 0 && b >= 0 {
                (x + y, x * y)
            } else if a >= 0 {
                (1, x)
            } else if b >= 0 {
                (1, y)
            } else {
                (0, 1)
            }
        }),
        -1 <= position(bm, id) < bm.len(),
        -1 <= position(vs, id) < vs.len(),
{
    lemma_occurrences_distinct(bm, k, id, (0, 1));
    let f1 = add_occurrences(bm, k, id, (0, 1));
    lemma_occurrences_distinct(vs, k, id, f1);
    let x = k + position(bm, id) + 1;
    let y = k + position(vs, id) + 1;
    assert(0 * x + 1 == 1 && 1 * x == x) by (nonlinear_arith);
    assert(0 * y + 1 == 1 && 1 * y == y) by (nonlinear_arith);
    assert(1 * y + x == x + y) by (nonlinear_arith);
}

/// With no id repeated within a channel (and `k` plus each channel's length
/// within `usize`), every exact score fits in `u128` parts.
pub proof fn lemma_distinct_channels_fit(bm: Seq<Seq<char>>, vs: Seq<Seq<char>>, k: int)
    requires
        distinct(bm),
        distinct(vs),
        k >= 0,
        k + bm.len() <= usize::MAX,
        k + vs.len() <= usize::MAX,
    ensures
        scores_fit(bm, vs, k),
{
    assert forall|i: int| 0 <= i < fused_ids(bm, vs).len() implies fraction_fits(
        rrf_fraction(bm, vs, k, #[trigger] fused_ids(bm, vs)[i]),
    ) by {
        let id = fused_ids(bm, vs)[i];
        lemma_rrf_fraction_of_positions(bm, vs, k, id);
        let x = k + position(bm, id) + 1;
        let y = k + position(vs, id) + 1;
        if position(bm, id) >= 0 && position(vs, id) >= 0 {
            assert(x * y <= u64::MAX * u64::MAX) by (nonlinear_arith)
                requires
                    1 <= x <= u64::MAX,
                    1 <= y <= u64::MAX,
            ;
        }
    }
}

/// With no id repeated within a channel, an id ranked in both channels
/// outscores any id found in only one channel at a position no better than
/// its own best position.
pub proof fn lemma_rrf_consensus_boost(
    bm: Seq<Seq<char>>,
    vs: Seq<Seq<char>>,
    k: int,
    both: Seq<char>,
    single: Seq<char>,
)
    requires
        k >= 0,
        distinct(bm),
        distinct(vs),
        position(bm, both) >= 0,
        position(vs, both) >= 0,
        (position(bm, single) >= 0) != (position(vs, single) >= 0),
        position(bm, single) >= 0 ==> position(bm, single) >= position(bm, both) || position(
            bm,
            single,
        ) >= position(vs, both),
        position(vs, single) >= 0 ==> position(vs, single) >= position(bm, both) || position(
            vs,
            single,
        ) >= position(vs, both),
    ensures
        ({
            let (n1, d1) = rrf_fraction(bm, vs, k, both);
            let (n2, d2) = rrf_fraction(bm, vs, k, single);
            n1 * d2 > n2 * d1
        }),
{
    lemma_rrf_fraction_of_positions(bm, vs, k, both);
    lemma_rrf_fraction_of_positions(bm, vs, k, single);
    let x = k + position(bm, both) + 1;
    let y = k + position(vs, both) + 1;
    let z = if position(bm, single) >= 0 {
        k + position(bm, single) + 1
    } else {
        k + position(vs, single) + 1
    };
    assert(rrf_fraction(bm, vs, k, single) == (1int, z));
    assert((x + y) * z > 1 * (x * y)) by (nonlinear_arith)
        requires
            x >= 1,
            y >= 1,
            z >= x || z >= y,
    ;
}

proof fn lemma_increasing_is_identity(p: Seq<int>, n: int)
    requires
        p.len() == n,
        forall|i: int| 0 <= i < n ==> 0 <= #[trigger] p[i] < n,
        forall|i: int, j: int| 0 <= i < j < n ==> p[i] < p[j],
    ensures
        forall|i: int| 0 <= i < n ==> #[trigger] p[i] == i,
{
    assert forall|i: int| 0 <= i < n implies #[trigger] p[i] >= i by {
        lemma_increasing_lower(p, n, i);
    }
    assert forall|i: int| 0 <= i < n implies #[trigger] p[i] <= i by {
        lemma_increasing_upper(p, n, i);
    }
}

proof fn lemma_increasing_lower(p: Seq<int>, n: int, i: int)
    requires
        0 <= i < n,
        p.len() == n,
        forall|a: int| 0 <= a < n ==> 0 <= #[trigger] p[a] < n,
        forall|a: int, b: int| 0 <= a < b < n ==> p[a] < p[b],
    ensures
        p[i] >= i,
    decreases i,
{
    if i > 0 {
        lemma_increasing_lower(p, n, i - 1);
        assert(p[i - 1] < p[i]);
    }
}

proof fn lemma_increasing_upper(p: Seq<int>, n: int, i: int)
    requires
        0 <= i < n,
        p.len() == n,
        forall|a: int| 0 <= a < n ==> 0 <= #[trigger] p[a] < n,
        forall|a: int, b: int| 0 <= a < b < n ==> p[a] < p[b],
    ensures
        p[i] <= i,
    decreases n - i,
{
    if i < n - 1 {
        lemma_increasing_upper(p, n, i + 1);
        assert(p[i] < p[i + 1]);
    } else {
        assert(p[i] < n);
    }
}

/// With a single non-empty channel, fusion keeps that channel's order and
/// every id's score is `1 / (k + position + 1)`.
pub proof fn lemma_rrf_single_channel_keeps_order(
    r: Seq<(String, RrfScore)>,
    bm: Seq<Seq<char>>,
    k: int,
    p: Seq<int>,
)
    requires
        k >= 0,
        distinct(bm),
        fused_order(r, fused_ids(bm, Seq::empty()), bm, Seq::empty(), k, p),
    ensures
        r.len() == bm.len(),
        forall|i: int| 0 <= i < r.len() ==> (#[trigger] r[i]).0@ == bm[i],
        forall|i: int| 0 <= i < r.len() ==> (#[trigger] r[i]).1.num == 1 && r[i].1.den == k + i + 1,
{
    let vs: Seq<Seq<char>> = Seq::empty();
    let e = fused_ids(bm, vs);
    assert(bm + vs =~= bm);
    lemma_first_occurrences_of_distinct(bm);
    assert(e =~= bm);
    let n = bm.len() as int;
    assert forall|i: int| 0 <= i < n implies #[trigger] rrf_fraction(bm, vs, k, bm[i]) == (
        1int,
        k + i + 1,
    ) by {
        lemma_position_of_member(bm, i);
        lemma_rrf_fraction_of_positions(bm, vs, k, bm[i]);
        assert(!(exists|j: int| #![trigger vs[j]] 0 <= j < vs.len() && vs[j] == bm[i]));
    }
    assert forall|i: int, j: int| 0 <= i < j < n implies p[i] < p[j] by {
        assert(r[i].1.at_least(r[j].1));
        assert(0 <= p[i] < n && 0 <= p[j] < n);
        assert(e[p[i]] == bm[p[i]] && e[p[j]] == bm[p[j]]);
        assert(rrf_fraction(bm, vs, k, bm[p[i]]) == (1int, k + p[i] + 1));
        assert(rrf_fraction(bm, vs, k, bm[p[j]]) == (1int, k + p[j] + 1));
        assert(r[i].1.num == 1 && r[i].1.den == k + p[i] + 1);
        assert(r[j].1.num == 1 && r[j].1.den == k + p[j] + 1);
        let (ni, di, nj, dj) = (r[i].1.num as int, r[i].1.den as int, r[j].1.num as int, r[j].1.den as int);
        assert(ni * dj == dj && nj * di == di) by (nonlinear_arith)
            requires
                ni == 1,
                nj == 1,
        ;
        assert(p[i] != p[j]);
    }
    lemma_increasing_is_identity(p, n);
    assert forall|i: int| 0 <= i < r.len() implies (#[trigger] r[i]).1.num == 1 && r[i].1.den
        == k + i + 1 by {
        assert(p[i] == i);
        assert(e[p[i]] == bm[i]);
        assert(rrf_fraction(bm, vs, k, bm[i]) == (1int, k + i + 1));
    }
}


/// The fused scores as a map: each id of either channel to its exact score.
pub open spec fn rrf_scores(bm: Seq<Seq<char>>, vs: Seq<Seq<char>>, k: int) -> Map<
    Seq<char>,
    (int, int),
> {
    Map::new(|id: Seq<char>| (bm + vs).contains(id), |id: Seq<char>| rrf_fraction(bm, vs, k, id))
}

/// `r` lists the map `m`: every id of `m` exactly once, with its score.
pub open spec fn lists_scores(r: Seq<(String, RrfScore)>, m: Map<Seq<char>, (int, int)>) -> bool {
    &&& forall|i: int|
        0 <= i < r.len() ==> m.contains_key((#[trigger] r[i]).0@) && m[r[i].0@] == (
            r[i].1.num as int,
            r[i].1.den as int,
        )
    &&& forall|id: Seq<char>|
        #[trigger] m.contains_key(id) ==> exists|i: int| 0 <= i < r.len() && (#[trigger] r[i]).0@ == id
    &&& forall|i: int, j: int| 0 <= i < j < r.len() ==> (#[trigger] r[i]).0@ != (#[trigger] r[j]).0@
}

proof fn lemma_permutation_onto(p: Seq<int>, n: int)
    requires
        is_permutation(p, n),
    ensures
        forall|j: int| 0 <= j < n ==> #[trigger] p.contains(j),
{
    broadcast use vstd::set::group_set_axioms, vstd::seq_lib::seq_to_set_is_finite;
    assert(p.no_duplicates()) by {
        assert forall|i: int, j: int| 0 <= i < p.len() && 0 <= j < p.len() && i != j implies p[i]
            != p[j] by {
            if i > j {
                assert(p[j] != p[i]);
            }
        }
    }
    p.unique_seq_to_set();
    vstd::set_lib::lemma_int_range(0, n);
    let r = vstd::set_lib::set_int_range(0, n);
    assert(p.to_set().subset_of(r)) by {
        assert forall|x: int| p.to_set().contains(x) implies r.contains(x) by {
            assert(p.contains(x));
            let i = choose|i: int| 0 <= i < p.len() && p[i] == x;
        }
    }
    vstd::set_lib::lemma_subset_equality(p.to_set(), r);
    assert forall|j: int| 0 <= j < n implies #[trigger] p.contains(j) by {
        assert(r.contains(j));
        assert(p.to_set().contains(j));
    }
}

/// A fused list lists the fused score map of its channels.
proof fn lemma_fused_lists_scores(
    r: Seq<(String, RrfScore)>,
    bm: Seq<Seq<char>>,
    vs: Seq<Seq<char>>,
    k: int,
    p: Seq<int>,
)
    requires
        fused_order(r, fused_ids(bm, vs), bm, vs, k, p),
    ensures
        lists_scores(r, rrf_scores(bm, vs, k)),
{
    let e = fused_ids(bm, vs);
    let m = rrf_scores(bm, vs, k);
    lemma_first_occurrences(bm + vs);
    lemma_permutation_onto(p, e.len() as int);
    assert forall|i: int| 0 <= i < r.len() implies m.contains_key((#[trigger] r[i]).0@) && m[r[i].0@]
        == (r[i].1.num as int, r[i].1.den as int) by {
        assert(e.contains(e[p[i]]));
    }
    assert forall|id: Seq<char>| #[trigger] m.contains_key(id) implies exists|i: int|
        0 <= i < r.len() && (#[trigger] r[i]).0@ == id by {
        assert(e.contains(id));
        let j = choose|j: int| 0 <= j < e.len() && e[j] == id;
        assert(p.contains(j));
        let i = choose|i: int| 0 <= i < p.len() && p[i] == j;
        assert(r[i].0@ == e[p[i]]);
    }
    assert forall|i: int, j: int| 0 <= i < j < r.len() implies (#[trigger] r[i]).0@ != (
    #[trigger] r[j]).0@ by {
        assert(r[i].0@ == e[p[i]] && r[j].0@ == e[p[j]]);
        assert(p[i] != p[j]);
    }
}

proof fn lemma_concat_contains_swap(bm: Seq<Seq<char>>, vs: Seq<Seq<char>>, id: Seq<char>)
    ensures
        (bm + vs).contains(id) <==> (vs + bm).contains(id),
{
    if (bm + vs).contains(id) {
        let i = choose|i: int| 0 <= i < (bm + vs).len() && (bm + vs)[i] == id;
        if i < bm.len() {
            assert((vs + bm)[vs.len() + i] == id);
        } else {
            assert((vs + bm)[i - bm.len()] == id);
        }
    }
    if (vs + bm).contains(id) {
        let i = choose|i: int| 0 <= i < (vs + bm).len() && (vs + bm)[i] == id;
        if i < vs.len() {
            assert((bm + vs)[bm.len() + i] == id);
        } else {
            assert((bm + vs)[i - vs.len()] == id);
        }
    }
}

/// Whether every exact score fits does not depend on the order of the
/// channels: fusing `(bm, vs)` is refused exactly when fusing `(vs, bm)` is.
pub proof fn lemma_scores_fit_symmetric(bm: Seq<Seq<char>>, vs: Seq<Seq<char>>, k: int)
    ensures
        scores_fit(bm, vs, k) == scores_fit(vs, bm, k),
{
    lemma_first_occurrences(bm + vs);
    lemma_first_occurrences(vs + bm);
    let e1 = fused_ids(bm, vs);
    let e2 = fused_ids(vs, bm);
    if scores_fit(bm, vs, k) {
        assert forall|i: int| 0 <= i < e2.len() implies fraction_fits(
            rrf_fraction(vs, bm, k, #[trigger] e2[i]),
        ) by {
            let id = e2[i];
            assert(e2.contains(id));
            lemma_concat_contains_swap(bm, vs, id);
            assert(e1.contains(id));
            let j = choose|j: int| 0 <= j < e1.len() && e1[j] == id;
            lemma_rrf_symmetric(bm, vs, k, id);
        }
    }
    if scores_fit(vs, bm, k) {
        assert forall|i: int| 0 <= i < e1.len() implies fraction_fits(
            rrf_fraction(bm, vs, k, #[trigger] e1[i]),
        ) by {
            let id = e1[i];
            assert(e1.contains(id));
            lemma_concat_contains_swap(bm, vs, id);
            assert(e2.contains(id));
            let j = choose|j: int| 0 <= j < e2.len() && e2[j] == id;
            lemma_rrf_symmetric(bm, vs, k, id);
        }
    }
}

/// Swapping the two channels gives the same fused score map: the fusion of
/// `(bm, vs)` and the fusion of `(vs, bm)` list the same ids with the same
/// exact scores (only the order of tied ids may differ).
pub proof fn lemma_rrf_channels_interchangeable(
    r1: Seq<(String, RrfScore)>,
    r2: Seq<(String, RrfScore)>,
    bm: Seq<Seq<char>>,
    vs: Seq<Seq<char>>,
    k: int,
)
    requires
        exists|p: Seq<int>| fused_order(r1, fused_ids(bm, vs), bm, vs, k, p),
        exists|p: Seq<int>| fused_order(r2, fused_ids(vs, bm), vs, bm, k, p),
    ensures
        scores_fit(bm, vs, k) == scores_fit(vs, bm, k),
        rrf_scores(bm, vs, k) == rrf_scores(vs, bm, k),
        lists_scores(r1, rrf_scores(bm, vs, k)),
        lists_scores(r2, rrf_scores(bm, vs, k)),
{
    let p1 = choose|p: Seq<int>| fused_order(r1, fused_ids(bm, vs), bm, vs, k, p);
    let p2 = choose|p: Seq<int>| fused_order(r2, fused_ids(vs, bm), vs, bm, k, p);
    lemma_fused_lists_scores(r1, bm, vs, k, p1);
    lemma_fused_lists_scores(r2, vs, bm, k, p2);
    lemma_scores_fit_symmetric(bm, vs, k);
    let m1 = rrf_scores(bm, vs, k);
    let m2 = rrf_scores(vs, bm, k);
    assert forall|id: Seq<char>| (bm + vs).contains(id) <==> (vs + bm).contains(id) by {
        lemma_concat_contains_swap(bm, vs, id);
    }
    assert forall|id: Seq<char>| #[trigger] m1.contains_key(id) implies m1[id] == m2[id] by {
        lemma_rrf_symmetric(bm, vs, k, id);
    }
    assert(m1 =~= m2);
}

} // verus!
