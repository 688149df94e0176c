//! Names authored by hand are checked against the names a file may use, and a typo
//! is answered with the closest one: "did you mean `color`?".

use vstd::prelude::*;

use crate::strs::{chars_of, concat3, string_of};

verus! {

/// The Levenshtein distance between `a[..i]` and `b[..j]`: the fewest single-char
/// insertions, deletions and substitutions that turn one into the other.
pub open spec fn lev(a: Seq<char>, b: Seq<char>, i: nat, j: nat) -> nat
    decreases i + j,
{
    if i == 0 {
        j
    } else if j == 0 {
        i
    } else {
        let del = lev(a, b, (i - 1) as nat, j) + 1;
        let ins = lev(a, b, i, (j - 1) as nat) + 1;
        let sub = lev(a, b, (i - 1) as nat, (j - 1) as nat) + if a[i - 1] == b[j - 1] {
            0nat
        } else {
            1nat
        };
        let m = if del <= ins {
            del
        } else {
            ins
        };
        if m <= sub {
            m
        } else {
            sub
        }
    }
}

/// The edit distance between two whole names.
pub open spec fn distance(a: Seq<char>, b: Seq<char>) -> nat {
    lev(a, b, a.len(), b.len())
}

proof fn lemma_lev_bound(a: Seq<char>, b: Seq<char>, i: nat, j: nat)
    ensures
        lev(a, b, i, j) <= if i >= j {
            i
        } else {
            j
        },
    decreases i + j,
{
    if i > 0 && j > 0 {
        lemma_lev_bound(a, b, (i - 1) as nat, (j - 1) as nat);
    }
}

/// The edit distance between `a` and `b`, one row of the table at a time.
pub fn edit_distance(a: &str, b: &str) -> (d: usize)
    ensures
        d == distance(a@, b@),
{
    let x = chars_of(a);
    let y = chars_of(b);
    edit_distance_chars(&x, &y)
}

fn edit_distance_chars(a: &Vec<char>, b: &Vec<char>) -> (d: usize)
    ensures
        d == lev(a@, b@, a@.len(), b@.len()),
{
    let mut prev: Vec<usize> = Vec::new();
    let mut j: usize = 0;
    while j < b.len()
        invariant
            j <= b.len(),
            prev.len() == j,
            forall|k: int| 0 <= k < j ==> prev@[k] == lev(a@, b@, 0, k as nat),
        decreases b.len() - j,
    {
        prev.push(j);
        j += 1;
    }
    prev.push(b.len());
    let width = prev.len();
    assert(width == b.len() + 1);
    let mut r: usize = 0;
    while r < a.len()
        invariant
            r <= a.len(),
            prev.len() == b.len() + 1,
            forall|k: int| 0 <= k <= b.len() ==> prev@[k] == lev(a@, b@, r as nat, k as nat),
        decreases a.len() - r,
    {
        let i = r + 1;
        let mut cur: Vec<usize> = Vec::new();
        cur.push(i);
        let mut j: usize = 1;
        while j <= b.len()
            invariant
                1 <= i <= a.len(),
                i == r + 1,
                1 <= j <= b.len() + 1,
                b.len() + 1 <= usize::MAX,
                prev.len() == b.len() + 1,
                cur.len() == j,
                forall|k: int| 0 <= k <= b.len() ==> prev@[k] == lev(a@, b@, (i - 1) as nat, k as nat),
                forall|k: int| 0 <= k < j ==> cur@[k] == lev(a@, b@, i as nat, k as nat),
            decreases b.len() + 1 - j,
        {
            proof {
                lemma_lev_bound(a@, b@, (i - 1) as nat, j as nat);
                lemma_lev_bound(a@, b@, (i - 1) as nat, (j - 1) as nat);
            }
            let del = prev[j] + 1;
            // The sum can reach past `usize` only where it is not the least of the three.
            let ins = cur[j - 1].saturating_add(1);
            let diff: usize = if a[i - 1] != b[j - 1] {
                1
            } else {
                0
            };
            let sub = prev[j - 1] + diff;
            let m = if del <= ins {
                del
            } else {
                ins
            };
            let v = if m <= sub {
                m
            } else {
                sub
            };
            cur.push(v);
            j += 1;
        }
        prev = cur;
        r += 1;
    }
    prev[b.len()]
}

/// `(da, a)` comes before `(db, b)`: by distance, then by the names' chars in order.
pub open spec fn ranked_before(da: nat, a: Seq<char>, db: nat, b: Seq<char>) -> bool {
    da < db || (da == db && lex_lt(a, b))
}

/// `a` sorts before `b`, comparing chars from the start; a proper prefix sorts first.
pub open spec fn lex_lt(a: Seq<char>, b: Seq<char>) -> bool {
    exists|k: int|
        0 <= k <= a.len() && k <= b.len() && a.take(k) == b.take(k) && ((k == a.len() && k
            < b.len()) || (k < a.len() && k < b.len() && a[k] < b[k]))
}

/// The names of `pool`, each as its chars.
pub open spec fn names_of(pool: Seq<&[&str]>) -> Seq<Seq<Seq<char>>> {
    pool.map_values(|p: &[&str]| p@.map_values(|c: &str| c@))
}

/// `c` is one of the names in `pool`.
pub open spec fn in_pool(pool: Seq<Seq<Seq<char>>>, c: Seq<char>) -> bool {
    exists|k: int, m: int| 0 <= k < pool.len() && 0 <= m < pool[k].len() && pool[k][m] == c
}

/// `c` is the name of `pool` to suggest for `name`: within two edits, and no other name
/// that close ranks before it.
pub open spec fn is_closest(name: Seq<char>, pool: Seq<Seq<Seq<char>>>, c: Seq<char>) -> bool {
    &&& in_pool(pool, c)
    &&& distance(name, c) <= 2
    &&& forall|c2: Seq<char>|
        in_pool(pool, c2) && distance(name, c2) <= 2 ==> !ranked_before(
            distance(name, c2),
            c2,
            distance(name, c),
            c,
        )
}

/// The note `suggest` gives: "did you mean" the closest name, or nothing.
pub open spec fn suggestion(name: Seq<char>, pool: Seq<Seq<Seq<char>>>) -> Seq<char> {
    if exists|c: Seq<char>| is_closest(name, pool, c) {
        did_you_mean(choose|c: Seq<char>| is_closest(name, pool, c))
    } else {
        Seq::empty()
    }
}

/// There is only one closest name.
pub proof fn lemma_closest_unique(name: Seq<char>, pool: Seq<Seq<Seq<char>>>, a: Seq<char>, b: Seq<char>)
    requires
        is_closest(name, pool, a),
        is_closest(name, pool, b),
    ensures
        a == b,
{
    lemma_lex_total(a, b);
}

/// The note added to an error when `c` is the closest name.
pub open spec fn did_you_mean(c: Seq<char>) -> Seq<char> {
    " (did you mean `"@ + c + "`?)"@
}

/// A name of `pool` within two edits of `name`, the closest first and the first in
/// char order among equally close ones, as a note to append to an error; empty when
/// none is that close.
pub fn suggest(name: &str, pool: &[&[&str]]) -> (r: String)
    ensures
        r@ == suggestion(name@, names_of(pool@)),
{
    let n = chars_of(name);
    let mut best: Option<(usize, Vec<char>)> = None;
    let mut i: usize = 0;
    while i < pool.len()
        invariant
            i <= pool.len(),
            n@ == name@,
            best is None ==> forall|k: int, m: int|
                0 <= k < i && 0 <= m < pool@[k]@.len() ==> distance(name@, #[trigger] pool@[k]@[m]@)
                    > 2,
            best matches Some(bc) ==> {
                &&& bc.0 == distance(name@, bc.1@)
                &&& bc.0 <= 2
                &&& exists|k: int, m: int|
                    0 <= k < i && 0 <= m < pool@[k]@.len() && #[trigger] pool@[k]@[m]@ == bc.1@
                &&& forall|k: int, m: int|
                    0 <= k < i && 0 <= m < pool@[k]@.len() && distance(name@, #[trigger] pool@[k]@[m]@)
                        <= 2 ==> !ranked_before(
                        distance(name@, pool@[k]@[m]@),
                        pool@[k]@[m]@,
                        bc.0 as nat,
                        bc.1@,
                    )
            },
        decreases pool.len() - i,
    {
        let p = pool[i];
        let mut j: usize = 0;
        while j < p.len()
            invariant
                i < pool.len(),
                p == pool@[i as int],
                j <= p@.len(),
                n@ == name@,
                best is None ==> forall|k: int, m: int|
                    ((0 <= k < i && 0 <= m < pool@[k]@.len()) || (k == i && 0 <= m < j)) ==> distance(
                        name@,
                        #[trigger] pool@[k]@[m]@,
                    ) > 2,
                best matches Some(bc) ==> {
                    &&& bc.0 == distance(name@, bc.1@)
                    &&& bc.0 <= 2
                    &&& exists|k: int, m: int|
                        ((0 <= k < i && 0 <= m < pool@[k]@.len()) || (k == i && 0 <= m < j))
                            && #[trigger] pool@[k]@[m]@ == bc.1@
                    &&& forall|k: int, m: int|
                        ((0 <= k < i && 0 <= m < pool@[k]@.len()) || (k == i && 0 <= m < j))
                            && distance(name@, #[trigger] pool@[k]@[m]@) <= 2 ==> !ranked_before(
                            distance(name@, pool@[k]@[m]@),
                            pool@[k]@[m]@,
                            bc.0 as nat,
                            bc.1@,
                        )
                },
            decreases p@.len() - j,
        {
            let c = chars_of(p[j]);
            let d = edit_distance_chars(&n, &c);
            if d <= 2 {
                let take = match &best {
                    None => true,
                    Some((bd, bc)) => d < *bd || (d == *bd && lex_less(&c, bc)),
                };
                if take {
                    proof {
                        if let Some(bc) = best {
                            lemma_ranked_trans_total(
                                name@,
                                c@,
                                bc.1@,
                            );
                        }
                    }
                    best = Some((d, c));
                } else {
                    proof {
                        let bc = best->0;
                        lemma_lex_total(c@, bc.1@);
                    }
                }
            }
            proof {
                let w = pool@[i as int]@[j as int]@;
                assert(w == c@);
            }
            j += 1;
        }
        i += 1;
    }
    match best {
        None => {
            proof {
                let pv = names_of(pool@);
                if exists|c: Seq<char>| is_closest(name@, pv, c) {
                    let c = choose|c: Seq<char>| is_closest(name@, pv, c);
                    let (k, m) = choose|k: int, m: int|
                        0 <= k < pv.len() && 0 <= m < pv[k].len() && pv[k][m] == c;
                    assert(pv[k][m] == pool@[k]@[m]@);
                    assert(distance(name@, pool@[k]@[m]@) > 2);
                }
            }
            let r = String::new();
            assert(r@ =~= Seq::<char>::empty());
            r
        },
        Some((_, c)) => {
            let s = string_of(&c);
            let r = concat3(" (did you mean `", s.as_str(), "`?)");
            proof {
                let pv = names_of(pool@);
                assert forall|c2: Seq<char>|
                    in_pool(pv, c2) && distance(name@, c2) <= 2 implies !ranked_before(
                    distance(name@, c2),
                    c2,
                    distance(name@, c@),
                    c@,
                ) by {
                    let (k, m) = choose|k: int, m: int|
                        0 <= k < pv.len() && 0 <= m < pv[k].len() && pv[k][m] == c2;
                    assert(pv[k][m] == pool@[k]@[m]@);
                    assert(distance(name@, pool@[k]@[m]@) <= 2);
                }
                let (k, m) = choose|k: int, m: int|
                    0 <= k < pool@.len() && 0 <= m < pool@[k]@.len() && pool@[k]@[m]@ == c@;
                assert(pv[k][m] == pool@[k]@[m]@);
                assert(is_closest(name@, pv, c@));
                let w = choose|c: Seq<char>| is_closest(name@, pv, c);
                lemma_closest_unique(name@, pv, w, c@);
            }
            r
        },
    }
}

/// Whether `a` sorts before `b` char by char.
pub fn lex_less(a: &Vec<char>, b: &Vec<char>) -> (r: bool)
    ensures
        r == lex_lt(a@, b@),
{
    let mut k: usize = 0;
    while k < a.len() && k < b.len()
        invariant
            k <= a.len(),
            k <= b.len(),
            a@.take(k as int) == b@.take(k as int),
        decreases a.len() - k,
    {
        if a[k] != b[k] {
            let r = a[k] < b[k];
            proof {
                if !r {
                    assert forall|k2: int|
                        0 <= k2 <= a@.len() && k2 <= b@.len() && a@.take(k2) == b@.take(k2) implies !(
                    (k2 == a@.len() && k2 < b@.len()) || (k2 < a@.len() && k2 < b@.len() && a@[k2]
                        < b@[k2])) by {
                        lemma_common_prefix(a@, b@, k as int, k2);
                    }
                } else {
                    assert(a@.take(k as int) == b@.take(k as int));
                }
            }
            return r;
        }
        assert(a@.take(k + 1) =~= a@.take(k as int).push(a@[k as int]));
        assert(b@.take(k + 1) =~= b@.take(k as int).push(b@[k as int]));
        k += 1;
    }
    let r = k == a.len() && k < b.len();
    proof {
        if !r {
            assert forall|k2: int|
                0 <= k2 <= a@.len() && k2 <= b@.len() && a@.take(k2) == b@.take(k2) implies !((k2
                == a@.len() && k2 < b@.len()) || (k2 < a@.len() && k2 < b@.len() && a@[k2] < b@[k2])) by {
                if k2 > k as int {
                    assert(a@.take(k2)[k as int] == b@.take(k2)[k as int]);
                }
                if k2 < k as int {
                    assert(a@.take(k as int)[k2] == b@.take(k as int)[k2]);
                }
            }
        }
    }
    r
}

/// Two sequences that agree on their first `k` chars and differ at `k` (or end there)
/// share no longer prefix.
proof fn lemma_common_prefix(a: Seq<char>, b: Seq<char>, k: int, k2: int)
    requires
        0 <= k < a.len(),
        k < b.len(),
        a[k] != b[k],
        a.take(k) == b.take(k),
        0 <= k2 <= a.len(),
        k2 <= b.len(),
        a.take(k2) == b.take(k2),
    ensures
        k2 <= k,
        k2 == k || a[k2] == b[k2],
{
    if k2 > k {
        assert(a.take(k2)[k] == a[k]);
        assert(b.take(k2)[k] == b[k]);
        assert(a.take(k2)[k] == b.take(k2)[k]);
        assert(false);
    }
    if k2 < k {
        assert(a.take(k)[k2] == a[k2]);
        assert(b.take(k)[k2] == b[k2]);
        assert(a.take(k)[k2] == b.take(k)[k2]);
    }
}

/// Char order is total: of two different sequences one sorts first.
pub proof fn lemma_lex_total(a: Seq<char>, b: Seq<char>)
    ensures
        a == b || lex_lt(a, b) || lex_lt(b, a),
{
    assert(a.take(0) =~= b.take(0));
    lemma_lex_total_from(a, b, 0);
}

proof fn lemma_lex_total_from(a: Seq<char>, b: Seq<char>, k: int)
    requires
        0 <= k <= a.len(),
        k <= b.len(),
        a.take(k) == b.take(k),
    ensures
        a == b || lex_lt(a, b) || lex_lt(b, a),
    decreases a.len() - k,
{
    if k < a.len() && k < b.len() && a[k] == b[k] {
        assert(a.take(k + 1) =~= a.take(k).push(a[k]));
        assert(b.take(k + 1) =~= b.take(k).push(b[k]));
        lemma_lex_total_from(a, b, k + 1);
    } else if k == a.len() && k == b.len() {
        assert(a =~= a.take(k));
        assert(b =~= b.take(k));
    } else if k == a.len() {
        assert(lex_lt(a, b));
    } else if k == b.len() {
        assert(b.take(k) == a.take(k));
        assert(lex_lt(b, a));
    } else if a[k] < b[k] {
        assert(lex_lt(a, b));
    } else {
        assert(b.take(k) == a.take(k));
        assert(lex_lt(b, a));
    }
}

/// Char order is transitive and irreflexive.
pub proof fn lemma_lex_trans(a: Seq<char>, b: Seq<char>, c: Seq<char>)
    requires
        lex_lt(a, b),
        lex_lt(b, c),
    ensures
        lex_lt(a, c),
        !lex_lt(a, a),
{
    let k1 = choose|k: int|
        0 <= k <= a.len() && k <= b.len() && a.take(k) == b.take(k) && ((k == a.len() && k
            < b.len()) || (k < a.len() && k < b.len() && a[k] < b[k]));
    let k2 = choose|k: int|
        0 <= k <= b.len() && k <= c.len() && b.take(k) == c.take(k) && ((k == b.len() && k
            < c.len()) || (k < b.len() && k < c.len() && b[k] < c[k]));
    let k = if k1 <= k2 {
        k1
    } else {
        k2
    };
    assert forall|i: int| 0 <= i < k implies a[i] == c[i] by {
        assert(a.take(k1)[i] == b.take(k1)[i]);
        assert(b.take(k2)[i] == c.take(k2)[i]);
    }
    assert(a.take(k) =~= c.take(k));
    if k1 < k2 {
        if k1 < a.len() {
            assert(b.take(k2)[k1] == c.take(k2)[k1]);
        }
        assert(lex_lt(a, c));
    } else if k2 < k1 {
        assert(a.take(k1)[k2] == b.take(k1)[k2]);
        assert(lex_lt(a, c));
    } else {
        assert(lex_lt(a, c));
    }
    lemma_lex_irreflexive(a);
}

pub proof fn lemma_lex_irreflexive(a: Seq<char>)
    ensures
        !lex_lt(a, a),
{
}

/// Replacing the best with a better-ranked candidate keeps everything seen behind it.
proof fn lemma_ranked_trans_total(name: Seq<char>, c: Seq<char>, b: Seq<char>)
    ensures
        forall|x: Seq<char>|
            ranked_before(distance(name, x), x, distance(name, c), c) && ranked_before(
                distance(name, c),
                c,
                distance(name, b),
                b,
            ) ==> ranked_before(distance(name, x), x, distance(name, b), b),
        forall|x: Seq<char>|
            !ranked_before(distance(name, x), x, distance(name, b), b) && ranked_before(
                distance(name, c),
                c,
                distance(name, b),
                b,
            ) ==> !ranked_before(distance(name, x), x, distance(name, c), c),
{
    assert forall|x: Seq<char>|
        ranked_before(distance(name, x), x, distance(name, c), c) && ranked_before(
            distance(name, c),
            c,
            distance(name, b),
            b,
        ) implies ranked_before(distance(name, x), x, distance(name, b), b) by {
        if distance(name, x) == distance(name, c) && distance(name, c) == distance(name, b) {
            lemma_lex_trans(x, c, b);
        }
    }
}

} // verus!
