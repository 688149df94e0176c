//! Add a widget's catalog: every Widget on its category's shelf, the known categories
//! first in their own order, then the others by name, then Other; by name on a shelf.

use vstd::prelude::*;

use crate::format::{lemma_lex_irreflexive, lemma_lex_total, lemma_lex_trans, lex_less, lex_lt};
use crate::strs::{chars_of, str_eq};

verus! {

broadcast use vstd::string::group_string_axioms;

/// The shelf of a Widget whose meta names category `cat`: none is Other.
pub open spec fn shelf(cat: Seq<char>) -> Seq<char> {
    if cat.len() == 0 {
        "Other"@
    } else {
        cat
    }
}

/// Where a shelf stands: Time, System, Media, Launchers, then any other, then Other.
pub open spec fn shelf_rank(c: Seq<char>) -> int {
    if c == "Time"@ {
        0
    } else if c == "System"@ {
        1
    } else if c == "Media"@ {
        2
    } else if c == "Launchers"@ {
        3
    } else if c == "Other"@ {
        5
    } else {
        4
    }
}

/// `(shelf, name)` `a` sorts before `b`: by the shelf's rank, then the shelf's name,
/// then the Widget's name, each compared char by char.
pub open spec fn sorts_before(a: (Seq<char>, Seq<char>), b: (Seq<char>, Seq<char>)) -> bool {
    shelf_rank(a.0) < shelf_rank(b.0) || (shelf_rank(a.0) == shelf_rank(b.0) && (lex_lt(a.0, b.0) || (a.0
        == b.0 && lex_lt(a.1, b.1))))
}

/// A Widget `(id, category, name)` by its shelf and name.
pub open spec fn entry_key(w: (String, String, String)) -> (Seq<char>, Seq<char>) {
    (shelf(w.1@), w.2@)
}

/// Widget `i` is listed before Widget `j`: it sorts first, or they tie and it came first.
pub open spec fn listed_before(ws: Seq<(String, String, String)>, i: int, j: int) -> bool {
    sorts_before(entry_key(ws[i]), entry_key(ws[j])) || (entry_key(ws[i]) == entry_key(ws[j]) && i < j)
}

/// `order` lists each of the Widgets `ws` once, by index, in catalog order.
pub open spec fn in_catalog_order(ws: Seq<(String, String, String)>, order: Seq<usize>) -> bool {
    &&& order.len() == ws.len()
    &&& forall|a: int| 0 <= a < order.len() ==> order[a] < ws.len()
    &&& forall|a: int, b: int|
        0 <= a < b < order.len() ==> listed_before(ws, #[trigger] order[a] as int, #[trigger] order[b] as int)
}

/// Of two different `(shelf, name)` pairs one sorts first, never both, and the order
/// carries over.
pub proof fn lemma_sorts_before_order(a: (Seq<char>, Seq<char>), b: (Seq<char>, Seq<char>), c: (Seq<char>, Seq<char>))
    ensures
        !sorts_before(a, a),
        a != b ==> sorts_before(a, b) || sorts_before(b, a),
        sorts_before(a, b) && sorts_before(b, c) ==> sorts_before(a, c),
{
    lemma_lex_irreflexive(a.0);
    lemma_lex_irreflexive(a.1);
    lemma_lex_total(a.0, b.0);
    lemma_lex_total(a.1, b.1);
    if a.0 != b.0 && lex_lt(a.0, b.0) && lex_lt(b.0, a.0) {
        lemma_lex_trans(a.0, b.0, a.0);
    }
    if a.1 != b.1 && lex_lt(a.1, b.1) && lex_lt(b.1, a.1) {
        lemma_lex_trans(a.1, b.1, a.1);
    }
    if sorts_before(a, b) && sorts_before(b, c) {
        if lex_lt(a.0, b.0) && lex_lt(b.0, c.0) {
            lemma_lex_trans(a.0, b.0, c.0);
        }
        if lex_lt(a.1, b.1) && lex_lt(b.1, c.1) {
            lemma_lex_trans(a.1, b.1, c.1);
        }
    }
}

/// The shelves the catalog knows, in the order it shows them.
pub open spec fn known_shelves() -> Seq<Seq<char>> {
    seq!["Time"@, "System"@, "Media"@, "Launchers"@]
}

/// The catalog shows its shelves in order: of two Widgets listed one after the other, the
/// later one is never on an earlier known shelf (Time, System, Media, Launchers); a
/// Widget on a known shelf never follows one that is not; and after a Widget on Other (or
/// with no category) come only Widgets on Other.
pub proof fn lemma_shelves_in_order(ws: Seq<(String, String, String)>, order: Seq<usize>, a: int, b: int)
    requires
        in_catalog_order(ws, order),
        0 <= a < b < order.len(),
    ensures
        ({
            let x = ws[order[a] as int].1@;
            let y = ws[order[b] as int].1@;
            &&& forall|p: int, q: int| 0 <= p < q < 4 ==> !(x == known_shelves()[q] && y == known_shelves()[p])
            &&& known_shelves().contains(y) ==> known_shelves().contains(x)
            &&& (x.len() == 0 || x == "Other"@) ==> (y.len() == 0 || y == "Other"@)
            &&& shelf(x) == shelf(y) ==> !lex_lt(ws[order[b] as int].2@, ws[order[a] as int].2@)
            &&& (!known_shelves().contains(x) && !known_shelves().contains(y) && x.len() > 0 && y.len() > 0 && x != "Other"@
                && y != "Other"@) ==> !lex_lt(y, x)
        }),
{
    reveal_strlit("Time");
    reveal_strlit("System");
    reveal_strlit("Media");
    reveal_strlit("Launchers");
    reveal_strlit("Other");
    let i = order[a] as int;
    let j = order[b] as int;
    assert(listed_before(ws, i, j));
    let x = ws[i].1@;
    let y = ws[j].1@;
    let k = known_shelves();
    assert(shelf_rank(shelf(x)) <= shelf_rank(shelf(y)));
    assert("Time"@[0] != "System"@[0] && "Time"@[0] != "Media"@[0] && "Time"@[0] != "Launchers"@[0]);
    assert("Time"@[0] != "Other"@[0] && "System"@[0] != "Media"@[0] && "System"@[0] != "Launchers"@[0]);
    assert("System"@[0] != "Other"@[0] && "Media"@[0] != "Launchers"@[0] && "Media"@[0] != "Other"@[0]);
    assert("Launchers"@[0] != "Other"@[0]);
    assert(forall|q: int| 0 <= q < 4 ==> shelf_rank(k[q]) == q && k[q].len() > 0);
    assert(shelf_rank("Other"@) == 5);
    assert forall|c: Seq<char>| !k.contains(c) && c.len() > 0 implies shelf_rank(c) >= 4 by {
        if c == "Time"@ {
            assert(k[0] == c);
        } else if c == "System"@ {
            assert(k[1] == c);
        } else if c == "Media"@ {
            assert(k[2] == c);
        } else if c == "Launchers"@ {
            assert(k[3] == c);
        }
    }
    if k.contains(y) {
        let q = choose|q: int| 0 <= q < 4 && k[q] == y;
        assert(shelf(y) == y);
        if !k.contains(x) {
            if x.len() > 0 {
                assert(shelf(x) == x);
            } else {
                assert(shelf(x) == "Other"@);
            }
        }
    }
    lemma_lex_irreflexive(x);
    lemma_lex_irreflexive(ws[i].2@);
    if lex_lt(y, x) && lex_lt(x, y) {
        lemma_lex_trans(x, y, x);
    }
    if lex_lt(ws[j].2@, ws[i].2@) && lex_lt(ws[i].2@, ws[j].2@) {
        lemma_lex_trans(ws[i].2@, ws[j].2@, ws[i].2@);
    }
    if x.len() == 0 || x == "Other"@ {
        assert(shelf_rank(shelf(x)) == 5);
        if !(y.len() == 0 || y == "Other"@) {
            assert(shelf(y) == y);
            if k.contains(y) {
                let q = choose|q: int| 0 <= q < 4 && k[q] == y;
            }
        }
    }
}

/// Listing order is a strict total order on the Widgets.
proof fn lemma_listed_order(ws: Seq<(String, String, String)>, i: int, j: int, k: int)
    ensures
        !listed_before(ws, i, i),
        i != j ==> listed_before(ws, i, j) || listed_before(ws, j, i),
        listed_before(ws, i, j) && listed_before(ws, j, k) ==> listed_before(ws, i, k),
{
    let (a, b, c) = (entry_key(ws[i]), entry_key(ws[j]), entry_key(ws[k]));
    lemma_sorts_before_order(a, b, c);
    lemma_sorts_before_order(b, a, c);
    lemma_sorts_before_order(a, c, b);
    lemma_sorts_before_order(b, c, a);
}

fn shelf_of(cat: &str) -> (r: String)
    ensures
        r@ == shelf(cat@),
{
    if cat.is_empty() {
        String::from_str("Other")
    } else {
        String::from_str(cat)
    }
}

fn rank_of(c: &str) -> (r: u8)
    ensures
        r == shelf_rank(c@),
{
    if str_eq(c, "Time") {
        0
    } else if str_eq(c, "System") {
        1
    } else if str_eq(c, "Media") {
        2
    } else if str_eq(c, "Launchers") {
        3
    } else if str_eq(c, "Other") {
        5
    } else {
        4
    }
}

/// Whether Widget `i` is listed before Widget `j`.
fn listed_first(ws: &Vec<(String, String, String)>, i: usize, j: usize) -> (r: bool)
    requires
        i < ws.len(),
        j < ws.len(),
    ensures
        r == listed_before(ws@, i as int, j as int),
{
    let (ci, cj) = (shelf_of(ws[i].1.as_str()), shelf_of(ws[j].1.as_str()));
    let (ri, rj) = (rank_of(ci.as_str()), rank_of(cj.as_str()));
    if ri != rj {
        return ri < rj;
    }
    let (ai, aj) = (chars_of(ci.as_str()), chars_of(cj.as_str()));
    if lex_less(&ai, &aj) {
        return true;
    }
    if !str_eq(ci.as_str(), cj.as_str()) {
        proof {
            lemma_lex_total(ci@, cj@);
        }
        return false;
    }
    let (ni, nj) = (chars_of(ws[i].2.as_str()), chars_of(ws[j].2.as_str()));
    if lex_less(&ni, &nj) {
        return true;
    }
    str_eq(ws[i].2.as_str(), ws[j].2.as_str()) && i < j
}

/// The Widgets `(id, category, name)`, by index, in catalog order: see `in_catalog_order`.
pub fn catalog_order(ws: &Vec<(String, String, String)>) -> (order: Vec<usize>)
    ensures
        in_catalog_order(ws@, order@),
{
    let mut order: Vec<usize> = Vec::new();
    let mut i: usize = 0;
    while i < ws.len()
        invariant
            i <= ws.len(),
            order.len() == i,
            forall|a: int| 0 <= a < order.len() ==> order@[a] < i,
            forall|a: int, b: int|
                0 <= a < b < order.len() ==> listed_before(ws@, #[trigger] order@[a] as int, #[trigger] order@[b] as int),
        decreases ws.len() - i,
    {
        let mut p: usize = 0;
        while p < order.len() && !listed_first(ws, i, order[p])
            invariant
                p <= order.len(),
                i < ws.len(),
                forall|a: int| 0 <= a < order.len() ==> order@[a] < i,
                forall|a: int| 0 <= a < p ==> listed_before(ws@, #[trigger] order@[a] as int, i as int),
            decreases order.len() - p,
        {
            proof {
                lemma_listed_order(ws@, i as int, order@[p as int] as int, 0);
            }
            p += 1;
        }
        let ghost old_order = order@;
        order.insert(p, i);
        proof {
            assert forall|a: int, b: int| 0 <= a < b < order@.len() implies listed_before(
                ws@,
                #[trigger] order@[a] as int,
                #[trigger] order@[b] as int,
            ) by {
                if b == p {
                    assert(order@[a] == old_order[a]);
                } else if a == p {
                    assert(order@[b] == old_order[b - 1]);
                    if b - 1 > p {
                        assert(listed_before(ws@, old_order[p as int] as int, old_order[b - 1] as int));
                        lemma_listed_order(ws@, i as int, old_order[p as int] as int, old_order[b - 1] as int);
                    }
                } else if b < p {
                    assert(order@[a] == old_order[a] && order@[b] == old_order[b]);
                } else if a < p {
                    assert(order@[a] == old_order[a] && order@[b] == old_order[b - 1]);
                    assert(listed_before(ws@, old_order[a] as int, i as int));
                    if b - 1 >= p {
                        if b - 1 > p {
                            assert(listed_before(ws@, old_order[p as int] as int, old_order[b - 1] as int));
                            lemma_listed_order(ws@, i as int, old_order[p as int] as int, old_order[b - 1] as int);
                        }
                        lemma_listed_order(ws@, old_order[a] as int, i as int, old_order[b - 1] as int);
                    }
                } else {
                    assert(order@[a] == old_order[a - 1] && order@[b] == old_order[b - 1]);
                }
            }
        }
        i += 1;
    }
    order
}

/// The Widgets of a catalog as `(id, shelf)`, in catalog order.
pub open spec fn shelved(ws: Seq<(String, String, String)>, order: Seq<usize>) -> Seq<(Seq<char>, Seq<char>)> {
    order.map_values(|i: usize| (ws[i as int].0@, shelf(ws[i as int].1@)))
}

/// Every Widget `(id, category, name)` the catalog has, as `(id, shelf)`, in catalog order.
pub fn catalog(ws: &Vec<(String, String, String)>) -> (r: Vec<(String, String)>)
    ensures
        exists|order: Seq<usize>|
            in_catalog_order(ws@, order) && #[trigger] shelved(ws@, order) == r@.map_values(
                |p: (String, String)| (p.0@, p.1@),
            ),
{
    let order = catalog_order(ws);
    let mut r: Vec<(String, String)> = Vec::new();
    let mut k: usize = 0;
    while k < order.len()
        invariant
            k <= order.len(),
            in_catalog_order(ws@, order@),
            r.len() == k,
            forall|a: int| 0 <= a < k ==> (#[trigger] r@[a]).0@ == ws@[order@[a] as int].0@ && r@[a].1@ == shelf(
                ws@[order@[a] as int].1@,
            ),
        decreases order.len() - k,
    {
        let w = &ws[order[k]];
        r.push((w.0.clone(), shelf_of(w.1.as_str())));
        k += 1;
    }
    assert(shelved(ws@, order@) =~= r@.map_values(|p: (String, String)| (p.0@, p.1@)));
    r
}

} // verus!
