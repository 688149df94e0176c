//! A map from strings, kept in the order of its keys: what the engine walks in name
//! order (layouts, Icon Packs, a Module's legacy params).

use vstd::prelude::*;

use crate::format::{lex_less, lex_lt, lemma_lex_irreflexive, lemma_lex_total, lemma_lex_trans};
use crate::strs::{chars_of, str_eq};

verus! {

broadcast use vstd::string::group_string_axioms;

/// The keys of some entries.
pub open spec fn keys_of<V>(s: Seq<(String, V)>) -> Seq<Seq<char>> {
    s.map_values(|e: (String, V)| e.0@)
}

/// Keys in strictly ascending order.
pub open spec fn ascending_keys(ks: Seq<Seq<char>>) -> bool {
    forall|i: int, j: int| 0 <= i < j < ks.len() ==> lex_lt(ks[i], ks[j])
}

/// The map that putting the entries one by one makes: a later key replaces an earlier one.
pub open spec fn map_of<V>(s: Seq<(String, V)>) -> Map<Seq<char>, V>
    decreases s.len(),
{
    if s.len() == 0 {
        Map::empty()
    } else {
        map_of(s.drop_last()).insert(s.last().0@, s.last().1)
    }
}

/// A map from strings that keeps its keys in order.
pub struct Keyed<V> {
    entries: Vec<(String, V)>,
}

impl<V> View for Keyed<V> {
    type V = Map<Seq<char>, V>;

    closed spec fn view(&self) -> Map<Seq<char>, V> {
        map_of(self.entries@)
    }
}

fn str_less(a: &String, b: &String) -> (r: bool)
    ensures
        r == lex_lt(a@, b@),
{
    let x = chars_of(a.as_str());
    let y = chars_of(b.as_str());
    lex_less(&x, &y)
}

/// With ascending keys, `map_of` holds each key once, at its own entry.
pub proof fn lemma_map_of_ascending<V>(s: Seq<(String, V)>)
    requires
        ascending_keys(keys_of(s)),
    ensures
        forall|k: Seq<char>| #[trigger] map_of(s).dom().contains(k) <==> keys_of(s).contains(k),
        forall|i: int| 0 <= i < s.len() ==> #[trigger] map_of(s)[s[i].0@] == s[i].1,
    decreases s.len(),
{
    if s.len() > 0 {
        let p = s.drop_last();
        let last = s.last();
        let n = s.len() - 1;
        assert(keys_of(p) =~= keys_of(s).drop_last());
        assert(keys_of(s) =~= keys_of(p).push(last.0@));
        lemma_map_of_ascending(p);
        assert(map_of(s) == map_of(p).insert(last.0@, last.1));
        assert forall|k: Seq<char>| #[trigger] map_of(s).dom().contains(k) <==> keys_of(s).contains(k) by {
            if keys_of(s).contains(k) {
                let i = choose|i: int| 0 <= i < keys_of(s).len() && keys_of(s)[i] == k;
                if i < n {
                    assert(keys_of(p)[i] == k);
                    assert(map_of(p).dom().contains(k));
                }
            }
            if map_of(p).dom().contains(k) {
                assert(keys_of(p).contains(k));
                let i = choose|i: int| 0 <= i < keys_of(p).len() && keys_of(p)[i] == k;
                assert(keys_of(s)[i] == k);
            }
            if k == last.0@ {
                assert(keys_of(s)[n] == k);
            }
        }
        assert forall|i: int| 0 <= i < s.len() implies #[trigger] map_of(s)[s[i].0@] == s[i].1 by {
            if i < n {
                assert(p[i] == s[i]);
                assert(keys_of(s)[i] == s[i].0@);
                assert(keys_of(s)[n] == last.0@);
                assert(lex_lt(keys_of(s)[i], keys_of(s)[n]));
                lemma_lex_irreflexive(s[i].0@);
                assert(s[i].0@ != last.0@);
                assert(map_of(p)[p[i].0@] == p[i].1);
            }
        }
    }
}

impl<V> Keyed<V> {
    /// Keys ascending, so each occurs once.
    pub closed spec fn wf(&self) -> bool {
        ascending_keys(keys_of(self.entries@))
    }

    /// The keys, in order.
    pub closed spec fn keys(&self) -> Seq<Seq<char>> {
        keys_of(self.entries@)
    }

    /// The entries in key order, each key by its chars.
    pub closed spec fn items(&self) -> Seq<(Seq<char>, V)> {
        self.entries@.map_values(|e: (String, V)| (e.0@, e.1))
    }

    /// The items' keys are the keys.
    pub proof fn lemma_items(&self)
        ensures
            self.items().len() == self.keys().len(),
            forall|i: int| 0 <= i < self.keys().len() ==> #[trigger] self.items()[i].0 == self.keys()[i],
    {
    }

    /// A map whose entries, in key order, are `entries`.
    pub fn from_sorted(entries: Vec<(String, V)>) -> (r: Keyed<V>)
        requires
            ascending_keys(keys_of(entries@)),
        ensures
            r.wf(),
            r.items() == entries@.map_values(|e: (String, V)| (e.0@, e.1)),
            r.keys() == keys_of(entries@),
            r@ == map_of(entries@),
    {
        Keyed { entries }
    }

    pub fn new() -> (r: Keyed<V>)
        ensures
            r.wf(),
            r@ == Map::<Seq<char>, V>::empty(),
            r.keys() == Seq::<Seq<char>>::empty(),
    {
        let r = Keyed { entries: Vec::new() };
        assert(keys_of(r.entries@) =~= Seq::<Seq<char>>::empty());
        r
    }

    pub fn len(&self) -> (n: usize)
        requires
            self.wf(),
        ensures
            n == self.keys().len(),
    {
        self.entries.len()
    }

    /// The keys are exactly the map's keys, in ascending order.
    pub proof fn lemma_keys(&self)
        requires
            self.wf(),
        ensures
            ascending_keys(self.keys()),
            forall|k: Seq<char>| #[trigger] self@.dom().contains(k) <==> self.keys().contains(k),
    {
        lemma_map_of_ascending(self.entries@);
    }

    /// The entry at `i` in key order.
    pub fn at(&self, i: usize) -> (r: (&String, &V))
        requires
            self.wf(),
            i < self.keys().len(),
        ensures
            r.0@ == self.keys()[i as int],
            r.0@ == self.items()[i as int].0,
            *r.1 == self.items()[i as int].1,
            self@.dom().contains(r.0@),
            self@[r.0@] == *r.1,
    {
        proof {
            lemma_map_of_ascending(self.entries@);
            assert(keys_of(self.entries@)[i as int] == self.entries@[i as int].0@);
        }
        let e = &self.entries[i];
        (&e.0, &e.1)
    }

    /// The value put last under `k`.
    pub fn get(&self, k: &str) -> (r: Option<&V>)
        requires
            self.wf(),
        ensures
            match r {
                Some(v) => self@.dom().contains(k@) && self@[k@] == *v,
                None => !self@.dom().contains(k@),
            },
    {
        proof {
            lemma_map_of_ascending(self.entries@);
        }
        let mut i: usize = 0;
        while i < self.entries.len()
            invariant
                i <= self.entries.len(),
                self.wf(),
                forall|j: int| 0 <= j < i ==> self.entries@[j].0@ != k@,
            decreases self.entries.len() - i,
        {
            if str_eq(self.entries[i].0.as_str(), k) {
                proof {
                    lemma_map_of_ascending(self.entries@);
                    assert(map_of(self.entries@)[self.entries@[i as int].0@] == self.entries@[i as int].1);
                    assert(keys_of(self.entries@)[i as int] == k@);
                }
                return Some(&self.entries[i].1);
            }
            i += 1;
        }
        proof {
            if keys_of(self.entries@).contains(k@) {
                let j = choose|j: int| 0 <= j < keys_of(self.entries@).len() && keys_of(self.entries@)[j] == k@;
                assert(self.entries@[j].0@ == k@);
            }
        }
        None
    }

    /// The entries in key order, taken out of the map.
    pub fn into_entries(self) -> (r: Vec<(String, V)>)
        ensures
            r@.map_values(|e: (String, V)| (e.0@, e.1)) == self.items(),
            map_of(r@) == self@,
    {
        self.entries
    }

    /// Puts every entry of `other`, which wins where both have a key.
    pub fn extend(&mut self, other: Keyed<V>)
        requires
            old(self).wf(),
        ensures
            final(self).wf(),
            final(self)@ == old(self)@.union_prefer_right(other@),
    {
        let ghost orig = other.entries@;
        let mut rest = other.entries;
        let ghost start = self@;
        assert(orig.take(0) =~= Seq::<(String, V)>::empty());
        assert(start.union_prefer_right(map_of(orig.take(0))) =~= start);
        while rest.len() > 0
            invariant
                self.wf(),
                rest@ == orig.skip(orig.len() - rest.len()),
                rest.len() <= orig.len(),
                self@ == start.union_prefer_right(map_of(orig.take(orig.len() - rest.len()))),
            decreases rest.len(),
        {
            let ghost done = orig.len() - rest.len();
            let (k, v) = rest.remove(0);
            proof {
                assert(orig[done] == (k, v));
                assert(orig.take(done + 1).drop_last() =~= orig.take(done));
                assert(rest@ =~= orig.skip(done + 1));
            }
            let ghost before = self@;
            self.put(k, v);
            proof {
                let m = map_of(orig.take(done));
                assert(map_of(orig.take(done + 1)) == m.insert(orig[done].0@, orig[done].1));
                assert(self@ =~= start.union_prefer_right(m.insert(orig[done].0@, orig[done].1)));
            }
        }
        assert(orig.take(orig.len() as int) =~= orig);
    }

    /// Takes the value under `k` out of the map, if there is one.
    pub fn take(&mut self, k: &str) -> (r: Option<V>)
        requires
            old(self).wf(),
        ensures
            final(self).wf(),
            final(self)@ == old(self)@.remove(k@),
            r == (if old(self)@.dom().contains(k@) {
                Some(old(self)@[k@])
            } else {
                None::<V>
            }),
    {
        let ghost old_m = self.entries@;
        proof {
            lemma_map_of_ascending(old_m);
        }
        let mut j: usize = 0;
        while j < self.entries.len()
            invariant
                j <= self.entries.len(),
                self.entries@ == old_m,
                ascending_keys(keys_of(old_m)),
                old(self)@ == map_of(old_m),
                forall|x: int| 0 <= x < j ==> old_m[x].0@ != k@,
            decreases self.entries.len() - j,
        {
            if str_eq(self.entries[j].0.as_str(), k) {
                let (_, v) = self.entries.remove(j);
                proof {
                    lemma_map_of_ascending(old_m);
                    let nm = self.entries@;
                    let ok = keys_of(old_m);
                    assert(nm =~= old_m.remove(j as int));
                    assert(keys_of(nm) =~= ok.remove(j as int));
                    assert(ascending_keys(keys_of(nm))) by {
                        assert forall|a: int, b: int| 0 <= a < b < keys_of(nm).len() implies lex_lt(keys_of(nm)[a], keys_of(nm)[b]) by {
                            let a2 = if a < j { a } else { a + 1 };
                            let b2 = if b < j { b } else { b + 1 };
                            assert(keys_of(nm)[a] == ok[a2] && keys_of(nm)[b] == ok[b2]);
                        }
                    }
                    lemma_map_of_ascending(nm);
                    assert(ok[j as int] == k@);
                    assert(map_of(old_m)[old_m[j as int].0@] == old_m[j as int].1);
                    assert forall|key: Seq<char>| map_of(nm).dom().contains(key) <==> old(self)@.remove(k@).dom().contains(key) by {
                        if keys_of(nm).contains(key) {
                            let i = choose|i: int| 0 <= i < keys_of(nm).len() && keys_of(nm)[i] == key;
                            let i2 = if i < j { i } else { i + 1 };
                            assert(ok[i2] == key);
                            assert(ok.contains(key));
                            if key == k@ {
                                if i2 < j {
                                    assert(lex_lt(ok[i2], ok[j as int]));
                                } else {
                                    assert(lex_lt(ok[j as int], ok[i2]));
                                }
                                lemma_lex_irreflexive(key);
                            }
                        }
                        if ok.contains(key) && key != k@ {
                            let i = choose|i: int| 0 <= i < ok.len() && ok[i] == key;
                            assert(i != j);
                            let i2 = if i < j { i } else { i - 1 };
                            assert(keys_of(nm)[i2] == key);
                        }
                    }
                    assert forall|key: Seq<char>| map_of(nm).dom().contains(key) implies map_of(nm)[key] == old(self)@.remove(k@)[key] by {
                        let i = choose|i: int| 0 <= i < keys_of(nm).len() && keys_of(nm)[i] == key;
                        let i2 = if i < j { i } else { i + 1 };
                        assert(nm[i] == old_m[i2]);
                        assert(map_of(nm)[nm[i].0@] == nm[i].1);
                        assert(map_of(old_m)[old_m[i2].0@] == old_m[i2].1);
                    }
                    assert(map_of(nm) =~= old(self)@.remove(k@));
                }
                return Some(v);
            }
            j += 1;
        }
        proof {
            if keys_of(old_m).contains(k@) {
                let i = choose|i: int| 0 <= i < keys_of(old_m).len() && keys_of(old_m)[i] == k@;
                assert(old_m[i].0@ == k@);
            }
            assert(old(self)@.remove(k@) =~= old(self)@);
        }
        None
    }

    /// Puts `v` under `k`, replacing what was there.
    pub fn put(&mut self, k: String, v: V)
        requires
            old(self).wf(),
        ensures
            final(self).wf(),
            final(self)@ == old(self)@.insert(k@, v),
    {
        let ghost old_m = self.entries@;
        proof {
            lemma_map_of_ascending(old_m);
        }
        let mut j: usize = 0;
        while j < self.entries.len() && str_less(&self.entries[j].0, &k)
            invariant
                j <= self.entries.len(),
                self.entries@ == old_m,
                forall|x: int| 0 <= x < j ==> lex_lt(#[trigger] old_m[x].0@, k@),
            decreases self.entries.len() - j,
        {
            j += 1;
        }
        let ghost ok = keys_of(old_m);
        proof {
            lemma_lex_irreflexive(k@);
            assert forall|x: int| 0 <= x < j implies #[trigger] ok[x] != k@ by {
                assert(lex_lt(old_m[x].0@, k@));
            }
        }
        if j < self.entries.len() && str_eq(self.entries[j].0.as_str(), k.as_str()) {
            self.entries.set(j, (k, v));
            proof {
                let nm = self.entries@;
                assert(keys_of(nm) =~= ok);
                lemma_map_of_ascending(nm);
                assert forall|key: Seq<char>| map_of(nm).dom().contains(key) <==> old(self)@.insert(k@, v).dom().contains(key) by {
                    if key == k@ {
                        assert(keys_of(nm)[j as int] == key);
                    }
                }
                assert forall|key: Seq<char>| map_of(nm).dom().contains(key) implies map_of(nm)[key] == old(self)@.insert(k@, v)[key] by {
                    assert(keys_of(nm).contains(key));
                    let i = choose|i: int| 0 <= i < keys_of(nm).len() && keys_of(nm)[i] == key;
                    assert(nm[i].0@ == key);
                    assert(map_of(nm)[nm[i].0@] == nm[i].1);
                    if i != j {
                        assert(nm[i] == old_m[i]);
                        assert(map_of(old_m)[old_m[i].0@] == old_m[i].1);
                        assert(ok[i] == key);
                        assert(ok[j as int] == k@);
                        if key == k@ {
                            if i < j {
                                assert(lex_lt(ok[i], ok[j as int]));
                            } else {
                                assert(lex_lt(ok[j as int], ok[i]));
                            }
                            lemma_lex_irreflexive(key);
                        }
                    }
                }
                assert(map_of(nm) =~= old(self)@.insert(k@, v));
            }
        } else {
            proof {
                if j < self.entries.len() {
                    lemma_lex_total(ok[j as int], k@);
                    assert(lex_lt(k@, ok[j as int]));
                }
            }
            let ghost kk = k@;
            self.entries.insert(j, (k, v));
            proof {
                let nm = self.entries@;
                assert(keys_of(nm) =~= ok.insert(j as int, kk));
                assert forall|x: int, y: int| 0 <= x < y < keys_of(nm).len() implies lex_lt(keys_of(nm)[x], keys_of(nm)[y]) by {
                    let kn = keys_of(nm);
                    if y < j {
                    } else if y == j {
                        assert(kn[x] == ok[x]);
                    } else if x == j {
                        if y - 1 > j {
                            assert(lex_lt(ok[j as int], ok[y - 1]));
                            lemma_lex_trans(kk, ok[j as int], ok[y - 1]);
                        }
                    } else if x < j {
                        assert(lex_lt(ok[x], kk));
                        if y - 1 > j {
                            assert(lex_lt(ok[j as int], ok[y - 1]));
                            lemma_lex_trans(kk, ok[j as int], ok[y - 1]);
                        }
                        lemma_lex_trans(ok[x], kk, kn[y]);
                    } else {
                        assert(kn[x] == ok[x - 1] && kn[y] == ok[y - 1]);
                    }
                }
                lemma_map_of_ascending(nm);
                assert forall|key: Seq<char>| map_of(nm).dom().contains(key) <==> old(self)@.insert(kk, v).dom().contains(key) by {
                    if keys_of(nm).contains(key) {
                        let i = choose|i: int| 0 <= i < keys_of(nm).len() && keys_of(nm)[i] == key;
                        if i < j {
                            assert(ok[i] == key);
                        } else if i > j {
                            assert(ok[i - 1] == key);
                        }
                    }
                    if ok.contains(key) {
                        let i = choose|i: int| 0 <= i < ok.len() && ok[i] == key;
                        if i < j {
                            assert(keys_of(nm)[i] == key);
                        } else {
                            assert(keys_of(nm)[i + 1] == key);
                        }
                    }
                    if key == kk {
                        assert(keys_of(nm)[j as int] == key);
                    }
                }
                assert forall|key: Seq<char>| map_of(nm).dom().contains(key) implies map_of(nm)[key] == old(self)@.insert(kk, v)[key] by {
                    let i = choose|i: int| 0 <= i < keys_of(nm).len() && keys_of(nm)[i] == key;
                    assert(map_of(nm)[nm[i].0@] == nm[i].1);
                    if i < j {
                        assert(nm[i] == old_m[i]);
                        assert(map_of(old_m)[old_m[i].0@] == old_m[i].1);
                    } else if i > j {
                        assert(nm[i] == old_m[i - 1]);
                        assert(map_of(old_m)[old_m[i - 1].0@] == old_m[i - 1].1);
                        if key == kk {
                            assert(ok[i - 1] == kk);
                            if i - 1 > j {
                                assert(lex_lt(ok[j as int], ok[i - 1]));
                                lemma_lex_trans(kk, ok[j as int], ok[i - 1]);
                            }
                            lemma_lex_irreflexive(kk);
                        }
                    }
                }
                assert(map_of(nm) =~= old(self)@.insert(kk, v));
            }
        }
    }
}

} // verus!
