//! Modules: the parts of a Widget a user arranges (a gauge, a graph, a footer). A
//! definition declares slots that hold Modules; the Instance's saved layout, or the tier's
//! default, says which Module sits in which slot.

use vstd::prelude::*;

use crate::keyed::{ascending_keys, keys_of, map_of, Keyed};
use crate::strs::{chars_of, concat, concat3, ends_with, has_prefix, has_suffix, starts_with, str_eq, string_of_range};
use crate::format::{names_of, suggest, suggestion};
use crate::settings::{split_at_char, split_once};
use crate::theme::names_view;
use crate::widgets::meta::ModuleMeta;

verus! {

broadcast use vstd::string::group_string_axioms;

/// A slot a definition declares.
pub struct SlotDef {
    pub name: String,
    pub label: String,
}

/// One Module (or one item of a `for` Module) a build placed.
#[derive(Clone, Debug, PartialEq)]
pub struct Placed {
    pub id: String,
    pub module: String,
    pub label: String,
    /// The Module's node in the built tree.
    pub key: String,
}

/// A slot as a build filled it.
#[derive(Clone, Debug, PartialEq)]
pub struct PlacedSlot {
    pub name: String,
    pub label: String,
    pub key: String,
    pub modules: Vec<Placed>,
    /// Placed here, but the slot has no room for them at this size.
    pub cut: Vec<Placed>,
}

/// What a build placed: for Settings to draw a tray, drop targets and tabs.
#[derive(Clone, Debug, PartialEq)]
pub struct Arrangement {
    pub tier: String,
    pub slots: Vec<PlacedSlot>,
    /// Modules that exist but sit in no slot of this tier.
    pub hidden: Vec<Placed>,
}

/// The ids of some placed Modules.
pub open spec fn placed_ids(v: Seq<Placed>) -> Seq<Seq<char>> {
    v.map_values(|p: Placed| p.id@)
}

/// What a slot holds, as a layout saves it: its Modules, then the ones cut.
pub open spec fn slot_ids(s: PlacedSlot) -> Seq<Seq<char>> {
    placed_ids(s.modules@ + s.cut@)
}

/// The saved layout of some slots: slot name to what it holds, a later slot of the same
/// name replacing an earlier one.
pub open spec fn saved_layout(slots: Seq<PlacedSlot>) -> Map<Seq<char>, Seq<Seq<char>>>
    decreases slots.len(),
{
    if slots.len() == 0 {
        Map::empty()
    } else {
        saved_layout(slots.drop_last()).insert(slots.last().name@, slot_ids(slots.last()))
    }
}

/// Some strings by their chars.
pub open spec fn strs(v: Seq<String>) -> Seq<Seq<char>> {
    v.map_values(|s: String| s@)
}

fn push_ids(ids: &mut Vec<String>, from: &Vec<Placed>)
    ensures
        strs(final(ids)@) == strs(old(ids)@) + placed_ids(from@),
{
    let ghost start = strs(ids@);
    let mut j: usize = 0;
    while j < from.len()
        invariant
            j <= from.len(),
            strs(ids@) == start + placed_ids(from@.take(j as int)),
        decreases from.len() - j,
    {
        let ghost before = ids@;
        ids.push(from[j].id.clone());
        proof {
            assert(strs(ids@) =~= strs(before).push(from@[j as int].id@));
            assert(placed_ids(from@.take(j + 1)) =~= placed_ids(from@.take(j as int)).push(from@[j as int].id@));
        }
        j += 1;
    }
    assert(from@.take(from.len() as int) =~= from@);
}

impl Arrangement {
    /// The saved form of what is placed now, for one tier: each slot's Modules, then
    /// those cut, by slot name.
    pub fn as_layout(&self) -> (r: Keyed<Vec<String>>)
        ensures
            r.wf(),
            r@.dom() == saved_layout(self.slots@).dom(),
            forall|k: Seq<char>| #[trigger] r@.dom().contains(k) ==> strs(r@[k]@) == saved_layout(self.slots@)[k],
    {
        let mut r: Keyed<Vec<String>> = Keyed::new();
        let mut i: usize = 0;
        while i < self.slots.len()
            invariant
                i <= self.slots.len(),
                r.wf(),
                r@.dom() == saved_layout(self.slots@.take(i as int)).dom(),
                forall|k: Seq<char>| #[trigger] r@.dom().contains(k) ==> strs(r@[k]@) == saved_layout(self.slots@.take(i as int))[k],
            decreases self.slots.len() - i,
        {
            let s = &self.slots[i];
            let mut ids: Vec<String> = Vec::new();
            push_ids(&mut ids, &s.modules);
            push_ids(&mut ids, &s.cut);
            proof {
                assert(placed_ids(s.modules@ + s.cut@) =~= placed_ids(s.modules@) + placed_ids(s.cut@));
                assert(strs(ids@) =~= slot_ids(*s));
                assert(self.slots@.take(i + 1).drop_last() =~= self.slots@.take(i as int));
            }
            let ghost before = r@;
            let ghost v = ids;
            r.put(s.name.clone(), ids);
            proof {
                let sl = saved_layout(self.slots@.take(i + 1));
                assert(sl == saved_layout(self.slots@.take(i as int)).insert(s.name@, slot_ids(*s)));
                assert(r@.dom() =~= sl.dom());
                assert forall|k: Seq<char>| #[trigger] r@.dom().contains(k) implies strs(r@[k]@) == sl[k] by {
                    if k != s.name@ {
                        assert(before.dom().contains(k));
                    }
                }
            }
            i += 1;
        }
        assert(self.slots@.take(self.slots.len() as int) =~= self.slots@);
        r
    }
}

/// A layout entry names an instance: by its id, by its Module (every item of it), or by
/// a prefix of its id (`gauge:gpu*`).
pub open spec fn names_entry(entry: Seq<char>, id: Seq<char>, module: Seq<char>) -> bool {
    id == entry || module == entry || (has_suffix(entry, "*"@) && has_prefix(id, entry.drop_last()))
}

/// A Module that names no slot may go in any slot.
pub open spec fn fits_slot(slots: Seq<Seq<char>>, slot: Seq<char>) -> bool {
    slots.len() == 0 || slots.contains(slot)
}

/// The slots a Module may go in.
pub open spec fn module_slots(m: ModuleMeta) -> Seq<Seq<char>> {
    strs(m.slots@)
}

/// Whether a Module may be dropped in `slot`.
pub fn fits(m: &ModuleMeta, slot: &str) -> (r: bool)
    ensures
        r == fits_slot(module_slots(*m), slot@),
{
    if m.slots.len() == 0 {
        return true;
    }
    let mut i: usize = 0;
    while i < m.slots.len()
        invariant
            i <= m.slots.len(),
            forall|k: int| 0 <= k < i ==> m.slots@[k]@ != slot@,
        decreases m.slots.len() - i,
    {
        if str_eq(m.slots[i].as_str(), slot) {
            assert(module_slots(*m)[i as int] == slot@);
            return true;
        }
        i += 1;
    }
    proof {
        if module_slots(*m).contains(slot@) {
            let k = choose|k: int| 0 <= k < module_slots(*m).len() && module_slots(*m)[k] == slot@;
            assert(m.slots@[k]@ == slot@);
        }
    }
    false
}

/// Whether layout `entry` names the instance `id` of Module `module`.
pub fn names(entry: &str, id: &str, module: &str) -> (r: bool)
    ensures
        r == names_entry(entry@, id@, module@),
{
    if str_eq(id, entry) || str_eq(module, entry) {
        return true;
    }
    if !ends_with(entry, "*") {
        return false;
    }
    let cs = chars_of(entry);
    proof {
        reveal_strlit("*");
    }
    let p = string_of_range(&cs, 0, cs.len() - 1);
    assert(p@ =~= entry@.drop_last());
    starts_with(id, p.as_str())
}

/// Instance `i` (its id, and its Module by index) may be placed by layout entry `entry`
/// of `slot`.
pub open spec fn takes(modules: Seq<ModuleMeta>, insts: Seq<(String, usize)>, slot: Seq<char>, entry: Seq<char>, i: int) -> bool {
    let m = modules[insts[i].1 as int];
    names_entry(entry, insts[i].0@, m.name@) && fits_slot(module_slots(m), slot)
}

/// Every (slot, entry) of a layout, slot by slot in order, each slot's entries in order.
pub open spec fn layout_pairs(items: Seq<(Seq<char>, Vec<String>)>) -> Seq<(Seq<char>, Seq<char>)>
    decreases items.len(),
{
    if items.len() == 0 {
        Seq::empty()
    } else {
        layout_pairs(items.drop_last()) + items.last().1@.map_values(|e: String| (items.last().0, e@))
    }
}

/// Where slot `s`'s entries start among the layout's pairs.
pub open spec fn slot_start(items: Seq<(Seq<char>, Vec<String>)>, s: int) -> int {
    layout_pairs(items.take(s)).len() as int
}

/// The first pair from `q` on that takes instance `i`, or -1.
pub open spec fn first_pair_from(
    pairs: Seq<(Seq<char>, Seq<char>)>,
    modules: Seq<ModuleMeta>,
    insts: Seq<(String, usize)>,
    i: int,
    q: int,
) -> int
    decreases pairs.len() - q,
{
    if q < 0 || q >= pairs.len() {
        -1
    } else if takes(modules, insts, pairs[q].0, pairs[q].1, i) {
        q
    } else {
        first_pair_from(pairs, modules, insts, i, q + 1)
    }
}

/// The first pair of the layout that takes instance `i`, or -1: where it lands.
pub open spec fn landing(
    pairs: Seq<(Seq<char>, Seq<char>)>,
    modules: Seq<ModuleMeta>,
    insts: Seq<(String, usize)>,
    i: int,
) -> int {
    first_pair_from(pairs, modules, insts, i, 0)
}

/// The instances below `x` that pair `q` is the first to take, in order.
pub open spec fn claimed_upto(
    pairs: Seq<(Seq<char>, Seq<char>)>,
    modules: Seq<ModuleMeta>,
    insts: Seq<(String, usize)>,
    q: int,
    x: int,
) -> Seq<int>
    decreases x,
{
    if x <= 0 {
        Seq::empty()
    } else {
        let r = claimed_upto(pairs, modules, insts, q, x - 1);
        if landing(pairs, modules, insts, x - 1) == q {
            r.push(x - 1)
        } else {
            r
        }
    }
}

/// What `count` pairs from `q` on take, pair by pair.
pub open spec fn claims_from(
    pairs: Seq<(Seq<char>, Seq<char>)>,
    modules: Seq<ModuleMeta>,
    insts: Seq<(String, usize)>,
    q: int,
    count: int,
) -> Seq<int>
    decreases count,
{
    if count <= 0 {
        Seq::empty()
    } else {
        claims_from(pairs, modules, insts, q, count - 1) + claimed_upto(pairs, modules, insts, q + count - 1, insts.len() as int)
    }
}

/// The instances slot `s` holds: entry by entry, those that no earlier entry of the layout
/// takes and this one does, in instance order.
pub open spec fn slot_list(
    items: Seq<(Seq<char>, Vec<String>)>,
    modules: Seq<ModuleMeta>,
    insts: Seq<(String, usize)>,
    s: int,
) -> Seq<int> {
    claims_from(layout_pairs(items), modules, insts, slot_start(items, s), items[s].1.len() as int)
}

proof fn lemma_first_pair(
    pairs: Seq<(Seq<char>, Seq<char>)>,
    modules: Seq<ModuleMeta>,
    insts: Seq<(String, usize)>,
    i: int,
    q: int,
)
    requires
        0 <= q,
    ensures
        ({
            let f = first_pair_from(pairs, modules, insts, i, q);
            &&& f == -1 || (q <= f < pairs.len() && takes(modules, insts, pairs[f].0, pairs[f].1, i))
            &&& forall|p: int| q <= p < pairs.len() && (f == -1 || p < f) ==> !takes(modules, insts, pairs[p].0, pairs[p].1, i)
        }),
    decreases pairs.len() - q,
{
    if q < pairs.len() && !takes(modules, insts, pairs[q].0, pairs[q].1, i) {
        lemma_first_pair(pairs, modules, insts, i, q + 1);
    }
}

proof fn lemma_pairs_prefix(items: Seq<(Seq<char>, Vec<String>)>, k: int)
    requires
        0 <= k <= items.len(),
    ensures
        layout_pairs(items.take(k)).len() <= layout_pairs(items).len(),
        forall|j: int| 0 <= j < layout_pairs(items.take(k)).len() ==> #[trigger] layout_pairs(items.take(k))[j] == layout_pairs(items)[j],
    decreases items.len() - k,
{
    if k == items.len() {
        assert(items.take(k) =~= items);
    } else {
        lemma_pairs_prefix(items, k + 1);
        let t = items.take(k + 1);
        assert(t.drop_last() =~= items.take(k));
        let a = layout_pairs(items.take(k));
        let b = layout_pairs(t);
        assert(b == a + t.last().1@.map_values(|e: String| (t.last().0, e@)));
        assert forall|j: int| 0 <= j < a.len() implies #[trigger] a[j] == layout_pairs(items)[j] by {
            assert(b[j] == a[j]);
        }
    }
}

proof fn lemma_slot_pairs(items: Seq<(Seq<char>, Vec<String>)>, s: int)
    requires
        0 <= s < items.len(),
    ensures
        slot_start(items, s + 1) == slot_start(items, s) + items[s].1.len(),
        slot_start(items, s + 1) <= layout_pairs(items).len(),
        forall|t: int| 0 <= t < items[s].1.len() ==> #[trigger] layout_pairs(items)[slot_start(items, s) + t] == (items[s].0, items[s].1@[t]@),
{
    lemma_pairs_prefix(items, s + 1);
    assert(items.take(s + 1).drop_last() =~= items.take(s));
    let p = layout_pairs(items.take(s + 1));
    assert forall|t: int| 0 <= t < items[s].1.len() implies #[trigger] layout_pairs(items)[slot_start(items, s) + t] == (items[s].0, items[s].1@[t]@) by {
        assert(p[slot_start(items, s) + t] == (items[s].0, items[s].1@[t]@));
    }
}

/// Which instances go in which slot: each lands once, in the first slot whose layout
/// entry names it and that accepts its Module. Every slot of the layout is in the result,
/// holding indexes into `insts` (an instance's id and its Module's index in `modules`).
pub fn place(modules: &[ModuleMeta], insts: &[(String, usize)], layout: &Keyed<Vec<String>>) -> (r: Keyed<Vec<usize>>)
    requires
        layout.wf(),
        forall|i: int| 0 <= i < insts.len() ==> (#[trigger] insts@[i]).1 < modules.len(),
    ensures
        r.wf(),
        r.keys() == layout.keys(),
        forall|s: int| 0 <= s < r.keys().len() ==> (#[trigger] r.items()[s]).1@.map_values(|x: usize| x as int) == slot_list(
            layout.items(),
            modules@,
            insts@,
            s,
        ),
{
    let ghost items = layout.items();
    let ghost pairs = layout_pairs(items);
    let ghost ms = modules@;
    let ghost is = insts@;
    let n = insts.len();
    let mut used: Vec<bool> = Vec::new();
    while used.len() < n
        invariant
            used.len() <= n,
            forall|i: int| 0 <= i < used.len() ==> !used@[i],
        decreases n - used.len(),
    {
        used.push(false);
    }
    proof {
        layout.lemma_items();
    }
    let mut out: Vec<(String, Vec<usize>)> = Vec::new();
    let mut s: usize = 0;
    while s < layout.len()
        invariant
            layout.wf(),
            items == layout.items(),
            pairs == layout_pairs(items),
            ms == modules@,
            is == insts@,
            n == insts.len(),
            forall|i: int| 0 <= i < insts.len() ==> (#[trigger] insts@[i]).1 < modules.len(),
            items.len() == layout.keys().len(),
            forall|i: int| 0 <= i < layout.keys().len() ==> #[trigger] items[i].0 == layout.keys()[i],
            s <= items.len(),
            used.len() == n,
            forall|i: int| 0 <= i < n ==> used@[i] == (0 <= #[trigger] landing(pairs, ms, is, i) < slot_start(items, s as int)),
            keys_of(out@) == layout.keys().take(s as int),
            out.len() == s,
            forall|k: int| 0 <= k < s ==> (#[trigger] out@[k]).1@.map_values(|x: usize| x as int) == slot_list(items, ms, is, k),
        decreases items.len() - s,
    {
        let (slot, entries) = layout.at(s);
        proof {
            lemma_slot_pairs(items, s as int);
        }
        let ghost q0 = slot_start(items, s as int);
        let mut list: Vec<usize> = Vec::new();
        let mut t: usize = 0;
        while t < entries.len()
            invariant
                items == layout.items(),
                pairs == layout_pairs(items),
                ms == modules@,
                is == insts@,
                n == insts.len(),
                forall|i: int| 0 <= i < insts.len() ==> (#[trigger] insts@[i]).1 < modules.len(),
                s < items.len(),
                slot@ == items[s as int].0,
                *entries == items[s as int].1,
                q0 == slot_start(items, s as int),
                q0 + entries.len() <= pairs.len(),
                forall|tt: int| 0 <= tt < entries.len() ==> #[trigger] pairs[q0 + tt] == (items[s as int].0, entries@[tt]@),
                t <= entries.len(),
                used.len() == n,
                forall|i: int| 0 <= i < n ==> used@[i] == (0 <= #[trigger] landing(pairs, ms, is, i) < q0 + t),
                list@.map_values(|x: usize| x as int) == claims_from(pairs, ms, is, q0, t as int),
            decreases entries.len() - t,
        {
            let e = &entries[t];
            let ghost q = q0 + t;
            let mut x: usize = 0;
            while x < n
                invariant
                    pairs == layout_pairs(items),
                    ms == modules@,
                    is == insts@,
                    n == insts.len(),
                    forall|i: int| 0 <= i < insts.len() ==> (#[trigger] insts@[i]).1 < modules.len(),
                    0 <= q < pairs.len(),
                    pairs[q] == (slot@, e@),
                    x <= n,
                    used.len() == n,
                    forall|i: int| 0 <= i < n ==> used@[i] == (0 <= #[trigger] landing(pairs, ms, is, i) < q || (landing(pairs, ms, is, i) == q && i < x)),
                    list@.map_values(|v: usize| v as int) == claims_from(pairs, ms, is, q0, t as int) + claimed_upto(pairs, ms, is, q, x as int),
                decreases n - x,
            {
                let m = &modules[insts[x].1];
                let ok = names(e.as_str(), insts[x].0.as_str(), m.name.as_str()) && fits(m, slot.as_str());
                proof {
                    assert(ok == takes(ms, is, pairs[q].0, pairs[q].1, x as int));
                    lemma_first_pair(pairs, ms, is, x as int, 0);
                }
                let ghost before = list@;
                if !used[x] && ok {
                    used.set(x, true);
                    list.push(x);
                    proof {
                        assert(landing(pairs, ms, is, x as int) == q);
                        assert(list@.map_values(|v: usize| v as int) =~= before.map_values(|v: usize| v as int).push(x as int));
                    }
                } else {
                    proof {
                        if landing(pairs, ms, is, x as int) == q {
                            assert(takes(ms, is, pairs[q].0, pairs[q].1, x as int));
                        }
                    }
                }
                x += 1;
            }
            proof {
                assert(claims_from(pairs, ms, is, q0, t + 1) == claims_from(pairs, ms, is, q0, t as int) + claimed_upto(pairs, ms, is, q0 + t, n as int));
            }
            t += 1;
        }
        let ghost kept = out@;
        out.push((slot.clone(), list));
        proof {
            assert(keys_of(out@) =~= layout.keys().take(s + 1)) by {
                assert(keys_of(out@) =~= keys_of(kept).push(slot@));
            }
            assert(out@[s as int].1@.map_values(|x: usize| x as int) == slot_list(items, ms, is, s as int));
            assert forall|k: int| 0 <= k < s + 1 implies (#[trigger] out@[k]).1@.map_values(|x: usize| x as int) == slot_list(items, ms, is, k) by {
                if k < s {
                    assert(out@[k] == kept[k]);
                }
            }
        }
        s += 1;
    }
    proof {
        assert(keys_of(out@) =~= layout.keys());
        layout.lemma_keys();
    }
    let r = Keyed::from_sorted(out);
    proof {
        assert forall|k: int| 0 <= k < r.keys().len() implies (#[trigger] r.items()[k]).1@.map_values(|x: usize| x as int) == slot_list(items, ms, is, k) by {
            assert(r.items()[k].1 == out@[k].1);
        }
    }
    r
}


proof fn lemma_claimed_upto(
    pairs: Seq<(Seq<char>, Seq<char>)>,
    modules: Seq<ModuleMeta>,
    insts: Seq<(String, usize)>,
    q: int,
    x: int,
)
    ensures
        ({
            let r = claimed_upto(pairs, modules, insts, q, x);
            &&& forall|k: int| 0 <= k < r.len() ==> 0 <= #[trigger] r[k] < x && landing(pairs, modules, insts, r[k]) == q
            &&& forall|a: int, b: int| 0 <= a < b < r.len() ==> r[a] < r[b]
            &&& forall|y: int| 0 <= y < x && #[trigger] landing(pairs, modules, insts, y) == q ==> r.contains(y)
        }),
    decreases x,
{
    if x > 0 {
        lemma_claimed_upto(pairs, modules, insts, q, x - 1);
        let p = claimed_upto(pairs, modules, insts, q, x - 1);
        let r = claimed_upto(pairs, modules, insts, q, x);
        assert forall|y: int| 0 <= y < x && landing(pairs, modules, insts, y) == q implies r.contains(y) by {
            if y < x - 1 {
                let k = choose|k: int| 0 <= k < p.len() && p[k] == y;
                assert(r[k] == y);
            } else {
                assert(r[r.len() - 1] == y);
            }
        }
    }
}

proof fn lemma_claims_from(
    pairs: Seq<(Seq<char>, Seq<char>)>,
    modules: Seq<ModuleMeta>,
    insts: Seq<(String, usize)>,
    q: int,
    count: int,
)
    ensures
        ({
            let r = claims_from(pairs, modules, insts, q, count);
            let n = insts.len() as int;
            &&& forall|k: int| 0 <= k < r.len() ==> 0 <= #[trigger] r[k] < n && q <= landing(pairs, modules, insts, r[k]) < q + count
            &&& forall|a: int, b: int| 0 <= a < b < r.len() ==> r[a] != r[b]
            &&& forall|y: int| 0 <= y < n && q <= #[trigger] landing(pairs, modules, insts, y) < q + count ==> r.contains(y)
        }),
    decreases count,
{
    let n = insts.len() as int;
    if count > 0 {
        lemma_claims_from(pairs, modules, insts, q, count - 1);
        lemma_claimed_upto(pairs, modules, insts, q + count - 1, n);
        let p = claims_from(pairs, modules, insts, q, count - 1);
        let c = claimed_upto(pairs, modules, insts, q + count - 1, n);
        let r = claims_from(pairs, modules, insts, q, count);
        assert(r == p + c);
        assert forall|k: int| 0 <= k < r.len() implies 0 <= #[trigger] r[k] < n && q <= landing(pairs, modules, insts, r[k]) < q + count by {
            if k < p.len() {
                assert(r[k] == p[k]);
            } else {
                assert(r[k] == c[k - p.len()]);
            }
        }
        assert forall|a: int, b: int| 0 <= a < b < r.len() implies r[a] != r[b] by {
            if b < p.len() {
                assert(r[a] == p[a] && r[b] == p[b]);
            } else if a >= p.len() {
                assert(r[a] == c[a - p.len()] && r[b] == c[b - p.len()]);
            } else {
                assert(r[a] == p[a] && r[b] == c[b - p.len()]);
                assert(landing(pairs, modules, insts, p[a]) < q + count - 1);
            }
        }
        assert forall|y: int| 0 <= y < n && q <= landing(pairs, modules, insts, y) < q + count implies r.contains(y) by {
            if landing(pairs, modules, insts, y) < q + count - 1 {
                let k = choose|k: int| 0 <= k < p.len() && p[k] == y;
                assert(r[k] == y);
            } else {
                let k = choose|k: int| 0 <= k < c.len() && c[k] == y;
                assert(r[p.len() + k] == y);
            }
        }
    }
}

proof fn lemma_starts_grow(items: Seq<(Seq<char>, Vec<String>)>, a: int, b: int)
    requires
        0 <= a <= b <= items.len(),
    ensures
        slot_start(items, a) <= slot_start(items, b),
    decreases b - a,
{
    if a < b {
        lemma_starts_grow(items, a, b - 1);
        lemma_slot_pairs(items, b - 1);
    }
}

/// Where slot `s`'s instances landed: among its own pairs.
proof fn lemma_slot_list(
    items: Seq<(Seq<char>, Vec<String>)>,
    modules: Seq<ModuleMeta>,
    insts: Seq<(String, usize)>,
    s: int,
)
    requires
        0 <= s < items.len(),
    ensures
        ({
            let r = slot_list(items, modules, insts, s);
            let pairs = layout_pairs(items);
            &&& forall|k: int| 0 <= k < r.len() ==> 0 <= #[trigger] r[k] < insts.len()
                && slot_start(items, s) <= landing(pairs, modules, insts, r[k]) < slot_start(items, s + 1)
            &&& forall|a: int, b: int| 0 <= a < b < r.len() ==> r[a] != r[b]
            &&& forall|y: int| 0 <= y < insts.len() && slot_start(items, s) <= #[trigger] landing(pairs, modules, insts, y) < slot_start(items, s + 1) ==> r.contains(y)
        }),
{
    lemma_slot_pairs(items, s);
    lemma_claims_from(layout_pairs(items), modules, insts, slot_start(items, s), items[s].1.len() as int);
}

/// Each instance lands at most once: in one slot, and once in it.
pub proof fn lemma_lands_once(
    items: Seq<(Seq<char>, Vec<String>)>,
    modules: Seq<ModuleMeta>,
    insts: Seq<(String, usize)>,
    s1: int,
    a: int,
    s2: int,
    b: int,
)
    requires
        0 <= s1 < items.len(),
        0 <= s2 < items.len(),
        0 <= a < slot_list(items, modules, insts, s1).len(),
        0 <= b < slot_list(items, modules, insts, s2).len(),
        slot_list(items, modules, insts, s1)[a] == slot_list(items, modules, insts, s2)[b],
    ensures
        s1 == s2,
        a == b,
{
    lemma_slot_list(items, modules, insts, s1);
    lemma_slot_list(items, modules, insts, s2);
    if s1 < s2 {
        lemma_starts_grow(items, s1 + 1, s2);
    } else if s2 < s1 {
        lemma_starts_grow(items, s2 + 1, s1);
    }
}

/// An instance lands only in a slot one of whose entries names it and that accepts its
/// Module, and no entry before that one, in this slot or an earlier one, takes it.
pub proof fn lemma_lands_where_allowed(
    items: Seq<(Seq<char>, Vec<String>)>,
    modules: Seq<ModuleMeta>,
    insts: Seq<(String, usize)>,
    s: int,
    a: int,
)
    requires
        0 <= s < items.len(),
        0 <= a < slot_list(items, modules, insts, s).len(),
    ensures
        ({
            let i = slot_list(items, modules, insts, s)[a];
            let t = landing(layout_pairs(items), modules, insts, i) - slot_start(items, s);
            &&& 0 <= t < items[s].1.len()
            &&& takes(modules, insts, items[s].0, items[s].1@[t]@, i)
            &&& forall|p: int| 0 <= p < slot_start(items, s) + t ==> !takes(
                modules,
                insts,
                layout_pairs(items)[p].0,
                layout_pairs(items)[p].1,
                i,
            )
        }),
{
    let pairs = layout_pairs(items);
    let i = slot_list(items, modules, insts, s)[a];
    lemma_slot_list(items, modules, insts, s);
    lemma_slot_pairs(items, s);
    lemma_first_pair(pairs, modules, insts, i, 0);
    let t = landing(pairs, modules, insts, i) - slot_start(items, s);
    assert(pairs[slot_start(items, s) + t] == (items[s].0, items[s].1@[t]@));
}

/// An instance that an entry of slot `s` takes lands in slot `s` or in an earlier one.
pub proof fn lemma_lands_by_first_taker(
    items: Seq<(Seq<char>, Vec<String>)>,
    modules: Seq<ModuleMeta>,
    insts: Seq<(String, usize)>,
    s: int,
    t: int,
    i: int,
)
    requires
        0 <= s < items.len(),
        0 <= t < items[s].1.len(),
        0 <= i < insts.len(),
        takes(modules, insts, items[s].0, items[s].1@[t]@, i),
    ensures
        exists|s2: int| 0 <= s2 <= s && #[trigger] slot_list(items, modules, insts, s2).contains(i),
{
    let pairs = layout_pairs(items);
    lemma_slot_pairs(items, s);
    assert(pairs[slot_start(items, s) + t] == (items[s].0, items[s].1@[t]@));
    lemma_first_pair(pairs, modules, insts, i, 0);
    let p = landing(pairs, modules, insts, i);
    assert(0 <= p <= slot_start(items, s) + t);
    let s2 = slot_of(items, p, s);
    lemma_slot_list(items, modules, insts, s2);
    assert(slot_list(items, modules, insts, s2).contains(i));
}

/// The slot, at most `s`, among whose pairs pair `p` is.
proof fn slot_of(items: Seq<(Seq<char>, Vec<String>)>, p: int, s: int) -> (s2: int)
    requires
        0 <= s < items.len(),
        0 <= p < slot_start(items, s + 1),
    ensures
        0 <= s2 <= s,
        slot_start(items, s2) <= p < slot_start(items, s2 + 1),
    decreases s,
{
    lemma_slot_pairs(items, s);
    if p >= slot_start(items, s) {
        s
    } else {
        assert(s > 0) by {
            assert(items.take(0) =~= Seq::<(Seq<char>, Vec<String>)>::empty());
        }
        slot_of(items, p, s - 1)
    }
}


/// A tier's layout as a Widget file writes it: each slot, in order, with the layout
/// entries (Module names, or `module:item`) it holds.
pub struct TierLayout {
    pub tier: String,
    pub layout: Vec<(String, Vec<String>)>,
}

/// The Module a layout entry names: the part before its first `:`.
pub open spec fn entry_module(e: Seq<char>) -> Seq<char> {
    match split_once(e, ':') {
        Some((m, _)) => m,
        None => e,
    }
}

/// Where the first of `xs` that `known` lacks is, or -1.
pub open spec fn first_unknown(xs: Seq<Seq<char>>, known: Seq<Seq<char>>) -> int
    decreases xs.len(),
{
    if xs.len() == 0 {
        -1
    } else if !known.contains(xs[0]) {
        0
    } else {
        let k = first_unknown(xs.skip(1), known);
        if k < 0 {
            -1
        } else {
            k + 1
        }
    }
}

/// Where the first entry of `xs` naming a Module not in `known` is, or -1.
pub open spec fn first_unknown_module(xs: Seq<Seq<char>>, known: Seq<Seq<char>>) -> int
    decreases xs.len(),
{
    if xs.len() == 0 {
        -1
    } else if !known.contains(entry_module(xs[0])) {
        0
    } else {
        let k = first_unknown_module(xs.skip(1), known);
        if k < 0 {
            -1
        } else {
            k + 1
        }
    }
}

/// The first Module, in order, allowed into a slot that is not declared, as an error.
pub open spec fn modules_problem(ms: Seq<ModuleMeta>, slots: Seq<Seq<char>>) -> Option<Seq<char>>
    decreases ms.len(),
{
    if ms.len() == 0 {
        None
    } else {
        let k = first_unknown(names_view(ms[0].slots@), slots);
        if k >= 0 {
            let bad = ms[0].slots@[k]@;
            Some("modules."@ + ms[0].name@ + ".slots: unknown slot `"@ + bad + "`"@ + suggestion(bad, seq![slots]))
        } else {
            modules_problem(ms.skip(1), slots)
        }
    }
}

/// The first slot of `tier`'s layout, in order, that is not declared or holds an entry
/// naming no Module, as an error.
pub open spec fn layout_problem(
    tier: Seq<char>,
    layout: Seq<(String, Vec<String>)>,
    slots: Seq<Seq<char>>,
    mods: Seq<Seq<char>>,
) -> Option<Seq<char>>
    decreases layout.len(),
{
    if layout.len() == 0 {
        None
    } else {
        let slot = layout[0].0@;
        let entries = names_view(layout[0].1@);
        let k = first_unknown_module(entries, mods);
        if !slots.contains(slot) {
            Some("tiers."@ + tier + ".layout: unknown slot `"@ + slot + "`"@ + suggestion(slot, seq![slots]))
        } else if k >= 0 {
            Some(
                "tiers."@ + tier + ".layout."@ + slot + ": unknown module `"@ + entries[k] + "`"@ + suggestion(
                    entries[k],
                    seq![mods],
                ),
            )
        } else {
            layout_problem(tier, layout.skip(1), slots, mods)
        }
    }
}

/// The first tier, in order, whose layout has a problem.
pub open spec fn tiers_problem(ts: Seq<TierLayout>, slots: Seq<Seq<char>>, mods: Seq<Seq<char>>) -> Option<Seq<char>>
    decreases ts.len(),
{
    if ts.len() == 0 {
        None
    } else {
        match layout_problem(ts[0].tier@, ts[0].layout@, slots, mods) {
            Some(e) => Some(e),
            None => tiers_problem(ts.skip(1), slots, mods),
        }
    }
}

/// The Modules' names.
pub open spec fn module_names(ms: Seq<ModuleMeta>) -> Seq<Seq<char>> {
    ms.map_values(|m: ModuleMeta| m.name@)
}

/// What is wrong with a Widget's modules, first found first: no tier at all, a Module
/// allowed into an undeclared slot, or a tier laying out an undeclared slot or an
/// unknown Module; each error with the closest declared name, if one is close.
pub open spec fn module_set_problem(slots: Seq<Seq<char>>, ms: Seq<ModuleMeta>, ts: Seq<TierLayout>) -> Option<Seq<char>> {
    if ts.len() == 0 {
        Some("modules: declare at least one [tiers.<name>]"@)
    } else if modules_problem(ms, slots) is Some {
        modules_problem(ms, slots)
    } else {
        tiers_problem(ts, slots, module_names(ms))
    }
}

pub(crate) fn has_name(names: &Vec<String>, x: &str) -> (b: bool)
    ensures
        b == names_view(names@).contains(x@),
{
    let mut i: usize = 0;
    while i < names.len()
        invariant
            i <= names.len(),
            forall|j: int| 0 <= j < i ==> names@[j]@ != x@,
        decreases names.len() - i,
    {
        if str_eq(names[i].as_str(), x) {
            assert(names_view(names@)[i as int] == x@);
            return true;
        }
        i += 1;
    }
    proof {
        if names_view(names@).contains(x@) {
            let j = choose|j: int| 0 <= j < names_view(names@).len() && names_view(names@)[j] == x@;
            assert(names@[j]@ == x@);
        }
    }
    false
}

/// The suggestion among `names` for `name`.
pub(crate) fn suggest_among(name: &str, names: &Vec<String>) -> (r: String)
    ensures
        r@ == suggestion(name@, seq![names_view(names@)]),
{
    let mut refs: Vec<&str> = Vec::new();
    let mut i: usize = 0;
    while i < names.len()
        invariant
            i <= names.len(),
            refs.len() == i,
            forall|j: int| 0 <= j < i ==> (#[trigger] refs@[j])@ == names@[j]@,
        decreases names.len() - i,
    {
        refs.push(names[i].as_str());
        i += 1;
    }
    let pool: Vec<&[&str]> = vec![refs.as_slice()];
    assert(names_of(pool@) =~~= seq![names_view(names@)]);
    suggest(name, pool.as_slice())
}

/// Where the first of `xs` that `known` lacks is.
fn find_unknown(xs: &Vec<String>, known: &Vec<String>, by_module: bool) -> (r: Option<usize>)
    ensures
        ({
            let k = if by_module {
                first_unknown_module(names_view(xs@), names_view(known@))
            } else {
                first_unknown(names_view(xs@), names_view(known@))
            };
            match r {
                Some(i) => i == k && i < xs.len(),
                None => k == -1,
            }
        }),
{
    let ghost all = names_view(xs@);
    let ghost kn = names_view(known@);
    assert(all.skip(0) =~= all);
    let mut i: usize = 0;
    while i < xs.len()
        invariant
            i <= xs.len(),
            all == names_view(xs@),
            kn == names_view(known@),
            by_module ==> first_unknown_module(all, kn) == (if first_unknown_module(all.skip(i as int), kn) < 0 {
                -1
            } else {
                first_unknown_module(all.skip(i as int), kn) + i
            }),
            !by_module ==> first_unknown(all, kn) == (if first_unknown(all.skip(i as int), kn) < 0 {
                -1
            } else {
                first_unknown(all.skip(i as int), kn) + i
            }),
        decreases xs.len() - i,
    {
        assert(all.skip(i as int)[0] == xs@[i as int]@);
        assert(all.skip(i as int).skip(1) =~= all.skip(i + 1));
        let e = xs[i].as_str();
        let bad = if by_module {
            match split_at_char(e, ':') {
                Some((m, _)) => !has_name(known, m.as_str()),
                None => !has_name(known, e),
            }
        } else {
            !has_name(known, e)
        };
        if bad {
            return Some(i);
        }
        i += 1;
    }
    assert(all.skip(xs.len() as int) =~= Seq::<Seq<char>>::empty());
    None
}

/// The error message of `module_set_problem`, or nothing when the modules hold together.
pub fn validate_modules(slots: &Vec<String>, modules: &Vec<ModuleMeta>, tiers: &Vec<TierLayout>) -> (r: Result<(), String>)
    ensures
        match r {
            Ok(()) => module_set_problem(names_view(slots@), modules@, tiers@) is None,
            Err(e) => module_set_problem(names_view(slots@), modules@, tiers@) == Some(e@),
        },
{
    if tiers.len() == 0 {
        return Err(String::from_str("modules: declare at least one [tiers.<name>]"));
    }
    let ghost sv = names_view(slots@);
    assert(modules@.skip(0) =~= modules@);
    let mut i: usize = 0;
    while i < modules.len()
        invariant
            i <= modules.len(),
            tiers.len() > 0,
            sv == names_view(slots@),
            modules_problem(modules@, sv) == modules_problem(modules@.skip(i as int), sv),
        decreases modules.len() - i,
    {
        let m = &modules[i];
        assert(modules@.skip(i as int)[0] == *m);
        assert(modules@.skip(i as int).skip(1) =~= modules@.skip(i + 1));
        if let Some(k) = find_unknown(&m.slots, slots, false) {
            let bad = m.slots[k].as_str();
            let head = concat3("modules.", m.name.as_str(), ".slots: unknown slot `");
            let tail = concat("`", suggest_among(bad, slots).as_str());
            let e = concat3(head.as_str(), bad, tail.as_str());
            assert(e@ =~= "modules."@ + m.name@ + ".slots: unknown slot `"@ + bad@ + "`"@ + suggestion(bad@, seq![sv]));
            assert(names_view(m.slots@)[k as int] == bad@);
            return Err(e);
        }
        i += 1;
    }
    assert(modules@.skip(modules.len() as int) =~= Seq::<ModuleMeta>::empty());
    let mut names: Vec<String> = Vec::new();
    let mut j: usize = 0;
    while j < modules.len()
        invariant
            j <= modules.len(),
            names.len() == j,
            forall|x: int| 0 <= x < j ==> (#[trigger] names@[x])@ == modules@[x].name@,
        decreases modules.len() - j,
    {
        names.push(modules[j].name.clone());
        j += 1;
    }
    assert(names_view(names@) =~= module_names(modules@));
    let ghost mv = module_names(modules@);
    assert(tiers@.skip(0) =~= tiers@);
    let mut t: usize = 0;
    while t < tiers.len()
        invariant
            t <= tiers.len(),
            tiers.len() > 0,
            sv == names_view(slots@),
            mv == names_view(names@),
            mv == module_names(modules@),
            modules_problem(modules@, sv) is None,
            tiers_problem(tiers@, sv, mv) == tiers_problem(tiers@.skip(t as int), sv, mv),
        decreases tiers.len() - t,
    {
        let tl = &tiers[t];
        assert(tiers@.skip(t as int)[0] == *tl);
        assert(tiers@.skip(t as int).skip(1) =~= tiers@.skip(t + 1));
        let ghost tv = tl.tier@;
        let ghost lay = tl.layout@;
        assert(lay.skip(0) =~= lay);
        let mut s: usize = 0;
        while s < tl.layout.len()
            invariant
                s <= tl.layout.len(),
                lay == tl.layout@,
                tv == tl.tier@,
                t < tiers.len(),
                *tl == tiers@[t as int],
                sv == names_view(slots@),
                mv == names_view(names@),
                mv == module_names(modules@),
                modules_problem(modules@, sv) is None,
                tiers_problem(tiers@, sv, mv) == tiers_problem(tiers@.skip(t as int), sv, mv),
                tiers@.skip(t as int)[0] == *tl,
                tiers@.skip(t as int).skip(1) == tiers@.skip(t + 1),
                layout_problem(tv, lay, sv, mv) == layout_problem(tv, lay.skip(s as int), sv, mv),
            decreases tl.layout.len() - s,
        {
            let (slot, entries) = (&tl.layout[s].0, &tl.layout[s].1);
            assert(lay.skip(s as int)[0] == tl.layout@[s as int]);
            assert(lay.skip(s as int).skip(1) =~= lay.skip(s + 1));
            if !has_name(slots, slot.as_str()) {
                let head = concat3("tiers.", tl.tier.as_str(), ".layout: unknown slot `");
                let tail = concat("`", suggest_among(slot.as_str(), slots).as_str());
                let e = concat3(head.as_str(), slot.as_str(), tail.as_str());
                assert(e@ =~= "tiers."@ + tv + ".layout: unknown slot `"@ + slot@ + "`"@ + suggestion(slot@, seq![sv]));
                return Err(e);
            }
            if let Some(k) = find_unknown(entries, &names, true) {
                let bad = entries[k].as_str();
                let head = concat3("tiers.", tl.tier.as_str(), ".layout.");
                let mid = concat3(slot.as_str(), ": unknown module `", bad);
                let tail = concat("`", suggest_among(bad, &names).as_str());
                let e = concat3(head.as_str(), mid.as_str(), tail.as_str());
                assert(names_view(entries@)[k as int] == bad@);
                assert(e@ =~= "tiers."@ + tv + ".layout."@ + slot@ + ": unknown module `"@ + bad@ + "`"@ + suggestion(bad@, seq![mv]));
                return Err(e);
            }
            s += 1;
        }
        assert(lay.skip(tl.layout.len() as int) =~= Seq::<(String, Vec<String>)>::empty());
        t += 1;
    }
    assert(tiers@.skip(tiers.len() as int) =~= Seq::<TierLayout>::empty());
    Ok(())
}

} // verus!
