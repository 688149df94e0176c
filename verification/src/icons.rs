//! Which uploaded images stay on the GPU, and which image ids are read from files.

use vstd::prelude::*;

use crate::format::{lex_less, lex_lt, lemma_lex_irreflexive, lemma_lex_total, lemma_lex_trans};
use crate::images::Decoded;
use crate::keyed::Keyed;
use crate::paths::{
    components, components_of, extension, extension_of, file_name, file_name_of, file_stem, lowercase, parts_view, root_part, same_chars,
    stem, to_lowercase,
};
use crate::strs::{concat, find_from, find_str, chars_of, first_index, has_prefix, lemma_first_index, split_chars, split_on, starts_with, str_eq, string_of, string_of_range};
use crate::thumbs::{PREFIX, Thumbs};

verus! {

broadcast use vstd::string::group_string_axioms;

/// The id of the generic icon.
pub const GENERIC: &'static str = "icon:generic";

/// What separates the fields of an `icon:` id: pack, target, explicit icon path.
pub const ID_SEP: char = '|';

/// Decoded pixels of an icon, RGBA8.
pub struct Rgba {
    pub px: Vec<u8>,
    pub w: u32,
    pub h: u32,
}

/// The files an Icon Pack may hold for `target`, in the order they are tried: its file
/// stem and then its whole file name, lower-cased, each with `.png`; none when the
/// target names no file.
pub open spec fn pack_candidates(target: Seq<char>) -> Seq<Seq<char>> {
    match file_name(components(target)) {
        Some(n) => seq![lowercase(stem(target)) + ".png"@, lowercase(n) + ".png"@],
        None => Seq::empty(),
    }
}

/// See `pack_candidates`.
pub fn pack_names(target: &str) -> (r: Vec<String>)
    ensures
        r@.map_values(|s: String| s@) == pack_candidates(target@),
{
    match file_name_of(target) {
        Some(n) => {
            let a = concat(to_lowercase(file_stem(target).as_str()).as_str(), ".png");
            let b = concat(to_lowercase(n.as_str()).as_str(), ".png");
            let r = vec![a, b];
            assert(r@.map_values(|s: String| s@) =~= pack_candidates(target@));
            r
        },
        None => {
            let r: Vec<String> = Vec::new();
            assert(r@.map_values(|s: String| s@) =~= pack_candidates(target@));
            r
        },
    }
}

/// An image read from a file: a `file:` image, a `thumb:` copy, or an app icon from an
/// Icon Pack other than the default one.
pub open spec fn read_from_files(id: Seq<char>) -> bool {
    ||| has_prefix(id, "file:"@)
    ||| has_prefix(id, "thumb:"@)
    ||| (has_prefix(id, "icon:"@) && {
        let rest = id.skip("icon:"@.len() as int);
        let i = first_index(rest, ID_SEP);
        i >= 0 && rest.take(i) != "Default"@ && i > 0
    })
}

/// A `file:` image, or an app icon that may come from an Icon Pack.
pub fn from_files(id: &str) -> (r: bool)
    ensures
        r == read_from_files(id@),
{
    if starts_with(id, "file:") || starts_with(id, PREFIX) {
        return true;
    }
    if !starts_with(id, "icon:") {
        return false;
    }
    let cs = chars_of(id);
    proof {
        reveal_strlit("icon:");
    }
    let rest = string_of_range(&cs, 5, cs.len());
    assert(rest@ =~= id@.skip("icon:"@.len() as int));
    let rs = chars_of(rest.as_str());
    let mut i: usize = 0;
    while i < rs.len() && rs[i] != ID_SEP
        invariant
            i <= rs.len(),
            forall|k: int| 0 <= k < i ==> rs@[k] != ID_SEP,
        decreases rs.len() - i,
    {
        i += 1;
    }
    proof {
        lemma_first_index(rs@, ID_SEP);
        let f = first_index(rs@, ID_SEP);
        if f >= 0 && f < i {
            assert(rs@[f] != ID_SEP);
        }
        if i < rs.len() && f >= 0 && f > i {
            assert(rs@[i as int] != ID_SEP);
        }
    }
    if i == rs.len() {
        return false;
    }
    let pack = string_of_range(&rs, 0, i);
    assert(pack@ =~= rs@.take(i as int));
    !str_eq(pack.as_str(), "Default") && i > 0
}

/// Images no window draws that stay on the GPU, so a gallery flipping between a few
/// pictures does not decode them again. Past this, the longest unused go first.
pub const IDLE_BUDGET: u64 = 67108864;

/// An image id with its size in bytes.
pub type Entry = (Seq<char>, u64);

/// The sizes of the loaded images: the last size given for an id counts.
pub open spec fn loaded_map(l: Seq<Entry>) -> Map<Seq<char>, u64>
    decreases l.len(),
{
    if l.len() == 0 {
        Map::empty()
    } else {
        loaded_map(l.drop_last()).insert(l.last().0, l.last().1)
    }
}

/// The ids of some entries.
pub open spec fn ids(s: Seq<Entry>) -> Seq<Seq<char>> {
    s.map_values(|e: Entry| e.0)
}

/// The idle images that stay idle: still loaded and not drawn.
pub open spec fn still_idle(idle: Seq<Entry>, lm: Map<Seq<char>, u64>, drawn: Seq<Seq<char>>) -> Seq<Entry>
    decreases idle.len(),
{
    if idle.len() == 0 {
        Seq::empty()
    } else {
        let r = still_idle(idle.drop_last(), lm, drawn);
        let e = idle.last();
        if lm.dom().contains(e.0) && !drawn.contains(e.0) {
            r.push(e)
        } else {
            r
        }
    }
}

/// Entries in strictly ascending order of id.
pub open spec fn ascending(s: Seq<Entry>) -> bool {
    forall|i: int, j: int| 0 <= i < j < s.len() ==> lex_lt(s[i].0, s[j].0)
}

/// `a` is the loaded, undrawn images that just went idle, by id, with their sizes.
pub open spec fn newly_idle(a: Seq<Entry>, kept: Seq<Entry>, lm: Map<Seq<char>, u64>, drawn: Seq<Seq<char>>) -> bool {
    &&& ascending(a)
    &&& forall|i: int|
        0 <= i < a.len() ==> lm.dom().contains(#[trigger] a[i].0) && a[i].1 == lm[a[i].0]
            && !drawn.contains(a[i].0) && !ids(kept).contains(a[i].0)
    &&& forall|id: Seq<char>|
        lm.dom().contains(id) && !drawn.contains(id) && !ids(kept).contains(id) ==> ids(a).contains(
            id,
        )
}

/// The bytes the entries take together.
pub open spec fn bytes(s: Seq<Entry>) -> nat
    decreases s.len(),
{
    if s.len() == 0 {
        0
    } else {
        s[0].1 as nat + bytes(s.drop_first())
    }
}

/// Dropping the first `k` of `f` is the least that brings it within `budget`, or all of
/// it when nothing does.
pub open spec fn evicts(f: Seq<Entry>, k: int, budget: u64) -> bool {
    &&& 0 <= k <= f.len()
    &&& (k == f.len() || bytes(f.skip(k)) <= budget)
    &&& forall|j: int| 0 <= j < k ==> bytes(f.skip(j)) > budget
}

/// What settling does: the idle images that are no longer loaded or are drawn again
/// leave; loaded, undrawn images that were not idle join, in id order, with their last
/// given size; then the oldest go, the fewest that bring the rest within `budget` (or all
/// of them). `after` is what stays idle, `dropped` what went.
pub open spec fn settles(
    before: Seq<Entry>,
    loaded: Seq<Entry>,
    drawn: Seq<Seq<char>>,
    budget: u64,
    after: Seq<Entry>,
    dropped: Seq<Seq<char>>,
) -> bool {
    let lm = loaded_map(loaded);
    let kept = still_idle(before, lm, drawn);
    exists|a: Seq<Entry>, k: int|
        {
            &&& newly_idle(a, kept, lm, drawn)
            &&& evicts(kept + a, k, budget)
            &&& after == (kept + a).skip(k)
            &&& dropped == ids((kept + a).take(k))
        }
}

/// What stays idle is idle before, loaded and undrawn, each id once if it was so before.
proof fn lemma_still_idle(idle: Seq<Entry>, lm: Map<Seq<char>, u64>, drawn: Seq<Seq<char>>)
    ensures
        forall|i: int| 0 <= i < still_idle(idle, lm, drawn).len() ==> {
            let e = #[trigger] still_idle(idle, lm, drawn)[i];
            &&& lm.dom().contains(e.0)
            &&& !drawn.contains(e.0)
            &&& idle.contains(e)
        },
        ids(idle).no_duplicates() ==> ids(still_idle(idle, lm, drawn)).no_duplicates(),
    decreases idle.len(),
{
    if idle.len() > 0 {
        let p = idle.drop_last();
        lemma_still_idle(p, lm, drawn);
        let r = still_idle(p, lm, drawn);
        let e = idle.last();
        assert forall|i: int| 0 <= i < still_idle(idle, lm, drawn).len() implies {
            let x = #[trigger] still_idle(idle, lm, drawn)[i];
            &&& lm.dom().contains(x.0)
            &&& !drawn.contains(x.0)
            &&& idle.contains(x)
        } by {
            let x = still_idle(idle, lm, drawn)[i];
            if i < r.len() {
                assert(x == r[i]);
                let j = choose|j: int| 0 <= j < p.len() && p[j] == x;
                assert(idle[j] == x);
            } else {
                assert(x == e);
                assert(idle[idle.len() - 1] == e);
            }
        }
        if ids(idle).no_duplicates() {
            assert(ids(p) =~= ids(idle).drop_last());
            assert(ids(p).no_duplicates()) by {
                assert forall|a: int, b: int| 0 <= a < b < ids(p).len() implies ids(p)[a] != ids(p)[b] by {
                    assert(ids(p)[a] == ids(idle)[a] && ids(p)[b] == ids(idle)[b]);
                }
            }
            if lm.dom().contains(e.0) && !drawn.contains(e.0) {
                let q = ids(r.push(e));
                assert(ids(r.push(e)) =~= ids(r).push(e.0));
                assert forall|a: int, b: int| 0 <= a < b < q.len() implies q[a] != q[b] by {
                    if b == q.len() - 1 {
                        let x = r[a];
                        assert(q[a] == x.0);
                        let j = choose|j: int| 0 <= j < p.len() && p[j] == x;
                        assert(ids(idle)[j] == x.0);
                        assert(ids(idle)[idle.len() - 1] == e.0);
                    } else {
                        assert(q[a] == ids(r)[a] && q[b] == ids(r)[b]);
                    }
                }
            }
        }
    }
}

/// What settling drops it may drop: every image dropped or kept idle is loaded and not
/// drawn; what stays idle fits `budget`; and when something was dropped, keeping the last
/// one dropped would not fit, so no more went than needed. With no id idle twice before,
/// no id is dropped twice, nor both dropped and kept.
pub proof fn lemma_settle_drops_the_fewest(
    before: Seq<Entry>,
    loaded: Seq<Entry>,
    drawn: Seq<Seq<char>>,
    budget: u64,
    after: Seq<Entry>,
    dropped: Seq<Seq<char>>,
)
    requires
        settles(before, loaded, drawn, budget, after, dropped),
    ensures
        forall|i: int| 0 <= i < dropped.len() ==> loaded_map(loaded).dom().contains(#[trigger] dropped[i])
            && !drawn.contains(dropped[i]),
        forall|i: int| 0 <= i < after.len() ==> loaded_map(loaded).dom().contains((#[trigger] after[i]).0)
            && !drawn.contains(after[i].0),
        bytes(after) <= budget,
        dropped.len() > 0 ==> exists|e: Entry| #![trigger bytes(seq![e] + after)]
            e.0 == dropped.last() && bytes(seq![e] + after) > budget,
        ids(before).no_duplicates() ==> (dropped + ids(after)).no_duplicates(),
{
    let lm = loaded_map(loaded);
    let kept = still_idle(before, lm, drawn);
    let (a, k) = choose|a: Seq<Entry>, k: int|
        {
            &&& newly_idle(a, kept, lm, drawn)
            &&& evicts(kept + a, k, budget)
            &&& after == (kept + a).skip(k)
            &&& dropped == ids((kept + a).take(k))
        };
    lemma_still_idle(before, lm, drawn);
    let f = kept + a;
    assert forall|i: int| 0 <= i < f.len() implies lm.dom().contains((#[trigger] f[i]).0) && !drawn.contains(f[i].0) by {
        if i < kept.len() {
            assert(f[i] == kept[i]);
        } else {
            assert(f[i] == a[i - kept.len()]);
        }
    }
    assert forall|i: int| 0 <= i < dropped.len() implies lm.dom().contains(#[trigger] dropped[i]) && !drawn.contains(dropped[i]) by {
        assert(dropped[i] == f[i].0);
    }
    assert forall|i: int| 0 <= i < after.len() implies lm.dom().contains((#[trigger] after[i]).0) && !drawn.contains(after[i].0) by {
        assert(after[i] == f[i + k]);
    }
    if k == f.len() {
        assert(after =~= Seq::<Entry>::empty());
    }
    if dropped.len() > 0 {
        let e = f[k - 1];
        assert(f.skip(k - 1) =~= seq![e] + after);
        assert(e.0 == dropped.last());
        assert(bytes(seq![e] + after) > budget);
    }
    if ids(before).no_duplicates() {
        assert(dropped + ids(after) =~= ids(f)) by {
            assert(f.take(k) + f.skip(k) =~= f);
        }
        let q = ids(f);
        assert forall|x: int, y: int| 0 <= x < y < q.len() implies q[x] != q[y] by {
            if y < kept.len() {
                assert(q[x] == ids(kept)[x] && q[y] == ids(kept)[y]);
            } else if x < kept.len() {
                let j = y - kept.len();
                assert(q[y] == a[j].0);
                assert(!ids(kept).contains(a[j].0));
                assert(ids(kept)[x] == q[x]);
            } else {
                assert(lex_lt(a[x - kept.len()].0, a[y - kept.len()].0));
                if q[x] == q[y] {
                    lemma_lex_irreflexive(q[x]);
                }
            }
        }
    }
}

/// After `forget` (the GPU was rebuilt) nothing counts as uploaded. `svc` is the
/// service as `forget` leaves it; `flushed` is what a following `flush_files` hands back,
/// and `after` and `dropped` what a following `release_unused` keeps idle and drops while
/// the new GPU holds nothing. Neither drops an image, nothing stays idle, and no id
/// counts as tried before, so `ensure` uploads it afresh.
pub proof fn lemma_forgotten_starts_afresh(
    svc: IconService,
    flushed: Seq<Seq<char>>,
    drawn: Seq<Seq<char>>,
    after: Seq<Entry>,
    dropped: Seq<Seq<char>>,
    id: Seq<char>,
)
    requires
        svc.seen_ids() == Set::<Seq<char>>::empty(),
        svc.idle() == Seq::<Entry>::empty(),
        forall|x: Seq<char>| #[trigger] flushed.contains(x) <==> svc.seen_ids().contains(x) && read_from_files(x),
        settles(svc.idle(), Seq::<Entry>::empty(), drawn, IDLE_BUDGET, after, dropped),
    ensures
        !svc.seen_ids().contains(id),
        flushed.len() == 0,
        dropped.len() == 0,
        after.len() == 0,
{
    let idle = svc.idle();
    if flushed.len() > 0 {
        assert(flushed.contains(flushed[0]));
    }
    let lm = loaded_map(Seq::<Entry>::empty());
    let kept = still_idle(idle, lm, drawn);
    assert(kept =~= Seq::<Entry>::empty());
    let (a, k) = choose|a: Seq<Entry>, k: int|
        {
            &&& newly_idle(a, kept, lm, drawn)
            &&& evicts(kept + a, k, IDLE_BUDGET)
            &&& after == (kept + a).skip(k)
            &&& dropped == ids((kept + a).take(k))
        };
    if a.len() > 0 {
        assert(lm.dom().contains(a[0].0));
    }
    assert(a.len() == 0);
    assert(kept + a =~= Seq::<Entry>::empty());
}

/// Some strings as chars.
pub open spec fn strs(v: Seq<String>) -> Seq<Seq<char>> {
    v.map_values(|s: String| s@)
}

/// Entries as chars.
pub open spec fn entries(v: Seq<(String, u64)>) -> Seq<Entry> {
    v.map_values(|e: (String, u64)| (e.0@, e.1))
}

/// Which uploaded images no window draws any more, oldest first.
pub struct Residency {
    idle: Vec<(String, u64)>,
}

impl View for Residency {
    type V = Seq<Entry>;

    closed spec fn view(&self) -> Seq<Entry> {
        entries(self.idle@)
    }
}

proof fn lemma_bytes_bound(s: Seq<Entry>)
    ensures
        bytes(s) <= s.len() * 0xffff_ffff_ffff_ffff,
    decreases s.len(),
{
    if s.len() > 0 {
        lemma_bytes_bound(s.drop_first());
    }
}

fn contains_string(v: &Vec<String>, s: &String) -> (r: bool)
    ensures
        r == strs(v@).contains(s@),
{
    let mut i: usize = 0;
    while i < v.len()
        invariant
            i <= v.len(),
            forall|k: int| 0 <= k < i ==> v@[k]@ != s@,
        decreases v.len() - i,
    {
        if v[i] == *s {
            assert(strs(v@)[i as int] == s@);
            return true;
        }
        i += 1;
    }
    proof {
        if strs(v@).contains(s@) {
            let k = choose|k: int| 0 <= k < strs(v@).len() && strs(v@)[k] == s@;
            assert(v@[k]@ == s@);
        }
    }
    false
}

fn contains_id(v: &Vec<(String, u64)>, s: &String) -> (r: bool)
    ensures
        r == ids(entries(v@)).contains(s@),
{
    let mut i: usize = 0;
    while i < v.len()
        invariant
            i <= v.len(),
            forall|k: int| 0 <= k < i ==> v@[k].0@ != s@,
        decreases v.len() - i,
    {
        if v[i].0 == *s {
            assert(ids(entries(v@))[i as int] == s@);
            return true;
        }
        i += 1;
    }
    proof {
        if ids(entries(v@)).contains(s@) {
            let k = choose|k: int| 0 <= k < ids(entries(v@)).len() && ids(entries(v@))[k] == s@;
            assert(v@[k].0@ == s@);
        }
    }
    false
}

fn str_less(a: &String, b: &String) -> (r: bool)
    ensures
        r == lex_lt(a@, b@),
{
    let x = chars_of(a.as_str());
    let y = chars_of(b.as_str());
    lex_less(&x, &y)
}

/// The loaded images sorted by id, one entry per id, with the last size given.
fn sorted_loaded(loaded: &[(String, u64)]) -> (m: Vec<(String, u64)>)
    ensures
        ascending(entries(m@)),
        forall|id: Seq<char>|
            #![trigger loaded_map(entries(loaded@)).dom().contains(id)]
            #![trigger ids(entries(m@)).contains(id)]
            loaded_map(entries(loaded@)).dom().contains(id) <==> ids(entries(m@)).contains(id),
        forall|i: int|
            0 <= i < m.len() ==> #[trigger] m@[i].1 == loaded_map(entries(loaded@))[m@[i].0@],
{
    let mut m: Vec<(String, u64)> = Vec::new();
    let mut i: usize = 0;
    while i < loaded.len()
        invariant
            i <= loaded.len(),
            ascending(entries(m@)),
            forall|id: Seq<char>|
                loaded_map(entries(loaded@.take(i as int))).dom().contains(id) <==> ids(
                    entries(m@),
                ).contains(id),
            forall|k: int|
                0 <= k < m.len() ==> #[trigger] m@[k].1 == loaded_map(entries(loaded@.take(i as int)))[m@[k].0@],
        decreases loaded.len() - i,
    {
        let id = &loaded[i].0;
        let b = loaded[i].1;
        let ghost lm = loaded_map(entries(loaded@.take(i as int)));
        let ghost lm2 = loaded_map(entries(loaded@.take(i + 1)));
        proof {
            assert(entries(loaded@.take(i + 1)).drop_last() =~= entries(loaded@.take(i as int)));
            assert(lm2 == lm.insert(id@, b));
        }
        let mut j: usize = 0;
        while j < m.len() && str_less(&m[j].0, id)
            invariant
                j <= m.len(),
                forall|k: int| 0 <= k < j ==> lex_lt(#[trigger] m@[k].0@, id@),
            decreases m.len() - j,
        {
            j += 1;
        }
        let ghost old_m = entries(m@);
        proof {
            lemma_lex_irreflexive(id@);
            assert forall|k: int| 0 <= k < j implies #[trigger] old_m[k].0 != id@ by {
                assert(lex_lt(m@[k].0@, id@));
            }
        }
        if j < m.len() && m[j].0 == *id {
            m.set(j, (m[j].0.clone(), b));
            proof {
                let nm = entries(m@);
                assert forall|k: int| 0 <= k < nm.len() implies #[trigger] nm[k].0 == old_m[k].0 by {}
                assert(ids(nm) =~= ids(old_m));
                assert forall|x: int, y: int| 0 <= x < y < nm.len() implies lex_lt(nm[x].0, nm[y].0) by {
                    assert(nm[x].0 == old_m[x].0 && nm[y].0 == old_m[y].0);
                }
                assert forall|k: int| 0 <= k < m.len() implies #[trigger] m@[k].1 == lm2[m@[k].0@] by {
                    if k > j {
                        assert(lex_lt(old_m[j as int].0, old_m[k].0));
                        lemma_lex_irreflexive(old_m[k].0);
                    }
                }
                assert forall|x: Seq<char>| lm2.dom().contains(x) <==> ids(nm).contains(x) by {
                    if x == id@ {
                        assert(ids(nm)[j as int] == x);
                    }
                }
            }
        } else {
            proof {
                if j < m.len() {
                    lemma_lex_total(old_m[j as int].0, id@);
                    assert(lex_lt(id@, old_m[j as int].0));
                }
            }
            m.insert(j, (id.clone(), b));
            proof {
                let nm = entries(m@);
                assert(nm =~= old_m.insert(j as int, (id@, b)));
                assert forall|k: int| j < k < nm.len() implies lex_lt(id@, #[trigger] nm[k].0) by {
                    assert(nm[k] == old_m[k - 1]);
                    if k - 1 > j {
                        assert(lex_lt(old_m[j as int].0, old_m[k - 1].0));
                        lemma_lex_trans(id@, old_m[j as int].0, old_m[k - 1].0);
                    }
                }
                assert forall|x: int, y: int| 0 <= x < y < nm.len() implies lex_lt(nm[x].0, nm[y].0) by {
                    if y < j {
                        assert(nm[x] == old_m[x] && nm[y] == old_m[y]);
                    } else if y == j {
                        assert(nm[x] == old_m[x]);
                    } else if x == j {
                    } else if x < j {
                        assert(nm[x] == old_m[x]);
                        assert(lex_lt(id@, nm[y].0));
                        lemma_lex_trans(nm[x].0, id@, nm[y].0);
                    } else {
                        assert(nm[x] == old_m[x - 1] && nm[y] == old_m[y - 1]);
                    }
                }
                assert forall|k: int| 0 <= k < m.len() implies #[trigger] m@[k].1 == lm2[m@[k].0@] by {
                    if k < j {
                        assert(nm[k] == old_m[k]);
                    } else if k > j {
                        assert(nm[k] == old_m[k - 1]);
                        assert(lex_lt(id@, nm[k].0));
                        lemma_lex_irreflexive(id@);
                        assert(old_m[k - 1].0 != id@);
                        assert(m@[k].1 == old_m[k - 1].1);
                        assert(m@[k].1 == lm[old_m[k - 1].0]);
                    }
                }
                assert forall|x: Seq<char>| lm2.dom().contains(x) <==> ids(nm).contains(x) by {
                    lemma_ids_insert(old_m, j as int, (id@, b), x);
                }
            }
        }
        i += 1;
    }
    assert(loaded@.take(loaded.len() as int) =~= loaded@);
    m
}

proof fn lemma_ids_insert(s: Seq<Entry>, j: int, e: Entry, x: Seq<char>)
    requires
        0 <= j <= s.len(),
    ensures
        ids(s.insert(j, e)).contains(x) <==> (x == e.0 || ids(s).contains(x)),
{
    let t = s.insert(j, e);
    if ids(t).contains(x) {
        let k = choose|k: int| 0 <= k < ids(t).len() && ids(t)[k] == x;
        if k < j {
            assert(ids(s)[k] == x);
        } else if k > j {
            assert(ids(s)[k - 1] == x);
        }
    }
    if ids(s).contains(x) {
        let k = choose|k: int| 0 <= k < ids(s).len() && ids(s)[k] == x;
        if k < j {
            assert(ids(t)[k] == x);
        } else {
            assert(ids(t)[k + 1] == x);
        }
    }
    if x == e.0 {
        assert(ids(t)[j] == x);
    }
}

/// The entries of `ms` whose id is not drawn and not already idle, in order.
pub open spec fn fresh_of(ms: Seq<Entry>, kept: Seq<Entry>, drawn: Seq<Seq<char>>) -> Seq<Entry>
    decreases ms.len(),
{
    if ms.len() == 0 {
        Seq::empty()
    } else {
        let r = fresh_of(ms.drop_last(), kept, drawn);
        let e = ms.last();
        if !drawn.contains(e.0) && !ids(kept).contains(e.0) {
            r.push(e)
        } else {
            r
        }
    }
}

proof fn lemma_fresh_of(ms: Seq<Entry>, kept: Seq<Entry>, drawn: Seq<Seq<char>>)
    requires
        ascending(ms),
    ensures
        ascending(fresh_of(ms, kept, drawn)),
        forall|i: int|
            0 <= i < fresh_of(ms, kept, drawn).len() ==> ms.contains(#[trigger] fresh_of(ms, kept, drawn)[i])
                && !drawn.contains(fresh_of(ms, kept, drawn)[i].0) && !ids(kept).contains(
                fresh_of(ms, kept, drawn)[i].0,
            ),
        forall|i: int|
            0 <= i < ms.len() && !drawn.contains(#[trigger] ms[i].0) && !ids(kept).contains(ms[i].0)
                ==> fresh_of(ms, kept, drawn).contains(ms[i]),
    decreases ms.len(),
{
    if ms.len() > 0 {
        let p = ms.drop_last();
        assert(ascending(p)) by {
            assert forall|i: int, j: int| 0 <= i < j < p.len() implies lex_lt(p[i].0, p[j].0) by {
                assert(p[i] == ms[i] && p[j] == ms[j]);
            }
        }
        lemma_fresh_of(p, kept, drawn);
        let r = fresh_of(p, kept, drawn);
        let e = ms.last();
        assert forall|i: int| 0 <= i < r.len() implies lex_lt(#[trigger] r[i].0, e.0) by {
            assert(p.contains(r[i]));
            let k = choose|k: int| 0 <= k < p.len() && p[k] == r[i];
            assert(ms[k] == r[i]);
        }
        assert forall|i: int| 0 <= i < r.len() implies ms.contains(#[trigger] r[i]) by {
            let k = choose|k: int| 0 <= k < p.len() && p[k] == r[i];
            assert(ms[k] == r[i]);
        }
        assert forall|i: int|
            0 <= i < ms.len() && !drawn.contains(#[trigger] ms[i].0) && !ids(kept).contains(ms[i].0)
                implies fresh_of(ms, kept, drawn).contains(ms[i]) by {
            let f = fresh_of(ms, kept, drawn);
            if i < ms.len() - 1 {
                assert(p[i] == ms[i]);
                assert(r.contains(ms[i]));
                let k = choose|k: int| 0 <= k < r.len() && r[k] == ms[i];
                assert(f[k] == ms[i]);
            } else {
                assert(f[f.len() - 1] == ms[i]);
            }
        }
    }
}

fn fresh(m: &Vec<(String, u64)>, kept: &Vec<(String, u64)>, drawn: &Vec<String>) -> (r: Vec<(String, u64)>)
    ensures
        entries(r@) == fresh_of(entries(m@), entries(kept@), strs(drawn@)),
{
    let mut r: Vec<(String, u64)> = Vec::new();
    let mut j: usize = 0;
    while j < m.len()
        invariant
            j <= m.len(),
            entries(r@) == fresh_of(entries(m@).take(j as int), entries(kept@), strs(drawn@)),
        decreases m.len() - j,
    {
        proof {
            assert(entries(m@).take(j + 1).drop_last() =~= entries(m@).take(j as int));
            assert(entries(m@).take(j + 1).last() == (m@[j as int].0@, m@[j as int].1));
        }
        if !contains_string(drawn, &m[j].0) && !contains_id(kept, &m[j].0) {
            let ghost before = entries(r@);
            r.push((m[j].0.clone(), m[j].1));
            assert(entries(r@) =~= before.push((m@[j as int].0@, m@[j as int].1)));
        }
        j += 1;
    }
    assert(entries(m@).take(m.len() as int) =~= entries(m@));
    r
}

fn keep_idle(idle: &Vec<(String, u64)>, m: &Vec<(String, u64)>, drawn: &Vec<String>, Ghost(lm): Ghost<Map<Seq<char>, u64>>) -> (r: Vec<(String, u64)>)
    requires
        forall|id: Seq<char>| lm.dom().contains(id) <==> ids(entries(m@)).contains(id),
    ensures
        entries(r@) == still_idle(entries(idle@), lm, strs(drawn@)),
{
    let mut f: Vec<(String, u64)> = Vec::new();
    let mut i: usize = 0;
    while i < idle.len()
        invariant
            i <= idle.len(),
            forall|id: Seq<char>| lm.dom().contains(id) <==> ids(entries(m@)).contains(id),
            entries(f@) == still_idle(entries(idle@).take(i as int), lm, strs(drawn@)),
        decreases idle.len() - i,
    {
        proof {
            assert(entries(idle@).take(i + 1).drop_last() =~= entries(idle@).take(i as int));
            assert(entries(idle@).take(i + 1).last() == (idle@[i as int].0@, idle@[i as int].1));
        }
        if contains_id(m, &idle[i].0) && !contains_string(drawn, &idle[i].0) {
            let ghost before = entries(f@);
            f.push((idle[i].0.clone(), idle[i].1));
            assert(entries(f@) =~= before.push((idle@[i as int].0@, idle@[i as int].1)));
        }
        i += 1;
    }
    assert(entries(idle@).take(idle.len() as int) =~= entries(idle@));
    f
}

impl Residency {
    pub fn new() -> (r: Residency)
        ensures
            r@ == Seq::<Entry>::empty(),
    {
        let r = Residency { idle: Vec::new() };
        assert(r@ =~= Seq::<Entry>::empty());
        r
    }

    /// How many images are idle now.
    pub fn idle_len(&self) -> (n: usize)
        ensures
            n == self@.len(),
    {
        self.idle.len()
    }

    /// `loaded` is every image on the GPU with its size, `drawn` what some window draws
    /// now. Images that stop being loaded or start being drawn leave the idle list;
    /// loaded, undrawn images join it, by id; then the longest idle go, oldest first,
    /// until the rest fit in `budget` bytes. Returns the images to drop.
    pub fn settle(&mut self, loaded: &[(String, u64)], drawn: &Vec<String>, budget: u64) -> (r: Vec<String>)
        ensures
            settles(old(self)@, entries(loaded@), strs(drawn@), budget, final(self)@, strs(r@)),
    {
        let m = sorted_loaded(loaded);
        let ghost lm = loaded_map(entries(loaded@));
        let ghost d = strs(drawn@);
        let kept = keep_idle(&self.idle, &m, drawn, Ghost(lm));
        let ghost k0 = entries(kept@);
        let a_vec = fresh(&m, &kept, drawn);
        let ghost a = entries(a_vec@);
        proof {
            lemma_fresh_of(entries(m@), k0, d);
            assert forall|x: int| 0 <= x < a.len() implies lm.dom().contains(#[trigger] a[x].0) && a[x].1 == lm[a[x].0]
                && !d.contains(a[x].0) && !ids(k0).contains(a[x].0) by {
                assert(entries(m@).contains(a[x]));
                let y = choose|y: int| 0 <= y < entries(m@).len() && entries(m@)[y] == a[x];
                assert(entries(m@)[y] == (m@[y].0@, m@[y].1));
                assert(ids(entries(m@))[y] == a[x].0);
                assert(ids(entries(m@)).contains(a[x].0));
                assert(lm.dom().contains(a[x].0));
                assert(m@[y].1 == lm[m@[y].0@]);
            }
            assert forall|id: Seq<char>| lm.dom().contains(id) && !d.contains(id) && !ids(k0).contains(id) implies ids(a).contains(id) by {
                assert(ids(entries(m@)).contains(id));
                let y = choose|y: int| 0 <= y < ids(entries(m@)).len() && ids(entries(m@))[y] == id;
                assert(entries(m@)[y].0 == id);
                assert(a.contains(entries(m@)[y]));
                let x = choose|x: int| 0 <= x < a.len() && a[x] == entries(m@)[y];
                assert(ids(a)[x] == id);
            }
            assert(newly_idle(a, k0, lm, d));
        }
        let mut f = kept;
        let mut a_mut = a_vec;
        f.append(&mut a_mut);
        let ghost full = entries(f@);
        assert(full =~= k0 + a);
        // what they take together
        let mut total: u128 = 0;
        let mut t: usize = f.len();
        while t > 0
            invariant
                t <= f.len(),
                full == entries(f@),
                total == bytes(full.skip(t as int)),
            decreases t,
        {
            proof {
                lemma_bytes_bound(full.skip(t as int));
                assert(full.skip(t - 1).drop_first() =~= full.skip(t as int));
                assert(full.skip(t - 1)[0] == (f@[t - 1].0@, f@[t - 1].1));
                assert(bytes(full.skip(t as int)) <= 0xffff_ffff_ffff_ffff * 0xffff_ffff_ffff_ffff) by (nonlinear_arith)
                    requires
                        bytes(full.skip(t as int)) <= full.skip(t as int).len() * 0xffff_ffff_ffff_ffff,
                        full.skip(t as int).len() <= 0xffff_ffff_ffff_ffff;
            }
            t -= 1;
            total = total + f[t].1 as u128;
        }
        assert(full.skip(0) =~= full);
        // the longest idle go first
        let mut out: Vec<String> = Vec::new();
        let mut k: usize = 0;
        while k < f.len() && total > budget as u128
            invariant
                k <= f.len(),
                full == entries(f@),
                total == bytes(full.skip(k as int)),
                forall|x: int| 0 <= x < k ==> bytes(full.skip(x)) > budget,
                strs(out@) == ids(full.take(k as int)),
            decreases f.len() - k,
        {
            assert(full.skip(k as int).drop_first() =~= full.skip(k + 1));
            assert(full.skip(k as int)[0] == (f@[k as int].0@, f@[k as int].1));
            let ghost before = out@;
            total = total - f[k].1 as u128;
            out.push(f[k].0.clone());
            proof {
                assert(out@ == before.push(f@[k as int].0));
                assert(strs(out@) =~= strs(before).push(f@[k as int].0@));
                assert(ids(full.take(k + 1)) =~= ids(full.take(k as int)).push(full[k as int].0));
            }
            k += 1;
        }
        let mut rest: Vec<(String, u64)> = Vec::new();
        let mut x = k;
        while x < f.len()
            invariant
                k <= x <= f.len(),
                full == entries(f@),
                entries(rest@) == full.subrange(k as int, x as int),
            decreases f.len() - x,
        {
            let ghost before = entries(rest@);
            rest.push((f[x].0.clone(), f[x].1));
            proof {
                assert(entries(rest@) =~= before.push((f@[x as int].0@, f@[x as int].1)));
                assert(full[x as int] == (f@[x as int].0@, f@[x as int].1));
                assert(full.subrange(k as int, x + 1) =~= full.subrange(k as int, x as int).push(full[x as int]));
            }
            x += 1;
        }
        self.idle = rest;
        proof {
            assert(self@ =~= full.skip(k as int));
            assert(evicts(k0 + a, k as int, budget));
            assert(k0 == still_idle(old(self)@, lm, d));
            assert({
                &&& newly_idle(a, k0, lm, d)
                &&& evicts(k0 + a, k as int, budget)
                &&& self@ == (k0 + a).skip(k as int)
                &&& strs(out@) == ids((k0 + a).take(k as int))
            });
            assert(settles(old(self)@, entries(loaded@), d, budget, self@, strs(out@)));
        }
        out
    }

    /// Forgets every idle image.
    pub fn clear(&mut self)
        ensures
            final(self)@ == Seq::<Entry>::empty(),
    {
        self.idle = Vec::new();
        assert(self@ =~= Seq::<Entry>::empty());
    }
}


/// Pushing a new value keeps a sequence free of duplicates, and adds just that value.
pub proof fn lemma_push_new<T>(s: Seq<T>, v: T)
    requires
        s.no_duplicates(),
        !s.contains(v),
    ensures
        s.push(v).no_duplicates(),
        forall|x: T| #[trigger] s.push(v).contains(x) <==> s.contains(x) || x == v,
        s.push(v).to_set() == s.to_set().insert(v),
{
    let t = s.push(v);
    assert forall|a: int, b: int| 0 <= a < b < t.len() implies t[a] != t[b] by {
        if b == s.len() {
            assert(t[a] == s[a]);
        } else {
            assert(t[a] == s[a] && t[b] == s[b]);
        }
    }
    assert forall|x: T| #[trigger] t.contains(x) <==> s.contains(x) || x == v by {
        if t.contains(x) && x != v {
            let k = choose|k: int| 0 <= k < t.len() && t[k] == x;
            assert(s[k] == x);
        }
        if s.contains(x) {
            let k = choose|k: int| 0 <= k < s.len() && s[k] == x;
            assert(t[k] == x);
        }
        if x == v {
            assert(t[s.len() as int] == x);
        }
    }
    assert(t.to_set() =~= s.to_set().insert(v));
}

/// The ids of the first `n` images made.
pub open spec fn ids_in(v: Seq<(String, Option<Decoded>)>, n: int) -> Set<Seq<char>> {
    Set::new(|s: Seq<char>| exists|j: int| 0 <= j < n && v[j].0@ == s)
}

/// What `ensure` found to upload for an image id.
pub enum Upload {
    /// Nothing: the id is empty, already uploaded, queued as a small copy, or tried before.
    Skip,
    /// The generic icon.
    Generic,
    /// The picture in this file (the generic icon if it cannot be read).
    File(String),
    /// An app's icon: its target, an explicit icon path, and the Icon Pack folder its
    /// pack names, if there is one.
    Icon { target: String, explicit: String, pack_dir: Option<String> },
}

/// The three fields of an `icon:` id after the prefix: pack, target and explicit icon
/// path, each empty where the id has fewer.
pub open spec fn icon_fields(rest: Seq<char>) -> (Seq<char>, Seq<char>, Seq<char>) {
    let ps = split_on(rest, ID_SEP);
    (
        ps[0],
        if ps.len() > 1 {
            ps[1]
        } else {
            Seq::empty()
        },
        if ps.len() > 2 {
            ps[2]
        } else {
            Seq::empty()
        },
    )
}

/// Uploads images on demand and remembers which ids the GPU already has.
pub struct IconService {
    /// Icon Pack name to its folder, from every content root.
    packs: Keyed<String>,
    seen: Vec<String>,
    residency: Residency,
    /// `thumb:` images, made off the UI thread.
    thumbs: Thumbs,
}

fn copy_dir(d: Option<&String>) -> (r: Option<String>)
    ensures
        match r {
            Some(x) => d matches Some(y) && x@ == y@,
            None => d is None,
        },
{
    match d {
        Some(x) => Some(x.clone()),
        None => None,
    }
}

impl IconService {
    /// The ids uploaded, each once.
    pub closed spec fn seen_ids(&self) -> Set<Seq<char>> {
        strs(self.seen@).to_set()
    }

    /// Icon Pack name to folder.
    pub closed spec fn pack_dirs(&self) -> Map<Seq<char>, String> {
        self.packs@
    }

    /// The images that no window draws now, oldest first.
    pub closed spec fn idle(&self) -> Seq<Entry> {
        self.residency@
    }

    /// The small copies on their way.
    pub closed spec fn pending_thumbs(&self) -> Set<Seq<char>> {
        self.thumbs.pending_ids()
    }

    /// Where small copies are kept.
    pub closed spec fn thumb_cache(&self) -> Option<Seq<char>> {
        self.thumbs.cache_dir()
    }

    /// Its invariant: packs keyed in order, each id seen once.
    pub closed spec fn wf(&self) -> bool {
        &&& self.packs.wf()
        &&& strs(self.seen@).no_duplicates()
    }

    pub fn new(packs: Keyed<String>) -> (r: IconService)
        requires
            packs.wf(),
        ensures
            r.wf(),
            r.pack_dirs() == packs@,
            r.seen_ids() == Set::<Seq<char>>::empty(),
            r.idle() == Seq::<Entry>::empty(),
            r.pending_thumbs() == Set::<Seq<char>>::empty(),
            r.thumb_cache() is None,
    {
        let r = IconService { packs, seen: Vec::new(), residency: Residency::new(), thumbs: Thumbs::new() };
        assert(strs(r.seen@) =~= Seq::<Seq<char>>::empty());
        assert(r.seen_ids() =~= Set::<Seq<char>>::empty());
        r
    }

    pub fn set_packs(&mut self, packs: Keyed<String>)
        requires
            old(self).wf(),
            packs.wf(),
        ensures
            final(self).wf(),
            final(self).pack_dirs() == packs@,
            final(self).seen_ids() == old(self).seen_ids(),
            final(self).idle() == old(self).idle(),
            final(self).pending_thumbs() == old(self).pending_thumbs(),
            final(self).thumb_cache() == old(self).thumb_cache(),
    {
        self.packs = packs;
    }

    /// Where small copies of big pictures are kept (`<data>/.cache/thumbs`).
    pub fn set_cache(&mut self, dir: String)
        requires
            old(self).wf(),
        ensures
            final(self).wf(),
            final(self).thumb_cache() == Some(dir@),
            final(self).pack_dirs() == old(self).pack_dirs(),
            final(self).seen_ids() == old(self).seen_ids(),
            final(self).idle() == old(self).idle(),
            final(self).pending_thumbs() == old(self).pending_thumbs(),
    {
        self.thumbs.set_cache(dir);
    }

    /// Whether `thumb:` images are still being made.
    pub fn pending(&self) -> (r: bool)
        ensures
            r == (self.pending_thumbs() != Set::<Seq<char>>::empty()),
    {
        self.thumbs.has_pending()
    }

    /// The GPU was rebuilt: nothing is uploaded any more.
    pub fn forget(&mut self)
        requires
            old(self).wf(),
        ensures
            final(self).wf(),
            final(self).seen_ids() == Set::<Seq<char>>::empty(),
            final(self).idle() == Seq::<Entry>::empty(),
            final(self).pack_dirs() == old(self).pack_dirs(),
            final(self).pending_thumbs() == old(self).pending_thumbs(),
            final(self).thumb_cache() == old(self).thumb_cache(),
    {
        self.seen = Vec::new();
        self.residency.clear();
        assert(strs(self.seen@) =~= Seq::<Seq<char>>::empty());
        assert(self.seen_ids() =~= Set::<Seq<char>>::empty());
    }

    /// Whether `id` was uploaded.
    fn has_seen(&self, id: &str) -> (r: bool)
        ensures
            r == self.seen_ids().contains(id@),
    {
        let mut i: usize = 0;
        while i < self.seen.len()
            invariant
                i <= self.seen.len(),
                forall|k: int| 0 <= k < i ==> self.seen@[k]@ != id@,
            decreases self.seen.len() - i,
        {
            if str_eq(self.seen[i].as_str(), id) {
                assert(strs(self.seen@)[i as int] == id@);
                return true;
            }
            i += 1;
        }
        proof {
            if strs(self.seen@).contains(id@) {
                let k = choose|k: int| 0 <= k < strs(self.seen@).len() && strs(self.seen@)[k] == id@;
                assert(self.seen@[k]@ == id@);
            }
        }
        false
    }

    /// Remembers `id` as uploaded.
    fn see(&mut self, id: &str)
        requires
            old(self).wf(),
        ensures
            final(self).wf(),
            final(self).seen_ids() == old(self).seen_ids().insert(id@),
            final(self).packs == old(self).packs,
            final(self).residency == old(self).residency,
            final(self).thumbs == old(self).thumbs,
    {
        if self.has_seen(id) {
            assert(self.seen_ids().insert(id@) =~= self.seen_ids());
            return;
        }
        let ghost before = strs(self.seen@);
        self.seen.push(String::from_str(id));
        proof {
            assert(strs(self.seen@) =~= before.push(id@));
            lemma_push_new(before, id@);
        }
    }

    /// Makes sure `id` is on the GPU: what to upload for it, given whether the GPU has it
    /// and whether it has the generic icon. A `thumb:` image is only queued here; it is
    /// uploaded once it is made. An id tried before falls back to the generic icon.
    pub fn ensure(&mut self, id: &str, has_image: bool, has_generic: bool) -> (r: Upload)
        requires
            old(self).wf(),
        ensures
            final(self).wf(),
            final(self).pack_dirs() == old(self).pack_dirs(),
            final(self).idle() == old(self).idle(),
            final(self).thumb_cache() == old(self).thumb_cache(),
            ({
                let skip_early = id@.len() == 0 || has_image;
                let thumb = !skip_early && has_prefix(id@, "thumb:"@);
                let tried = !skip_early && !thumb && old(self).seen_ids().contains(id@) && has_generic;
                &&& final(self).pending_thumbs() == if thumb {
                    old(self).pending_thumbs().insert(id@)
                } else {
                    old(self).pending_thumbs()
                }
                &&& final(self).seen_ids() == if skip_early || thumb {
                    old(self).seen_ids()
                } else {
                    old(self).seen_ids().insert(id@)
                }
                &&& (skip_early || thumb || tried) ==> r is Skip
                &&& !(skip_early || thumb || tried) ==> if id@ == "icon:generic"@ {
                    r is Generic
                } else if has_prefix(id@, "file:"@) {
                    r matches Upload::File(p) && p@ == id@.skip(5)
                } else if has_prefix(id@, "icon:"@) {
                    let (pack, target, explicit) = icon_fields(id@.skip(5));
                    r matches Upload::Icon { target: t, explicit: e, pack_dir: d } && t@ == target && e@ == explicit
                        && match d {
                        Some(x) => old(self).pack_dirs().dom().contains(pack) && x@ == old(self).pack_dirs()[pack]@,
                        None => !old(self).pack_dirs().dom().contains(pack),
                    }
                } else {
                    r is Generic
                }
            }),
    {
        if id.is_empty() || has_image {
            return Upload::Skip;
        }
        if starts_with(id, PREFIX) {
            self.thumbs.request(id);
            return Upload::Skip;
        }
        let tried = self.has_seen(id);
        self.see(id);
        if tried && has_generic {
            return Upload::Skip;
        }
        if str_eq(id, GENERIC) {
            return Upload::Generic;
        }
        let cs = chars_of(id);
        proof {
            reveal_strlit("file:");
            reveal_strlit("icon:");
        }
        if starts_with(id, "file:") {
            let path = string_of_range(&cs, 5, cs.len());
            assert(path@ =~= id@.skip(5));
            return Upload::File(path);
        }
        if starts_with(id, "icon:") {
            let rest = string_of_range(&cs, 5, cs.len());
            let rs = chars_of(rest.as_str());
            let ps = split_chars(&rs, ID_SEP);
            proof {
                crate::strs::lemma_split_on_not_empty(rs@, ID_SEP);
                assert(rs@ =~= id@.skip(5));
            }
            let pack = string_of(&ps[0]);
            let target = if ps.len() > 1 {
                string_of(&ps[1])
            } else {
                String::new()
            };
            let explicit = if ps.len() > 2 {
                string_of(&ps[2])
            } else {
                String::new()
            };
            let pack_dir = copy_dir(self.packs.get(pack.as_str()));
            return Upload::Icon { target, explicit, pack_dir };
        }
        Upload::Generic
    }

    /// The ids uploaded that may be dropped when unused: every one but the generic icon.
    pub fn droppable(&self) -> (r: Vec<String>)
        requires
            self.wf(),
        ensures
            strs(r@).no_duplicates(),
            forall|x: Seq<char>| #[trigger] strs(r@).contains(x) <==> self.seen_ids().contains(x) && x != GENERIC@,
    {
        let ghost all = strs(self.seen@);
        let mut out: Vec<String> = Vec::new();
        let mut i: usize = 0;
        while i < self.seen.len()
            invariant
                i <= self.seen.len(),
                all == strs(self.seen@),
                all.no_duplicates(),
                strs(out@).no_duplicates(),
                forall|x: Seq<char>| #[trigger] strs(out@).contains(x) <==> all.take(i as int).contains(x) && x != GENERIC@,
            decreases self.seen.len() - i,
        {
            let s = &self.seen[i];
            let ghost pre = all.take(i as int);
            proof {
                assert(all.take(i + 1) =~= pre.push(s@));
                assert(all[i as int] == s@);
                assert(!pre.contains(s@)) by {
                    if pre.contains(s@) {
                        let k = choose|k: int| 0 <= k < pre.len() && pre[k] == s@;
                        assert(all[k] == all[i as int]);
                    }
                }
                lemma_push_new(pre, s@);
            }
            if !str_eq(s.as_str(), GENERIC) {
                let ghost b = strs(out@);
                out.push(s.clone());
                proof {
                    assert(strs(out@) =~= b.push(s@));
                    lemma_push_new(b, s@);
                }
            }
            i += 1;
        }
        assert(all.take(all.len() as int) =~= all);
        out
    }

    /// Drops what no window has drawn for a while (see `IDLE_BUDGET`): `loaded` is each
    /// droppable image with its size on the GPU, `drawn` what every open window draws
    /// now. Returns the images to drop from the GPU, which are no longer uploaded.
    pub fn release_unused(&mut self, loaded: &[(String, u64)], drawn: &Vec<String>) -> (r: Vec<String>)
        requires
            old(self).wf(),
        ensures
            final(self).wf(),
            settles(old(self).idle(), entries(loaded@), strs(drawn@), IDLE_BUDGET, final(self).idle(), strs(r@)),
            forall|x: Seq<char>| #[trigger] final(self).seen_ids().contains(x) <==> old(self).seen_ids().contains(x) && !strs(r@).contains(x),
            final(self).pack_dirs() == old(self).pack_dirs(),
            final(self).pending_thumbs() == old(self).pending_thumbs(),
            final(self).thumb_cache() == old(self).thumb_cache(),
    {
        let out = self.residency.settle(loaded, drawn, IDLE_BUDGET);
        let ghost all = strs(self.seen@);
        let mut keep: Vec<String> = Vec::new();
        let mut i: usize = 0;
        while i < self.seen.len()
            invariant
                i <= self.seen.len(),
                all == strs(self.seen@),
                all.no_duplicates(),
                strs(keep@).no_duplicates(),
                forall|x: Seq<char>| #[trigger] strs(keep@).contains(x) <==> all.take(i as int).contains(x) && !strs(out@).contains(x),
            decreases self.seen.len() - i,
        {
            let s = &self.seen[i];
            let ghost pre = all.take(i as int);
            proof {
                assert(all.take(i + 1) =~= pre.push(s@));
                assert(all[i as int] == s@);
                assert(!pre.contains(s@)) by {
                    if pre.contains(s@) {
                        let k = choose|k: int| 0 <= k < pre.len() && pre[k] == s@;
                        assert(all[k] == all[i as int]);
                    }
                }
                lemma_push_new(pre, s@);
            }
            if !contains_string(&out, s) {
                let ghost b = strs(keep@);
                keep.push(s.clone());
                proof {
                    assert(strs(keep@) =~= b.push(s@));
                    lemma_push_new(b, s@);
                }
            }
            i += 1;
        }
        assert(all.take(all.len() as int) =~= all);
        self.seen = keep;
        out
    }

    /// Takes the `thumb:` images made since last asked, which are uploaded from now on,
    /// and returns them to upload (`None` for a file that could not be read: the generic
    /// icon stands for it).
    pub fn take_ready(&mut self, ready: Vec<(String, Option<Decoded>)>) -> (r: Vec<(String, Option<Decoded>)>)
        requires
            old(self).wf(),
        ensures
            final(self).wf(),
            r@ == ready@,
            final(self).pending_thumbs() == old(self).pending_thumbs().difference(ids_in(ready@, ready.len() as int)),
            final(self).seen_ids() == old(self).seen_ids().union(ids_in(ready@, ready.len() as int)),
            final(self).pack_dirs() == old(self).pack_dirs(),
            final(self).idle() == old(self).idle(),
            final(self).thumb_cache() == old(self).thumb_cache(),
    {
        let got = self.thumbs.take(ready);
        assert(ids_in(got@, got.len() as int) =~= Set::new(|s: Seq<char>| exists|i: int| 0 <= i < got.len() && got@[i].0@ == s));
        let ghost start = self.seen_ids();
        assert(start.union(ids_in(got@, 0)) =~= start);
        let mut i: usize = 0;
        while i < got.len()
            invariant
                i <= got.len(),
                self.wf(),
                self.seen_ids() == start.union(ids_in(got@, i as int)),
                self.packs == old(self).packs,
                self.residency == old(self).residency,
                self.thumbs.pending_ids() == old(self).pending_thumbs().difference(ids_in(got@, got.len() as int)),
                self.thumbs.cache_dir() == old(self).thumb_cache(),
            decreases got.len() - i,
        {
            self.see(got[i].0.as_str());
            proof {
                assert forall|s: Seq<char>| #[trigger] ids_in(got@, i + 1).contains(s) <==> ids_in(got@, i as int).contains(s) || s == got@[i as int].0@ by {
                    if ids_in(got@, i + 1).contains(s) {
                        let j = choose|j: int| 0 <= j < i + 1 && got@[j].0@ == s;
                        if j < i {
                            assert(0 <= j < i && got@[j].0@ == s);
                        }
                    }
                    if s == got@[i as int].0@ {
                        assert(0 <= i < i + 1 && got@[i as int].0@ == s);
                    }
                }
                assert(self.seen_ids() =~= start.union(ids_in(got@, i + 1)));
            }
            i += 1;
        }
        got
    }

    /// Content was reloaded: images read from files (and Icon Packs) may have changed.
    /// Forgets them and returns them, to drop from the GPU. The system's own icons are
    /// kept; extracting them again is slow.
    pub fn flush_files(&mut self) -> (r: Vec<String>)
        requires
            old(self).wf(),
        ensures
            final(self).wf(),
            strs(r@).no_duplicates(),
            forall|x: Seq<char>| #[trigger] strs(r@).contains(x) <==> old(self).seen_ids().contains(x) && read_from_files(x),
            forall|x: Seq<char>| #[trigger] final(self).seen_ids().contains(x) <==> old(self).seen_ids().contains(x) && !read_from_files(x),
            final(self).pack_dirs() == old(self).pack_dirs(),
            final(self).idle() == old(self).idle(),
            final(self).pending_thumbs() == old(self).pending_thumbs(),
            final(self).thumb_cache() == old(self).thumb_cache(),
    {
        let ghost all = strs(self.seen@);
        let mut stale: Vec<String> = Vec::new();
        let mut keep: Vec<String> = Vec::new();
        let mut i: usize = 0;
        while i < self.seen.len()
            invariant
                i <= self.seen.len(),
                all == strs(self.seen@),
                all.no_duplicates(),
                strs(stale@).no_duplicates(),
                strs(keep@).no_duplicates(),
                forall|x: Seq<char>| #[trigger] strs(stale@).contains(x) <==> all.take(i as int).contains(x) && read_from_files(x),
                forall|x: Seq<char>| #[trigger] strs(keep@).contains(x) <==> all.take(i as int).contains(x) && !read_from_files(x),
            decreases self.seen.len() - i,
        {
            let s = &self.seen[i];
            let ghost pre = all.take(i as int);
            let ghost post = all.take(i + 1);
            proof {
                assert(post =~= pre.push(s@));
                assert(all[i as int] == s@);
                assert(!pre.contains(s@)) by {
                    if pre.contains(s@) {
                        let k = choose|k: int| 0 <= k < pre.len() && pre[k] == s@;
                        assert(all[k] == all[i as int]);
                    }
                }
                assert forall|x: Seq<char>| #[trigger] post.contains(x) <==> pre.contains(x) || x == s@ by {
                    if post.contains(x) && x != s@ {
                        let k = choose|k: int| 0 <= k < post.len() && post[k] == x;
                        assert(pre[k] == x);
                    }
                    if pre.contains(x) {
                        let k = choose|k: int| 0 <= k < pre.len() && pre[k] == x;
                        assert(post[k] == x);
                    }
                    if x == s@ {
                        assert(post[i as int] == x);
                    }
                }
            }
            let ghost (b1, b2) = (strs(stale@), strs(keep@));
            if from_files(s.as_str()) {
                stale.push(s.clone());
                proof {
                    assert(strs(stale@) =~= b1.push(s@));
                    lemma_push_new(b1, s@);
                    assert forall|x: Seq<char>| #[trigger] strs(stale@).contains(x) <==> b1.contains(x) || x == s@ by {
                        if strs(stale@).contains(x) && x != s@ {
                            let k = choose|k: int| 0 <= k < strs(stale@).len() && strs(stale@)[k] == x;
                            assert(b1[k] == x);
                        }
                        if b1.contains(x) {
                            let k = choose|k: int| 0 <= k < b1.len() && b1[k] == x;
                            assert(strs(stale@)[k] == x);
                        }
                        if x == s@ {
                            assert(strs(stale@)[b1.len() as int] == x);
                        }
                    }
                }
            } else {
                keep.push(s.clone());
                proof {
                    assert(strs(keep@) =~= b2.push(s@));
                    lemma_push_new(b2, s@);
                    assert forall|x: Seq<char>| #[trigger] strs(keep@).contains(x) <==> b2.contains(x) || x == s@ by {
                        if strs(keep@).contains(x) && x != s@ {
                            let k = choose|k: int| 0 <= k < strs(keep@).len() && strs(keep@)[k] == x;
                            assert(b2[k] == x);
                        }
                        if b2.contains(x) {
                            let k = choose|k: int| 0 <= k < b2.len() && b2[k] == x;
                            assert(strs(keep@)[k] == x);
                        }
                        if x == s@ {
                            assert(strs(keep@)[b2.len() as int] == x);
                        }
                    }
                }
            }
            i += 1;
        }
        proof {
            assert(all.take(all.len() as int) =~= all);
        }
        self.seen = keep;
        stale
    }
}


/// A target that is a link (`https://...`), which has no file to take an icon from.
pub fn is_link(target: &str) -> (r: bool)
    ensures
        r == (find_from(target@, "://"@, 0) >= 0),
{
    find_str(target, "://").is_some()
}

/// The name to look for in the folders of `PATH` when `target` names no file: a bare name
/// (one path component), with `.exe` added when it has no extension; `None` when it is
/// more than a name.
pub open spec fn search_name_of(target: Seq<char>) -> Option<Seq<char>> {
    let cs = components(target);
    if cs.len() != 1 {
        None
    } else if (match file_name(cs) {
        Some(n) => extension(n) is Some,
        None => false,
    }) {
        Some(target)
    } else {
        Some(target + ".exe"@)
    }
}

/// The name to look for in the folders of `PATH`.
pub fn search_name(target: &str) -> (r: Option<String>)
    ensures
        match r {
            Some(n) => search_name_of(target@) == Some(n@),
            None => search_name_of(target@) is None,
        },
{
    let cs = components_of(target);
    if cs.len() != 1 {
        return None;
    }
    let last = &cs[0];
    proof {
        assert(parts_view(cs@)[0] == last@);
    }
    let dots = vec!['.', '.'];
    let root = vec!['\\'];
    assert(seq!['.', '.'] =~= dots@);
    assert(root_part() =~= root@);
    let named = !same_chars(last, &dots) && !same_chars(last, &root);
    let has_ext = named && extension_of(last).is_some();
    if has_ext {
        Some(String::from_str(target))
    } else {
        Some(concat(target, ".exe"))
    }
}

} // verus!
