//! A Widget's `[tiers.*]`, `[slots.*]` and `[modules.*]` tables read from its TOML tree:
//! what a user may arrange, and how, with the first mistake as an error.

use vstd::prelude::*;

use crate::format::suggestion;
use crate::modules::{
    first_unknown, first_unknown_module, has_name, layout_problem, module_names, module_set_problem, modules_problem, suggest_among, tiers_problem,
    validate_modules, SlotDef, TierLayout,
};
use crate::strs::{concat, concat3, str_eq};
use crate::theme::names_view;
use crate::toml_doc::{node_view, parse_tree, toml_tree, tree_view, NodeView, TomlNode};
use crate::widgets::meta::ModuleMeta;

verus! {

broadcast use vstd::string::group_string_axioms;

/// A Module by its name and the slots it may go in.
pub type MetaView = (Seq<char>, Seq<Seq<char>>);

/// A tier by its name and its layout: each slot with its entries.
pub type LayoutView = (Seq<char>, Seq<(Seq<char>, Seq<Seq<char>>)>);

/// `modules_problem`, by plain values.
pub open spec fn modules_problem_v(ms: Seq<MetaView>, slots: Seq<Seq<char>>) -> Option<Seq<char>>
    decreases ms.len(),
{
    if ms.len() == 0 {
        None
    } else {
        let k = first_unknown(ms[0].1, slots);
        if k >= 0 {
            let bad = ms[0].1[k];
            Some("modules."@ + ms[0].0 + ".slots: unknown slot `"@ + bad + "`"@ + suggestion(bad, seq![slots]))
        } else {
            modules_problem_v(ms.skip(1), slots)
        }
    }
}

/// `layout_problem`, by plain values.
pub open spec fn layout_problem_v(
    tier: Seq<char>,
    layout: Seq<(Seq<char>, Seq<Seq<char>>)>,
    slots: Seq<Seq<char>>,
    mods: Seq<Seq<char>>,
) -> Option<Seq<char>>
    decreases layout.len(),
{
    if layout.len() == 0 {
        None
    } else {
        let slot = layout[0].0;
        let entries = layout[0].1;
        let k = first_unknown_module(entries, mods);
        if !slots.contains(slot) {
            Some("tiers."@ + tier + ".layout: unknown slot `"@ + slot + "`"@ + suggestion(slot, seq![slots]))
        } else if k >= 0 {
            Some(
                "tiers."@ + tier + ".layout."@ + slot + ": unknown module `"@ + entries[k] + "`"@ + suggestion(
                    entries[k],
                    seq![mods],
                ),
            )
        } else {
            layout_problem_v(tier, layout.skip(1), slots, mods)
        }
    }
}

/// `tiers_problem`, by plain values.
pub open spec fn tiers_problem_v(ts: Seq<LayoutView>, slots: Seq<Seq<char>>, mods: Seq<Seq<char>>) -> Option<Seq<char>>
    decreases ts.len(),
{
    if ts.len() == 0 {
        None
    } else {
        match layout_problem_v(ts[0].0, ts[0].1, slots, mods) {
            Some(e) => Some(e),
            None => tiers_problem_v(ts.skip(1), slots, mods),
        }
    }
}

/// `module_set_problem`, by plain values.
pub open spec fn set_problem(slots: Seq<Seq<char>>, ms: Seq<MetaView>, ts: Seq<LayoutView>) -> Option<Seq<char>> {
    if ts.len() == 0 {
        Some("modules: declare at least one [tiers.<name>]"@)
    } else if modules_problem_v(ms, slots) is Some {
        modules_problem_v(ms, slots)
    } else {
        tiers_problem_v(ts, slots, ms.map_values(|m: MetaView| m.0))
    }
}

pub open spec fn metas_v(ms: Seq<ModuleMeta>) -> Seq<MetaView> {
    ms.map_values(|m: ModuleMeta| (m.name@, names_view(m.slots@)))
}

pub open spec fn slots_v(l: Seq<(String, Vec<String>)>) -> Seq<(Seq<char>, Seq<Seq<char>>)> {
    l.map_values(|e: (String, Vec<String>)| (e.0@, names_view(e.1@)))
}

pub open spec fn layouts_v(ts: Seq<TierLayout>) -> Seq<LayoutView> {
    ts.map_values(|t: TierLayout| (t.tier@, slots_v(t.layout@)))
}

proof fn lemma_first_unknown_range(xs: Seq<Seq<char>>, known: Seq<Seq<char>>)
    ensures
        -1 <= first_unknown(xs, known) < xs.len(),
    decreases xs.len(),
{
    if xs.len() > 0 {
        lemma_first_unknown_range(xs.skip(1), known);
    }
}

proof fn lemma_modules_problem_v(ms: Seq<ModuleMeta>, slots: Seq<Seq<char>>)
    ensures
        modules_problem(ms, slots) == modules_problem_v(metas_v(ms), slots),
    decreases ms.len(),
{
    if ms.len() > 0 {
        assert(metas_v(ms.skip(1)) =~= metas_v(ms).skip(1));
        lemma_modules_problem_v(ms.skip(1), slots);
        let sv = names_view(ms[0].slots@);
        assert(metas_v(ms)[0] == (ms[0].name@, sv));
        let k = first_unknown(sv, slots);
        if k >= 0 {
            lemma_first_unknown_range(sv, slots);
            assert(sv[k] == ms[0].slots@[k]@);
        }
    }
}

proof fn lemma_layout_problem_v(tier: Seq<char>, l: Seq<(String, Vec<String>)>, slots: Seq<Seq<char>>, mods: Seq<Seq<char>>)
    ensures
        layout_problem(tier, l, slots, mods) == layout_problem_v(tier, slots_v(l), slots, mods),
    decreases l.len(),
{
    if l.len() > 0 {
        assert(slots_v(l.skip(1)) =~= slots_v(l).skip(1));
        lemma_layout_problem_v(tier, l.skip(1), slots, mods);
    }
}

proof fn lemma_tiers_problem_v(ts: Seq<TierLayout>, slots: Seq<Seq<char>>, mods: Seq<Seq<char>>)
    ensures
        tiers_problem(ts, slots, mods) == tiers_problem_v(layouts_v(ts), slots, mods),
    decreases ts.len(),
{
    if ts.len() > 0 {
        lemma_layout_problem_v(ts[0].tier@, ts[0].layout@, slots, mods);
        assert(layouts_v(ts.skip(1)) =~= layouts_v(ts).skip(1));
        lemma_tiers_problem_v(ts.skip(1), slots, mods);
    }
}

/// The problems of a module set are those of its plain values.
proof fn lemma_set_problem(slots: Seq<Seq<char>>, ms: Seq<ModuleMeta>, ts: Seq<TierLayout>)
    ensures
        module_set_problem(slots, ms, ts) == set_problem(slots, metas_v(ms), layouts_v(ts)),
{
    lemma_modules_problem_v(ms, slots);
    assert(module_names(ms) =~= metas_v(ms).map_values(|m: MetaView| m.0));
    lemma_tiers_problem_v(ts, slots, module_names(ms));
}

/// A layout by its plain values: each slot with its entries.
pub type LayoutV = Seq<(Seq<char>, Seq<Seq<char>>)>;

/// A table's entries by their plain values.
pub type Tree = Seq<(Seq<char>, NodeView)>;

/// The value under key `k`, first of that key.
pub open spec fn get(t: Tree, k: Seq<char>) -> Option<NodeView>
    decreases t.len(),
{
    if t.len() == 0 {
        None
    } else if t[0].0 == k {
        Some(t[0].1)
    } else {
        get(t.skip(1), k)
    }
}

/// Entry `i` of table `t` is the first one under key `k`.
pub open spec fn first_under(t: Tree, k: Seq<char>, i: int) -> bool {
    &&& 0 <= i < t.len()
    &&& t[i].0 == k
    &&& forall|j: int| 0 <= j < i ==> t[j].0 != k
}

/// A lookup finds the first entry under its key.
pub proof fn lemma_get_first(t: Tree, k: Seq<char>)
    ensures
        get(t, k) is None <==> forall|i: int| 0 <= i < t.len() ==> t[i].0 != k,
        forall|v: NodeView| get(t, k) == Some(v) <==> exists|i: int| first_under(t, k, i) && t[i].1 == v,
    decreases t.len(),
{
    if t.len() > 0 {
        let r = t.skip(1);
        lemma_get_first(r, k);
        if t[0].0 == k {
            assert(first_under(t, k, 0));
            assert forall|v: NodeView| (exists|i: int| first_under(t, k, i) && t[i].1 == v) implies get(t, k) == Some(v) by {
                let i = choose|i: int| first_under(t, k, i) && t[i].1 == v;
                assert(i == 0);
            }
        } else {
            assert forall|v: NodeView| get(t, k) == Some(v) <==> exists|i: int| first_under(t, k, i) && t[i].1 == v by {
                if get(t, k) == Some(v) {
                    let i = choose|i: int| first_under(r, k, i) && r[i].1 == v;
                    assert(first_under(t, k, i + 1) && t[i + 1].1 == v) by {
                        assert forall|j: int| 0 <= j < i + 1 implies t[j].0 != k by {
                            if j > 0 {
                                assert(t[j] == r[j - 1]);
                            }
                        }
                    }
                }
                if exists|i: int| first_under(t, k, i) && t[i].1 == v {
                    let i = choose|i: int| first_under(t, k, i) && t[i].1 == v;
                    assert(i > 0);
                    assert(first_under(r, k, i - 1) && r[i - 1].1 == v) by {
                        assert forall|j: int| 0 <= j < i - 1 implies r[j].0 != k by {
                            assert(r[j] == t[j + 1]);
                        }
                    }
                }
            }
            assert(get(t, k) is None <==> forall|i: int| 0 <= i < t.len() ==> t[i].0 != k) by {
                if forall|i: int| 0 <= i < r.len() ==> r[i].0 != k {
                    assert forall|i: int| 0 <= i < t.len() implies t[i].0 != k by {
                        if i > 0 {
                            assert(t[i] == r[i - 1]);
                        }
                    }
                }
                if forall|i: int| 0 <= i < t.len() ==> t[i].0 != k {
                    assert forall|i: int| 0 <= i < r.len() implies r[i].0 != k by {
                        assert(r[i] == t[i + 1]);
                    }
                }
            }
        }
    }
}

/// A table's keys, in order.
pub open spec fn tree_keys(t: Tree) -> Seq<Seq<char>> {
    t.map_values(|e: (Seq<char>, NodeView)| e.0)
}

/// The first key of `t` that `allowed` lacks, as an error for `what`, with the closest
/// allowed key if one is close.
pub open spec fn keys_problem(t: Tree, allowed: Seq<Seq<char>>, what: Seq<char>) -> Option<Seq<char>> {
    let k = first_unknown(tree_keys(t), allowed);
    if k >= 0 {
        Some(what + ": unknown key `"@ + t[k].0 + "`"@ + suggestion(t[k].0, seq![allowed]))
    } else {
        None
    }
}

/// The texts of an array that holds only strings.
pub open spec fn text_list(n: NodeView) -> Option<Seq<Seq<char>>> {
    match n {
        NodeView::Array(a) => if forall|i: int| 0 <= i < a.len() ==> (#[trigger] a[i]) is Text {
            Some(a.map_values(|x: NodeView| match x {
                NodeView::Text(s) => s,
                _ => Seq::empty(),
            }))
        } else {
            None
        },
        _ => None,
    }
}

/// A tier's layout: each slot with the Module entries it lists.
pub open spec fn layout_of(t: Tree, what: Seq<char>) -> Result<Seq<(Seq<char>, Seq<Seq<char>>)>, Seq<char>>
    decreases t.len(),
{
    if t.len() == 0 {
        Ok(Seq::empty())
    } else {
        match text_list(t[0].1) {
            None => Err(what + ".layout."@ + t[0].0 + ": expected a list of module names"@),
            Some(l) => match layout_of(t.skip(1), what) {
                Ok(r) => Ok(seq![(t[0].0, l)] + r),
                Err(e) => Err(e),
            },
        }
    }
}

/// A number's written text.
pub open spec fn number_text(n: NodeView) -> Option<Seq<char>> {
    match n {
        NodeView::Number(s) => Some(s),
        _ => None,
    }
}

/// A `[width, height]` pair as written; none when it is not given.
pub open spec fn size_of(v: Option<NodeView>, what: Seq<char>) -> Result<Option<(Seq<char>, Seq<char>)>, Seq<char>> {
    match v {
        None => Ok(None),
        Some(NodeView::Array(a)) => if a.len() == 2 {
            match (number_text(a[0]), number_text(a[1])) {
                (None, _) => Err(what + ": width is not a number"@),
                (Some(_), None) => Err(what + ": height is not a number"@),
                (Some(w), Some(h)) => Ok(Some((w, h))),
            }
        } else {
            Err(what + ": expected [width, height]"@)
        },
        Some(_) => Err(what + ": expected [width, height]"@),
    }
}

/// A template's text under key `k`, when there is one.
pub open spec fn template_field(t: Tree, k: Seq<char>, what: Seq<char>) -> Result<Option<Seq<char>>, Seq<char>> {
    match get(t, k) {
        None => Ok(None),
        Some(NodeView::Text(s)) => Ok(Some(s)),
        Some(_) => Err(what + "."@ + k + ": expected a string"@),
    }
}

/// The text under `k`, or `default` when there is none (or it is no string).
pub open spec fn text_or(t: Tree, k: Seq<char>, default: Seq<char>) -> Seq<char> {
    match get(t, k) {
        Some(NodeView::Text(s)) => s,
        _ => default,
    }
}

/// A tier as read: name, label, `when` template, size as written, layout.
pub struct TierView {
    pub name: Seq<char>,
    pub label: Seq<char>,
    pub when: Option<Seq<char>>,
    pub size: Option<(Seq<char>, Seq<char>)>,
    pub layout: Seq<(Seq<char>, Seq<Seq<char>>)>,
}

/// The keys a tier may have.
pub open spec fn tier_keys() -> Seq<Seq<char>> {
    seq!["label"@, "size"@, "when"@, "layout"@]
}

/// Tier `name`: a table of `label`, `size`, `when` and `layout`, its label the name
/// unless it has one.
pub open spec fn tier_of(name: Seq<char>, v: NodeView) -> Result<TierView, Seq<char>> {
    let what = "tiers."@ + name;
    match v {
        NodeView::Table(tt) => match keys_problem(tt, tier_keys(), what) {
            Some(e) => Err(e),
            None => {
                let layout = match get(tt, "layout"@) {
                    None => Ok(Seq::empty()),
                    Some(NodeView::Table(l)) => layout_of(l, what),
                    Some(_) => Err(what + ".layout: expected a table"@),
                };
                match layout {
                    Err(e) => Err(e),
                    Ok(lay) => match template_field(tt, "when"@, what) {
                        Err(e) => Err(e),
                        Ok(when) => match size_of(get(tt, "size"@), what + ".size"@) {
                            Err(e) => Err(e),
                            Ok(size) => Ok(TierView { name, label: text_or(tt, "label"@, name), when, size, layout: lay }),
                        },
                    },
                }
            },
        },
        _ => Err(what + ": expected a table"@),
    }
}

/// The tiers, in order; the first mistake as an error.
pub open spec fn tiers_of(t: Tree) -> Result<Seq<TierView>, Seq<char>>
    decreases t.len(),
{
    if t.len() == 0 {
        Ok(Seq::empty())
    } else {
        match tier_of(t[0].0, t[0].1) {
            Err(e) => Err(e),
            Ok(x) => match tiers_of(t.skip(1)) {
                Err(e) => Err(e),
                Ok(r) => Ok(seq![x] + r),
            },
        }
    }
}

/// Slot `name`: a table with at most a `label`, the name when it has none.
pub open spec fn slot_of(name: Seq<char>, v: NodeView) -> Result<(Seq<char>, Seq<char>), Seq<char>> {
    let what = "slots."@ + name;
    match v {
        NodeView::Table(st) => match keys_problem(st, seq!["label"@], what) {
            Some(e) => Err(e),
            None => Ok((name, text_or(st, "label"@, name))),
        },
        _ => Err(what + ": expected a table"@),
    }
}

/// The slots, in order.
pub open spec fn slots_of(t: Tree) -> Result<Seq<(Seq<char>, Seq<char>)>, Seq<char>>
    decreases t.len(),
{
    if t.len() == 0 {
        Ok(Seq::empty())
    } else {
        match slot_of(t[0].0, t[0].1) {
            Err(e) => Err(e),
            Ok(x) => match slots_of(t.skip(1)) {
                Err(e) => Err(e),
                Ok(r) => Ok(seq![x] + r),
            },
        }
    }
}

/// A Module's `legacy` table: each layout entry with the param it replaced.
pub open spec fn legacy_of(t: Tree, what: Seq<char>) -> Result<Seq<(Seq<char>, Seq<char>)>, Seq<char>>
    decreases t.len(),
{
    if t.len() == 0 {
        Ok(Seq::empty())
    } else {
        match t[0].1 {
            NodeView::Text(p) => match legacy_of(t.skip(1), what) {
                Ok(r) => Ok(seq![(t[0].0, p)] + r),
                Err(e) => Err(e),
            },
            _ => Err(what + ".legacy."@ + t[0].0 + ": expected a param name"@),
        }
    }
}

/// `s` with every brace doubled, so a template reads it as plain text.
pub open spec fn escape_braces(s: Seq<char>) -> Seq<char>
    decreases s.len(),
{
    if s.len() == 0 {
        Seq::empty()
    } else {
        let c = s[0];
        (if c == '{' || c == '}' {
            seq![c, c]
        } else {
            seq![c]
        }) + escape_braces(s.skip(1))
    }
}

/// The keys of a Module's table that are not part of its element.
pub open spec fn head_keys() -> Seq<Seq<char>> {
    seq!["label"@, "slots"@, "legacy"@, "when"@, "for"@, "as"@, "key"@]
}

/// The entries of a Module's table that make its element: all but the head keys.
pub open spec fn body_of(t: Tree) -> Tree
    decreases t.len(),
{
    if t.len() == 0 {
        Seq::empty()
    } else if head_keys().contains(t[0].0) {
        body_of(t.skip(1))
    } else {
        seq![t[0]] + body_of(t.skip(1))
    }
}

/// A layout's slots come one for each entry of its table, in order, each with the names
/// its array lists.
pub proof fn lemma_layout_entries(t: Tree, what: Seq<char>, lay: LayoutV)
    requires
        layout_of(t, what) == okay(lay),
    ensures
        lay.len() == t.len(),
        forall|k: int| 0 <= k < t.len() ==> (#[trigger] lay[k]).0 == t[k].0 && t[k].1 == NodeView::Array(
            lay[k].1.map_values(|x: Seq<char>| NodeView::Text(x)),
        ),
    decreases t.len(),
{
    if t.len() > 0 {
        match text_list(t[0].1) {
            Some(l) => match layout_of(t.skip(1), what) {
                Ok(r) => {
                    lemma_layout_entries(t.skip(1), what, r);
                    assert(lay == seq![(t[0].0, l)] + r);
                    match t[0].1 {
                        NodeView::Array(a) => {
                            assert(a =~= l.map_values(|x: Seq<char>| NodeView::Text(x))) by {
                                assert forall|i: int| 0 <= i < a.len() implies a[i] == l.map_values(|x: Seq<char>| NodeView::Text(x))[i] by {
                                    assert(a[i] is Text);
                                }
                            }
                        },
                        _ => {},
                    }
                    assert forall|k: int| 0 <= k < t.len() implies (#[trigger] lay[k]).0 == t[k].0 && t[k].1 == NodeView::Array(
                        lay[k].1.map_values(|x: Seq<char>| NodeView::Text(x)),
                    ) by {
                        if k > 0 {
                            assert(lay[k] == r[k - 1]);
                            assert(t[k] == t.skip(1)[k - 1]);
                        }
                    }
                },
                Err(_) => {},
            },
            None => {},
        }
    }
}

/// A tier keeps its name; its label is the text of its first `label` entry, else its
/// name; its `when` the text of its first `when` entry; its size the two numbers of its
/// first `size` entry, as written, and none only when it has no `size`; its layout nothing
/// without a `layout`, else one entry per slot of that table, in order, each with the
/// names it lists.
pub proof fn lemma_tier_fields(name: Seq<char>, tt: Tree, tv: TierView, x: Seq<char>, w: Seq<char>, h: Seq<char>)
    requires
        tier_of(name, NodeView::Table(tt)) == okay(tv),
    ensures
        tv.name == name,
        (exists|i: int| first_under(tt, "label"@, i) && tt[i].1 == NodeView::Text(x)) ==> tv.label == x,
        (forall|i: int| first_under(tt, "label"@, i) ==> !(tt[i].1 is Text)) ==> tv.label == name,
        tv.when == Some(x) <==> exists|i: int| first_under(tt, "when"@, i) && tt[i].1 == NodeView::Text(x),
        tv.size == Some((w, h)) <==> exists|i: int|
            first_under(tt, "size"@, i) && tt[i].1 == NodeView::Array(seq![NodeView::Number(w), NodeView::Number(h)]),
        tv.size is None <==> forall|i: int| 0 <= i < tt.len() ==> tt[i].0 != "size"@,
        (forall|i: int| 0 <= i < tt.len() ==> tt[i].0 != "layout"@) ==> tv.layout.len() == 0,
        forall|i: int| first_under(tt, "layout"@, i) ==> (tt[i].1 matches NodeView::Table(l) && tv.layout.len() == l.len()
            && forall|k: int| 0 <= k < l.len() ==> (#[trigger] tv.layout[k]).0 == l[k].0 && l[k].1 == NodeView::Array(
                tv.layout[k].1.map_values(|y: Seq<char>| NodeView::Text(y)),
            )),
{
    lemma_get_first(tt, "label"@);
    lemma_get_first(tt, "when"@);
    lemma_get_first(tt, "size"@);
    lemma_get_first(tt, "layout"@);
    let what = "tiers."@ + name;
    if exists|i: int| first_under(tt, "label"@, i) && tt[i].1 == NodeView::Text(x) {
        assert(get(tt, "label"@) == Some(NodeView::Text(x)));
    }
    match get(tt, "label"@) {
        Some(NodeView::Text(l)) => {
            let i = choose|i: int| first_under(tt, "label"@, i) && tt[i].1 == NodeView::Text(l);
        },
        _ => {},
    }
    match get(tt, "size"@) {
        Some(NodeView::Array(a)) => {
            let i = choose|i: int| first_under(tt, "size"@, i) && tt[i].1 == NodeView::Array(a);
            if a.len() == 2 {
                match (a[0], a[1]) {
                    (NodeView::Number(p), NodeView::Number(q)) => {
                        assert(a =~= seq![NodeView::Number(p), NodeView::Number(q)]);
                    },
                    _ => {},
                }
            }
        },
        Some(v) => {
            let i = choose|i: int| first_under(tt, "size"@, i) && tt[i].1 == v;
        },
        None => {},
    }
    if exists|i: int|
        first_under(tt, "size"@, i) && tt[i].1 == NodeView::Array(seq![NodeView::Number(w), NodeView::Number(h)]) {
        assert(get(tt, "size"@) == Some(NodeView::Array(seq![NodeView::Number(w), NodeView::Number(h)])));
    }
    match get(tt, "layout"@) {
        Some(NodeView::Table(l)) => {
            let i = choose|i: int| first_under(tt, "layout"@, i) && tt[i].1 == NodeView::Table(l);
            lemma_layout_entries(l, what, tv.layout);
            assert forall|j: int| first_under(tt, "layout"@, j) implies (tt[j].1 matches NodeView::Table(l2) && tv.layout.len()
                == l2.len() && forall|k: int| 0 <= k < l2.len() ==> (#[trigger] tv.layout[k]).0 == l2[k].0 && l2[k].1
                == NodeView::Array(tv.layout[k].1.map_values(|y: Seq<char>| NodeView::Text(y)))) by {
                assert(j == i);
            }
        },
        _ => {},
    }
}

/// A Module as read: name, label template, slots, legacy entries, `when` template,
/// `for` (list template, item variable, key template) and its element's entries.
pub struct ModuleView {
    pub name: Seq<char>,
    pub label: Seq<char>,
    pub slots: Seq<Seq<char>>,
    pub legacy: Seq<(Seq<char>, Seq<char>)>,
    pub when: Option<Seq<char>>,
    pub each: Option<(Seq<char>, Seq<char>, Option<Seq<char>>)>,
    pub body: Tree,
}

/// Module `name`: its label (the name, braces doubled, when it has none), `slots` (a list
/// of names), `legacy` (a table of param names), `when`, `for` with `as` (`item` when
/// not given) and `key`, and the rest as its element; mistakes in that order.
pub open spec fn module_of(name: Seq<char>, v: NodeView) -> Result<ModuleView, Seq<char>> {
    let what = "modules."@ + name;
    match v {
        NodeView::Table(b) => {
            let label = match get(b, "label"@) {
                Some(NodeView::Text(s)) => Ok(s),
                Some(_) => Err(what + ".label: expected a string"@),
                None => Ok(escape_braces(name)),
            };
            match label {
                Err(e) => Err(e),
                Ok(label) => match template_field(b, "for"@, what) {
                    Err(e) => Err(e),
                    Ok(list) => {
                        let slots = match get(b, "slots"@) {
                            None => Ok(Seq::<Seq<char>>::empty()),
                            Some(n) => match text_list(n) {
                                Some(l) => Ok(l),
                                None => Err(what + ".slots: expected a list of names"@),
                            },
                        };
                        match slots {
                            Err(e) => Err(e),
                            Ok(slots) => {
                                let legacy = match get(b, "legacy"@) {
                                    None => Ok(Seq::empty()),
                                    Some(NodeView::Table(l)) => legacy_of(l, what),
                                    Some(_) => Err(what + ".legacy: expected a table"@),
                                };
                                match legacy {
                                    Err(e) => Err(e),
                                    Ok(legacy) => match template_field(b, "when"@, what) {
                                        Err(e) => Err(e),
                                        Ok(when) => {
                                            let key = match list {
                                                Some(_) => template_field(b, "key"@, what),
                                                None => Ok(None),
                                            };
                                            match key {
                                                Err(e) => Err(e),
                                                Ok(key) => Ok(
                                                    ModuleView {
                                                        name,
                                                        label,
                                                        slots,
                                                        legacy,
                                                        when,
                                                        each: match list {
                                                            Some(l) => Some((l, text_or(b, "as"@, "item"@), key)),
                                                            None => None,
                                                        },
                                                        body: body_of(b),
                                                    },
                                                ),
                                            }
                                        },
                                    },
                                }
                            },
                        }
                    },
                },
            }
        },
        _ => Err(what + ": expected a table"@),
    }
}

/// The tiers come one for each entry of the `tiers` table, in order, each read from its
/// own entry.
pub proof fn lemma_tiers_each(t: Tree, ts: Seq<TierView>)
    requires
        tiers_of(t) == okay(ts),
    ensures
        ts.len() == t.len(),
        forall|i: int| 0 <= i < t.len() ==> tier_of(t[i].0, t[i].1) == okay(#[trigger] ts[i]),
    decreases t.len(),
{
    if t.len() > 0 {
        match tier_of(t[0].0, t[0].1) {
            Ok(x) => match tiers_of(t.skip(1)) {
                Ok(r) => {
                    lemma_tiers_each(t.skip(1), r);
                    assert(ts == seq![x] + r);
                    assert forall|i: int| 0 <= i < t.len() implies tier_of(t[i].0, t[i].1) == okay(#[trigger] ts[i]) by {
                        if i > 0 {
                            assert(t[i] == t.skip(1)[i - 1]);
                            assert(ts[i] == r[i - 1]);
                        }
                    }
                },
                Err(_) => {},
            },
            Err(_) => {},
        }
    }
}

/// A slot is named by its key and labelled by the text of its first `label` entry, else
/// by its name.
pub proof fn lemma_slot_fields(name: Seq<char>, st: Tree, y: (Seq<char>, Seq<char>), x: Seq<char>)
    requires
        slot_of(name, NodeView::Table(st)) == okay(y),
    ensures
        y.0 == name,
        (exists|j: int| first_under(st, "label"@, j) && st[j].1 == NodeView::Text(x)) ==> y.1 == x,
        (forall|j: int| first_under(st, "label"@, j) ==> !(st[j].1 is Text)) ==> y.1 == name,
{
    lemma_get_first(st, "label"@);
    if exists|j: int| first_under(st, "label"@, j) && st[j].1 == NodeView::Text(x) {
        assert(get(st, "label"@) == Some(NodeView::Text(x)));
    }
    match get(st, "label"@) {
        Some(NodeView::Text(l)) => {
            let j = choose|j: int| first_under(st, "label"@, j) && st[j].1 == NodeView::Text(l);
        },
        _ => {},
    }
}

/// The slots come one for each entry of the `slots` table, in order, each read from its
/// own entry (a table).
pub proof fn lemma_slots_each(t: Tree, ss: Seq<(Seq<char>, Seq<char>)>)
    requires
        slots_of(t) == okay(ss),
    ensures
        ss.len() == t.len(),
        forall|i: int| 0 <= i < t.len() ==> slot_of(t[i].0, t[i].1) == okay(#[trigger] ss[i]) && t[i].1 is Table,
    decreases t.len(),
{
    if t.len() > 0 {
        match slot_of(t[0].0, t[0].1) {
            Ok(y) => match slots_of(t.skip(1)) {
                Ok(r) => {
                    lemma_slots_each(t.skip(1), r);
                    assert(ss == seq![y] + r);
                    assert forall|i: int| 0 <= i < t.len() implies slot_of(t[i].0, t[i].1) == okay(#[trigger] ss[i])
                        && t[i].1 is Table by {
                        if i > 0 {
                            assert(t[i] == t.skip(1)[i - 1]);
                            assert(ss[i] == r[i - 1]);
                        }
                    }
                },
                Err(_) => {},
            },
            Err(_) => {},
        }
    }
}

/// The Module heads' keys: what is not part of the Module's element.
pub open spec fn is_head_key(k: Seq<char>) -> bool {
    k == "label"@ || k == "slots"@ || k == "legacy"@ || k == "when"@ || k == "for"@ || k == "as"@ || k == "key"@
}

proof fn lemma_body_of(t: Tree)
    ensures
        forall|k: int| 0 <= k < t.len() && !is_head_key(t[k].0) ==> body_of(t).contains(#[trigger] t[k]),
        forall|e: (Seq<char>, NodeView)| #[trigger] body_of(t).contains(e) ==> t.contains(e) && !is_head_key(e.0),
    decreases t.len(),
{
    if t.len() > 0 {
        let r = t.skip(1);
        lemma_body_of(r);
        assert(head_keys().contains(t[0].0) <==> is_head_key(t[0].0)) by {
            if is_head_key(t[0].0) {
                if t[0].0 == "label"@ { assert(head_keys()[0] == t[0].0); }
                if t[0].0 == "slots"@ { assert(head_keys()[1] == t[0].0); }
                if t[0].0 == "legacy"@ { assert(head_keys()[2] == t[0].0); }
                if t[0].0 == "when"@ { assert(head_keys()[3] == t[0].0); }
                if t[0].0 == "for"@ { assert(head_keys()[4] == t[0].0); }
                if t[0].0 == "as"@ { assert(head_keys()[5] == t[0].0); }
                if t[0].0 == "key"@ { assert(head_keys()[6] == t[0].0); }
            }
            if head_keys().contains(t[0].0) {
                let j = choose|j: int| 0 <= j < 7 && head_keys()[j] == t[0].0;
            }
        }
        let b = body_of(t);
        assert forall|k: int| 0 <= k < t.len() && !is_head_key(t[k].0) implies b.contains(#[trigger] t[k]) by {
            if k == 0 {
                assert(b[0] == t[0]);
            } else {
                assert(t[k] == r[k - 1]);
                let j = choose|j: int| 0 <= j < body_of(r).len() && body_of(r)[j] == t[k];
                if !is_head_key(t[0].0) {
                    assert(b[j + 1] == t[k]);
                } else {
                    assert(b[j] == t[k]);
                }
            }
        }
        assert forall|e: (Seq<char>, NodeView)| #[trigger] b.contains(e) implies t.contains(e) && !is_head_key(e.0) by {
            let j = choose|j: int| 0 <= j < b.len() && b[j] == e;
            if !is_head_key(t[0].0) && j == 0 {
                assert(t[0] == e);
            } else {
                let j2 = if !is_head_key(t[0].0) { j - 1 } else { j };
                assert(body_of(r)[j2] == e);
                assert(body_of(r).contains(e));
                let m = choose|m: int| 0 <= m < r.len() && r[m] == e;
                assert(t[m + 1] == e);
            }
        }
    }
}

/// A Module keeps its name; its label is the text of its first `label` entry, and its name
/// itself when it has none and the name holds no braces; its slots are the names its
/// first `slots` entry lists, none without one; its `when` the text of its first `when`
/// entry; it repeats `for` the text of its first `for` entry exactly when it has one, with
/// the item variable of its first `as` entry (`item` without one) and the key of its
/// first `key` entry; and its element holds every entry but those keys, and only them.
pub proof fn lemma_module_fields(name: Seq<char>, b: Tree, m: ModuleView, x: Seq<char>)
    requires
        module_of(name, NodeView::Table(b)) == okay(m),
    ensures
        m.name == name,
        (exists|i: int| first_under(b, "label"@, i) && b[i].1 == NodeView::Text(x)) ==> m.label == x,
        (forall|i: int| 0 <= i < b.len() ==> b[i].0 != "label"@) && !name.contains('{') && !name.contains('}')
            ==> m.label == name,
        (forall|i: int| 0 <= i < b.len() ==> b[i].0 != "slots"@) ==> m.slots.len() == 0,
        forall|i: int| first_under(b, "slots"@, i) ==> b[i].1 == NodeView::Array(
            m.slots.map_values(|y: Seq<char>| NodeView::Text(y)),
        ),
        m.when == Some(x) <==> exists|i: int| first_under(b, "when"@, i) && b[i].1 == NodeView::Text(x),
        (exists|v: Seq<char>, k: Option<Seq<char>>| m.each == Some((x, v, k)))
            <==> exists|i: int| first_under(b, "for"@, i) && b[i].1 == NodeView::Text(x),
        match m.each {
            Some(e) => {
                &&& (forall|i: int| 0 <= i < b.len() ==> b[i].0 != "as"@) ==> e.1 == "item"@
                &&& (exists|i: int| first_under(b, "as"@, i) && b[i].1 == NodeView::Text(x)) ==> e.1 == x
                &&& (e.2 == Some(x) <==> exists|i: int| first_under(b, "key"@, i) && b[i].1 == NodeView::Text(x))
            },
            None => true,
        },
        forall|k: int| 0 <= k < b.len() && !is_head_key(b[k].0) ==> m.body.contains(#[trigger] b[k]),
        forall|e: (Seq<char>, NodeView)| #[trigger] m.body.contains(e) ==> b.contains(e) && !is_head_key(e.0),
{
    lemma_get_first(b, "label"@);
    lemma_get_first(b, "slots"@);
    lemma_get_first(b, "when"@);
    lemma_get_first(b, "for"@);
    lemma_get_first(b, "as"@);
    lemma_get_first(b, "key"@);
    lemma_body_of(b);
    lemma_escape_plain(name);
    if exists|i: int| first_under(b, "label"@, i) && b[i].1 == NodeView::Text(x) {
        assert(get(b, "label"@) == Some(NodeView::Text(x)));
    }
    match get(b, "slots"@) {
        Some(NodeView::Array(a)) => {
            let i = choose|i: int| first_under(b, "slots"@, i) && b[i].1 == NodeView::Array(a);
            assert(a =~= m.slots.map_values(|y: Seq<char>| NodeView::Text(y))) by {
                assert forall|j: int| 0 <= j < a.len() implies a[j] == m.slots.map_values(|y: Seq<char>| NodeView::Text(y))[j] by {
                    assert(a[j] is Text);
                }
            }
            assert forall|j: int| first_under(b, "slots"@, j) implies b[j].1 == NodeView::Array(
                m.slots.map_values(|y: Seq<char>| NodeView::Text(y)),
            ) by {
                assert(j == i);
            }
        },
        Some(v) => {
            let i = choose|i: int| first_under(b, "slots"@, i) && b[i].1 == v;
        },
        None => {},
    }
    match get(b, "for"@) {
        Some(NodeView::Text(l)) => {
            let i = choose|i: int| first_under(b, "for"@, i) && b[i].1 == NodeView::Text(l);
            assert(m.each is Some);
            match get(b, "as"@) {
                Some(NodeView::Text(v)) => {
                    let j = choose|j: int| first_under(b, "as"@, j) && b[j].1 == NodeView::Text(v);
                },
                Some(v) => {
                    let j = choose|j: int| first_under(b, "as"@, j) && b[j].1 == v;
                },
                None => {},
            }
            if exists|i: int| first_under(b, "as"@, i) && b[i].1 == NodeView::Text(x) {
                assert(get(b, "as"@) == Some(NodeView::Text(x)));
            }
        },
        _ => {},
    }
    if exists|i: int| first_under(b, "for"@, i) && b[i].1 == NodeView::Text(x) {
        assert(get(b, "for"@) == Some(NodeView::Text(x)));
    }
}

/// A name with no braces is its own label text.
proof fn lemma_escape_plain(s: Seq<char>)
    ensures
        !s.contains('{') && !s.contains('}') ==> escape_braces(s) == s,
    decreases s.len(),
{
    if s.len() > 0 && !s.contains('{') && !s.contains('}') {
        let r = s.skip(1);
        assert(!r.contains('{') && !r.contains('}')) by {
            if r.contains('{') {
                let j = choose|j: int| 0 <= j < r.len() && r[j] == '{';
                assert(s[j + 1] == '{');
            }
            if r.contains('}') {
                let j = choose|j: int| 0 <= j < r.len() && r[j] == '}';
                assert(s[j + 1] == '}');
            }
        }
        lemma_escape_plain(r);
        assert(s[0] != '{' && s[0] != '}');
        assert(seq![s[0]] + r =~= s);
    }
}

/// The Modules, in order.
pub open spec fn modules_of(t: Tree) -> Result<Seq<ModuleView>, Seq<char>>
    decreases t.len(),
{
    if t.len() == 0 {
        Ok(Seq::empty())
    } else {
        match module_of(t[0].0, t[0].1) {
            Err(e) => Err(e),
            Ok(x) => match modules_of(t.skip(1)) {
                Err(e) => Err(e),
                Ok(r) => Ok(seq![x] + r),
            },
        }
    }
}

/// The Modules come one for each entry of the `modules` table, in order, each read from
/// its own entry.
pub proof fn lemma_modules_each(t: Tree, ms: Seq<ModuleView>)
    requires
        modules_of(t) == okay(ms),
    ensures
        ms.len() == t.len(),
        forall|i: int| 0 <= i < t.len() ==> module_of(t[i].0, t[i].1) == okay(#[trigger] ms[i]),
    decreases t.len(),
{
    if t.len() > 0 {
        match module_of(t[0].0, t[0].1) {
            Ok(x) => match modules_of(t.skip(1)) {
                Ok(r) => {
                    lemma_modules_each(t.skip(1), r);
                    assert(ms == seq![x] + r);
                    assert forall|i: int| 0 <= i < t.len() implies module_of(t[i].0, t[i].1) == okay(#[trigger] ms[i]) by {
                        if i > 0 {
                            assert(t[i] == t.skip(1)[i - 1]);
                            assert(ms[i] == r[i - 1]);
                        }
                    }
                },
                Err(_) => {},
            },
            Err(_) => {},
        }
    }
}

/// A Widget's module set as read.
pub struct SetView {
    pub tiers: Seq<TierView>,
    pub slots: Seq<(Seq<char>, Seq<char>)>,
    pub modules: Seq<ModuleView>,
}

/// The entries under top-level key `k` as a table; none when it is absent.
pub open spec fn section(doc: Tree, k: Seq<char>) -> Result<Tree, Seq<char>> {
    match get(doc, k) {
        None => Ok(Seq::empty()),
        Some(NodeView::Table(t)) => Ok(t),
        Some(_) => Err(k + ": expected a table"@),
    }
}

/// What a Widget file's `tiers`, `slots` and `modules` declare: none when it has none of
/// them; else the tiers, slots and Modules read in that order, then checked together
/// (`set_problem`); the first mistake as an error.
pub open spec fn module_set_view(doc: Tree) -> Result<Option<SetView>, Seq<char>> {
    if get(doc, "tiers"@) is None && get(doc, "slots"@) is None && get(doc, "modules"@) is None {
        Ok(None)
    } else {
        match section(doc, "tiers"@) {
            Err(e) => Err(e),
            Ok(tt) => match tiers_of(tt) {
                Err(e) => Err(e),
                Ok(tiers) => match section(doc, "slots"@) {
                    Err(e) => Err(e),
                    Ok(st) => match slots_of(st) {
                        Err(e) => Err(e),
                        Ok(slots) => match section(doc, "modules"@) {
                            Err(e) => Err(e),
                            Ok(mt) => match modules_of(mt) {
                                Err(e) => Err(e),
                                Ok(modules) => match set_problem(
                                    slots.map_values(|x: (Seq<char>, Seq<char>)| x.0),
                                    modules.map_values(|m: ModuleView| (m.name, m.slots)),
                                    tiers.map_values(|t: TierView| (t.name, t.layout)),
                                ) {
                                    Some(e) => Err(e),
                                    None => Ok(Some(SetView { tiers, slots, modules })),
                                },
                            },
                        },
                    },
                },
            },
        }
    }
}

pub(crate) proof fn lemma_table_view(v: Vec<(String, TomlNode)>)
    ensures
        node_view(TomlNode::Table(v)) == NodeView::Table(tree_view(v@)),
{
    match node_view(TomlNode::Table(v)) {
        NodeView::Table(x) => {
            assert forall|i: int| 0 <= i < v@.len() implies x[i] == tree_view(v@)[i] by {}
            assert(x =~= tree_view(v@));
        },
        _ => {},
    }
}

pub(crate) proof fn lemma_array_view(v: Vec<TomlNode>)
    ensures
        node_view(TomlNode::Array(v)) == NodeView::Array(v@.map_values(|x: TomlNode| node_view(x))),
{
    match node_view(TomlNode::Array(v)) {
        NodeView::Array(x) => {
            assert forall|i: int| 0 <= i < v@.len() implies x[i] == v@.map_values(|x: TomlNode| node_view(x))[i] by {}
            assert(x =~= v@.map_values(|x: TomlNode| node_view(x)));
        },
        _ => {},
    }
}

/// The value under key `k` of a table, first of that key.
pub(crate) fn get_node<'a>(t: &'a Vec<(String, TomlNode)>, k: &str) -> (r: Option<&'a TomlNode>)
    ensures
        match r {
            Some(n) => get(tree_view(t@), k@) == Some(node_view(*n)),
            None => get(tree_view(t@), k@) is None,
        },
{
    let ghost tv = tree_view(t@);
    let mut i: usize = 0;
    assert(tv.skip(0) =~= tv);
    while i < t.len()
        invariant
            i <= t.len(),
            tv == tree_view(t@),
            get(tv, k@) == get(tv.skip(i as int), k@),
        decreases t.len() - i,
    {
        assert(tv.skip(i as int)[0] == tv[i as int]);
        assert(tv.skip(i as int).skip(1) =~= tv.skip(i + 1));
        if str_eq(t[i].0.as_str(), k) {
            return Some(&t[i].1);
        }
        i += 1;
    }
    assert(tv.skip(i as int) =~= Seq::<(Seq<char>, NodeView)>::empty());
    None
}

/// `keys_problem` as a result.
fn check_keys(t: &Vec<(String, TomlNode)>, allowed: &Vec<String>, what: &str) -> (r: Result<(), String>)
    ensures
        match r {
            Ok(()) => keys_problem(tree_view(t@), names_view(allowed@), what@) is None,
            Err(e) => keys_problem(tree_view(t@), names_view(allowed@), what@) == Some(e@),
        },
{
    let ghost ks = tree_keys(tree_view(t@));
    let ghost av = names_view(allowed@);
    let mut i: usize = 0;
    assert(ks.skip(0) =~= ks);
    while i < t.len()
        invariant
            i <= t.len(),
            ks == tree_keys(tree_view(t@)),
            av == names_view(allowed@),
            forall|j: int| 0 <= j < i ==> av.contains(#[trigger] ks[j]),
            first_unknown(ks, av) == (if first_unknown(ks.skip(i as int), av) < 0 {
                -1
            } else {
                first_unknown(ks.skip(i as int), av) + i
            }),
        decreases t.len() - i,
    {
        assert(ks.skip(i as int)[0] == t@[i as int].0@);
        assert(ks.skip(i as int).skip(1) =~= ks.skip(i + 1));
        let k = t[i].0.as_str();
        if !has_name(allowed, k) {
            let head = concat3(what, ": unknown key `", k);
            let tail = concat("`", suggest_among(k, allowed).as_str());
            let e = concat(head.as_str(), tail.as_str());
            assert(tree_view(t@)[i as int].0 == k@);
            assert(e@ =~= what@ + ": unknown key `"@ + k@ + "`"@ + suggestion(k@, seq![av]));
            return Err(e);
        }
        i += 1;
    }
    assert(ks.skip(i as int) =~= Seq::<Seq<char>>::empty());
    Ok(())
}

/// The texts of an array that holds only strings.
pub(crate) fn texts(n: &TomlNode) -> (r: Option<Vec<String>>)
    ensures
        match r {
            Some(v) => text_list(node_view(*n)) == Some(names_view(v@)),
            None => text_list(node_view(*n)) is None,
        },
{
    match n {
        TomlNode::Array(a) => {
            proof {
                lemma_array_view(*a);
            }
            let ghost av = a@.map_values(|x: TomlNode| node_view(x));
            assert(node_view(*n) == NodeView::Array(av));
            let mut out: Vec<String> = Vec::new();
            let mut i: usize = 0;
            while i < a.len()
                invariant
                    i <= a.len(),
                    av == a@.map_values(|x: TomlNode| node_view(x)),
                    node_view(*n) == NodeView::Array(av),
                    out.len() == i,
                    forall|j: int| 0 <= j < i ==> (#[trigger] av[j]) == NodeView::Text(out@[j]@),
                decreases a.len() - i,
            {
                match &a[i] {
                    TomlNode::Text(s) => {
                        out.push(s.clone());
                    },
                    _ => {
                        assert(!(av[i as int] is Text));
                        assert(!(forall|j: int| 0 <= j < av.len() ==> (#[trigger] av[j]) is Text));
                        return None;
                    },
                }
                i += 1;
            }
            proof {
                assert forall|j: int| 0 <= j < av.len() implies (#[trigger] av[j]) is Text by {
                    assert(av[j] == NodeView::Text(out@[j]@));
                }
                assert(names_view(out@) =~= av.map_values(|x: NodeView| match x {
                    NodeView::Text(s) => s,
                    _ => Seq::empty(),
                }));
            }
            Some(out)
        },
        _ => None,
    }
}

/// An optional text by its chars.
pub open spec fn opt_text(o: Option<String>) -> Option<Seq<char>> {
    match o {
        Some(s) => Some(s@),
        None => None,
    }
}

/// A tier as a Widget declares it.
pub struct TierSpec {
    pub name: String,
    pub label: String,
    /// When this tier is the current one, as the template's text; none = the fallback
    /// when no tier's holds.
    pub when: Option<String>,
    /// What the Settings preview renders it at, as written; none = 300 by 200.
    pub size: Option<(String, String)>,
    /// Each slot with the Module names (all of a `for` Module) or ids it holds.
    pub layout: Vec<(String, Vec<String>)>,
}

impl View for TierSpec {
    type V = TierView;

    open spec fn view(&self) -> TierView {
        TierView {
            name: self.name@,
            label: self.label@,
            when: opt_text(self.when),
            size: match self.size {
                Some((w, h)) => Some((w@, h@)),
                None => None,
            },
            layout: slots_v(self.layout@),
        }
    }
}

/// A value read.
pub open spec fn okay<T>(x: T) -> Result<T, Seq<char>> {
    Ok(x)
}

/// A mistake found, by its message.
pub open spec fn fail<T>(e: Seq<char>) -> Result<T, Seq<char>> {
    Err(e)
}

/// `res` with `p` before what it holds.
pub open spec fn prepended<T>(p: Seq<T>, res: Result<Seq<T>, Seq<char>>) -> Result<Seq<T>, Seq<char>> {
    match res {
        Ok(r) => Ok(p + r),
        Err(e) => Err(e),
    }
}

pub(crate) proof fn lemma_prepended<T>(p: Seq<T>, x: T, res: Result<Seq<T>, Seq<char>>)
    ensures
        prepended(Seq::<T>::empty(), res) == res,
        prepended(p, prepended(seq![x], res)) == prepended(p.push(x), res),
{
    match res {
        Ok(r) => {
            assert(Seq::<T>::empty() + r =~= r);
            assert(p + (seq![x] + r) =~= p.push(x) + r);
        },
        Err(_) => {},
    }
}

/// `layout_of`.
fn read_layout(t: &Vec<(String, TomlNode)>, what: &str) -> (r: Result<Vec<(String, Vec<String>)>, String>)
    ensures
        match r {
            Ok(l) => layout_of(tree_view(t@), what@) == okay(slots_v(l@)),
            Err(e) => layout_of(tree_view(t@), what@) == fail::<LayoutV>(e@),
        },
{
    let ghost tv = tree_view(t@);
    let mut out: Vec<(String, Vec<String>)> = Vec::new();
    let mut i: usize = 0;
    proof {
        assert(tv.skip(0) =~= tv);
        lemma_prepended(Seq::<(Seq<char>, Seq<Seq<char>>)>::empty(), (Seq::empty(), Seq::empty()), layout_of(tv, what@));
    }
    while i < t.len()
        invariant
            i <= t.len(),
            tv == tree_view(t@),
            layout_of(tv, what@) == prepended(slots_v(out@), layout_of(tv.skip(i as int), what@)),
        decreases t.len() - i,
    {
        assert(tv.skip(i as int)[0] == tv[i as int]);
        assert(tv.skip(i as int).skip(1) =~= tv.skip(i + 1));
        match texts(&t[i].1) {
            None => {
                let e = concat3(what, ".layout.", t[i].0.as_str());
                let e = concat(e.as_str(), ": expected a list of module names");
                return Err(e);
            },
            Some(l) => {
                let ghost before = slots_v(out@);
                out.push((t[i].0.clone(), l));
                proof {
                    let x = (tv[i as int].0, names_view(l@));
                    assert(slots_v(out@) =~= before.push(x));
                    lemma_prepended(before, x, layout_of(tv.skip(i + 1), what@));
                }
            },
        }
        i += 1;
    }
    proof {
        assert(tv.skip(i as int) =~= Seq::<(Seq<char>, NodeView)>::empty());
        assert(slots_v(out@) + Seq::<(Seq<char>, Seq<Seq<char>>)>::empty() =~= slots_v(out@));
    }
    Ok(out)
}

/// A size as written, by its plain values.
pub type SizeV = Option<(Seq<char>, Seq<char>)>;

pub open spec fn opt_node(v: Option<&TomlNode>) -> Option<NodeView> {
    match v {
        Some(n) => Some(node_view(*n)),
        None => None,
    }
}

pub open spec fn size_v(o: Option<(String, String)>) -> SizeV {
    match o {
        Some((w, h)) => Some((w@, h@)),
        None => None,
    }
}

/// `number_text`.
fn number_of(n: &TomlNode) -> (r: Option<String>)
    ensures
        opt_text(r) == number_text(node_view(*n)),
{
    match n {
        TomlNode::Number(s) => Some(s.clone()),
        _ => None,
    }
}

/// `size_of`.
fn read_size(v: Option<&TomlNode>, what: &str) -> (r: Result<Option<(String, String)>, String>)
    ensures
        match r {
            Ok(o) => size_of(opt_node(v), what@) == okay(size_v(o)),
            Err(e) => size_of(opt_node(v), what@) == fail::<SizeV>(e@),
        },
{
    match v {
        None => Ok(None),
        Some(n) => {
            if let TomlNode::Array(a) = n {
                proof {
                    lemma_array_view(*a);
                }
                if a.len() == 2 {
                    let w = number_of(&a[0]);
                    let h = number_of(&a[1]);
                    return match (w, h) {
                        (None, _) => Err(concat(what, ": width is not a number")),
                        (Some(_), None) => Err(concat(what, ": height is not a number")),
                        (Some(w), Some(h)) => Ok(Some((w, h))),
                    };
                }
            }
            Err(concat(what, ": expected [width, height]"))
        },
    }
}

/// `template_field`.
fn read_template(t: &Vec<(String, TomlNode)>, k: &str, what: &str) -> (r: Result<Option<String>, String>)
    ensures
        match r {
            Ok(o) => template_field(tree_view(t@), k@, what@) == okay(opt_text(o)),
            Err(e) => template_field(tree_view(t@), k@, what@) == fail::<Option<Seq<char>>>(e@),
        },
{
    match get_node(t, k) {
        None => Ok(None),
        Some(TomlNode::Text(s)) => Ok(Some(s.clone())),
        Some(_) => {
            let e = concat3(what, ".", k);
            Err(concat(e.as_str(), ": expected a string"))
        },
    }
}

/// `text_or`.
pub(crate) fn text_at(t: &Vec<(String, TomlNode)>, k: &str, default: &str) -> (r: String)
    ensures
        r@ == text_or(tree_view(t@), k@, default@),
{
    match get_node(t, k) {
        Some(TomlNode::Text(s)) => s.clone(),
        _ => String::from_str(default),
    }
}

/// The keys a tier may have.
fn tier_key_names() -> (r: Vec<String>)
    ensures
        names_view(r@) == tier_keys(),
{
    let r = vec![String::from_str("label"), String::from_str("size"), String::from_str("when"), String::from_str("layout")];
    assert(names_view(r@) =~= tier_keys());
    r
}

/// `tier_of`.
fn read_tier(name: &String, v: &TomlNode) -> (r: Result<TierSpec, String>)
    ensures
        match r {
            Ok(x) => tier_of(name@, node_view(*v)) == okay(x@),
            Err(e) => tier_of(name@, node_view(*v)) == fail::<TierView>(e@),
        },
{
    let what = concat("tiers.", name.as_str());
    match v {
        TomlNode::Table(tt) => {
            proof {
                lemma_table_view(*tt);
            }
            check_keys(tt, &tier_key_names(), what.as_str())?;
            let layout = match get_node(tt, "layout") {
                None => Vec::new(),
                Some(TomlNode::Table(l)) => {
                    proof {
                        lemma_table_view(*l);
                    }
                    read_layout(l, what.as_str())?
                },
                Some(_) => {
                    return Err(concat(what.as_str(), ".layout: expected a table"));
                },
            };
            proof {
                assert(slots_v(layout@) == match get(tree_view(tt@), "layout"@) {
                    Some(NodeView::Table(l)) => match layout_of(l, what@) {
                        Ok(x) => x,
                        Err(_) => Seq::empty(),
                    },
                    _ => Seq::empty(),
                }) by {
                    if get(tree_view(tt@), "layout"@) is None {
                        assert(slots_v(layout@) =~= Seq::<(Seq<char>, Seq<Seq<char>>)>::empty());
                    }
                }
            }
            let when = read_template(tt, "when", what.as_str())?;
            let size_what = concat(what.as_str(), ".size");
            let size = read_size(get_node(tt, "size"), size_what.as_str())?;
            let label = text_at(tt, "label", name.as_str());
            Ok(TierSpec { name: name.clone(), label, when, size, layout })
        },
        _ => Err(concat(what.as_str(), ": expected a table")),
    }
}

pub open spec fn tiers_v(v: Seq<TierSpec>) -> Seq<TierView> {
    v.map_values(|x: TierSpec| x@)
}

/// `tiers_of`.
fn read_tiers(t: &Vec<(String, TomlNode)>) -> (r: Result<Vec<TierSpec>, String>)
    ensures
        match r {
            Ok(l) => tiers_of(tree_view(t@)) == okay(tiers_v(l@)),
            Err(e) => tiers_of(tree_view(t@)) == fail::<Seq<TierView>>(e@),
        },
{
    let ghost tv = tree_view(t@);
    let mut out: Vec<TierSpec> = Vec::new();
    let mut i: usize = 0;
    proof {
        assert(tv.skip(0) =~= tv);
        assert(tiers_v(out@) =~= Seq::<TierView>::empty());
        lemma_prepended(Seq::<TierView>::empty(), arbitrary(), tiers_of(tv));
    }
    while i < t.len()
        invariant
            i <= t.len(),
            tv == tree_view(t@),
            tiers_of(tv) == prepended(tiers_v(out@), tiers_of(tv.skip(i as int))),
        decreases t.len() - i,
    {
        assert(tv.skip(i as int)[0] == tv[i as int]);
        assert(tv.skip(i as int).skip(1) =~= tv.skip(i + 1));
        let x = read_tier(&t[i].0, &t[i].1)?;
        let ghost before = tiers_v(out@);
        let ghost xv = x@;
        out.push(x);
        proof {
            assert(tiers_v(out@) =~= before.push(xv));
            lemma_prepended(before, xv, tiers_of(tv.skip(i + 1)));
        }
        i += 1;
    }
    proof {
        assert(tv.skip(i as int) =~= Seq::<(Seq<char>, NodeView)>::empty());
        assert(tiers_v(out@) + Seq::<TierView>::empty() =~= tiers_v(out@));
    }
    Ok(out)
}

/// A slot by its name and label.
pub type SlotView = (Seq<char>, Seq<char>);

pub open spec fn slot_defs_v(v: Seq<SlotDef>) -> Seq<SlotView> {
    v.map_values(|x: SlotDef| (x.name@, x.label@))
}

/// `slot_of`.
fn read_slot(name: &String, v: &TomlNode) -> (r: Result<SlotDef, String>)
    ensures
        match r {
            Ok(x) => slot_of(name@, node_view(*v)) == okay((x.name@, x.label@)),
            Err(e) => slot_of(name@, node_view(*v)) == fail::<SlotView>(e@),
        },
{
    let what = concat("slots.", name.as_str());
    match v {
        TomlNode::Table(st) => {
            proof {
                lemma_table_view(*st);
            }
            let allowed = vec![String::from_str("label")];
            assert(names_view(allowed@) =~= seq!["label"@]);
            check_keys(st, &allowed, what.as_str())?;
            Ok(SlotDef { name: name.clone(), label: text_at(st, "label", name.as_str()) })
        },
        _ => Err(concat(what.as_str(), ": expected a table")),
    }
}

/// `slots_of`.
fn read_slots(t: &Vec<(String, TomlNode)>) -> (r: Result<Vec<SlotDef>, String>)
    ensures
        match r {
            Ok(l) => slots_of(tree_view(t@)) == okay(slot_defs_v(l@)),
            Err(e) => slots_of(tree_view(t@)) == fail::<Seq<SlotView>>(e@),
        },
{
    let ghost tv = tree_view(t@);
    let mut out: Vec<SlotDef> = Vec::new();
    let mut i: usize = 0;
    proof {
        assert(tv.skip(0) =~= tv);
        assert(slot_defs_v(out@) =~= Seq::<SlotView>::empty());
        lemma_prepended(Seq::<SlotView>::empty(), arbitrary(), slots_of(tv));
    }
    while i < t.len()
        invariant
            i <= t.len(),
            tv == tree_view(t@),
            slots_of(tv) == prepended(slot_defs_v(out@), slots_of(tv.skip(i as int))),
        decreases t.len() - i,
    {
        assert(tv.skip(i as int)[0] == tv[i as int]);
        assert(tv.skip(i as int).skip(1) =~= tv.skip(i + 1));
        let x = read_slot(&t[i].0, &t[i].1)?;
        let ghost before = slot_defs_v(out@);
        let ghost xv = (x.name@, x.label@);
        out.push(x);
        proof {
            assert(slot_defs_v(out@) =~= before.push(xv));
            lemma_prepended(before, xv, slots_of(tv.skip(i + 1)));
        }
        i += 1;
    }
    proof {
        assert(tv.skip(i as int) =~= Seq::<(Seq<char>, NodeView)>::empty());
        assert(slot_defs_v(out@) + Seq::<SlotView>::empty() =~= slot_defs_v(out@));
    }
    Ok(out)
}

/// Pairs of texts by their chars.
pub type PairsV = Seq<(Seq<char>, Seq<char>)>;

pub open spec fn pairs_v(v: Seq<(String, String)>) -> PairsV {
    v.map_values(|e: (String, String)| (e.0@, e.1@))
}

/// `legacy_of`.
fn read_legacy(t: &Vec<(String, TomlNode)>, what: &str) -> (r: Result<Vec<(String, String)>, String>)
    ensures
        match r {
            Ok(l) => legacy_of(tree_view(t@), what@) == okay(pairs_v(l@)),
            Err(e) => legacy_of(tree_view(t@), what@) == fail::<PairsV>(e@),
        },
{
    let ghost tv = tree_view(t@);
    let mut out: Vec<(String, String)> = Vec::new();
    let mut i: usize = 0;
    proof {
        assert(tv.skip(0) =~= tv);
        assert(pairs_v(out@) =~= Seq::<(Seq<char>, Seq<char>)>::empty());
        lemma_prepended(Seq::<(Seq<char>, Seq<char>)>::empty(), arbitrary(), legacy_of(tv, what@));
    }
    while i < t.len()
        invariant
            i <= t.len(),
            tv == tree_view(t@),
            legacy_of(tv, what@) == prepended(pairs_v(out@), legacy_of(tv.skip(i as int), what@)),
        decreases t.len() - i,
    {
        assert(tv.skip(i as int)[0] == tv[i as int]);
        assert(tv.skip(i as int).skip(1) =~= tv.skip(i + 1));
        match &t[i].1 {
            TomlNode::Text(p) => {
                let ghost before = pairs_v(out@);
                let ghost xv = (t@[i as int].0@, p@);
                out.push((t[i].0.clone(), p.clone()));
                proof {
                    assert(pairs_v(out@) =~= before.push(xv));
                    lemma_prepended(before, xv, legacy_of(tv.skip(i + 1), what@));
                }
            },
            _ => {
                let e = concat3(what, ".legacy.", t[i].0.as_str());
                return Err(concat(e.as_str(), ": expected a param name"));
            },
        }
        i += 1;
    }
    proof {
        assert(tv.skip(i as int) =~= Seq::<(Seq<char>, NodeView)>::empty());
        assert(pairs_v(out@) + Seq::<(Seq<char>, Seq<char>)>::empty() =~= pairs_v(out@));
    }
    Ok(out)
}

/// `escape_braces`.
fn escaped(s: &str) -> (r: String)
    ensures
        r@ == escape_braces(s@),
{
    let cs = crate::strs::chars_of(s);
    let mut parts: Vec<char> = Vec::new();
    let mut j: usize = 0;
    assert(cs@.skip(0) =~= cs@);
    while j < cs.len()
        invariant
            j <= cs.len(),
            cs@ == s@,
            escape_braces(s@) == parts@ + escape_braces(cs@.skip(j as int)),
        decreases cs.len() - j,
    {
        let c = cs[j];
        assert(cs@.skip(j as int)[0] == c);
        assert(cs@.skip(j as int).skip(1) =~= cs@.skip(j + 1));
        let ghost before = parts@;
        if c == '{' || c == '}' {
            parts.push(c);
            parts.push(c);
            assert(parts@ =~= before + seq![c, c]);
        } else {
            parts.push(c);
            assert(parts@ =~= before + seq![c]);
        }
        j += 1;
    }
    assert(cs@.skip(j as int) =~= Seq::<char>::empty());
    assert(parts@ + Seq::<char>::empty() =~= parts@);
    crate::strs::string_of(&parts)
}

/// `body_of`.
fn body_entries(t: &Vec<(String, TomlNode)>) -> (r: Vec<(String, TomlNode)>)
    ensures
        tree_view(r@) == body_of(tree_view(t@)),
{
    let ghost tv = tree_view(t@);
    let heads = vec![
        String::from_str("label"),
        String::from_str("slots"),
        String::from_str("legacy"),
        String::from_str("when"),
        String::from_str("for"),
        String::from_str("as"),
        String::from_str("key"),
    ];
    assert(names_view(heads@) =~= head_keys());
    let mut out: Vec<(String, TomlNode)> = Vec::new();
    let mut i: usize = 0;
    assert(tv.skip(0) =~= tv);
    while i < t.len()
        invariant
            i <= t.len(),
            tv == tree_view(t@),
            names_view(heads@) == head_keys(),
            body_of(tv) == tree_view(out@) + body_of(tv.skip(i as int)),
        decreases t.len() - i,
    {
        assert(tv.skip(i as int)[0] == tv[i as int]);
        assert(tv.skip(i as int).skip(1) =~= tv.skip(i + 1));
        if !has_name(&heads, t[i].0.as_str()) {
            let ghost before = tree_view(out@);
            out.push((t[i].0.clone(), copy_node(&t[i].1)));
            assert(tree_view(out@) =~= before + seq![tv[i as int]]);
        }
        i += 1;
    }
    assert(tv.skip(i as int) =~= Seq::<(Seq<char>, NodeView)>::empty());
    assert(tree_view(out@) + Seq::<(Seq<char>, NodeView)>::empty() =~= tree_view(out@));
    out
}

/// A copy of a node, all the way down.
pub(crate) fn copy_node(n: &TomlNode) -> (r: TomlNode)
    ensures
        node_view(r) == node_view(*n),
    decreases n,
{
    match n {
        TomlNode::Text(s) => TomlNode::Text(s.clone()),
        TomlNode::Number(s) => TomlNode::Number(s.clone()),
        TomlNode::Bool(b) => TomlNode::Bool(*b),
        TomlNode::Other => TomlNode::Other,
        TomlNode::Array(a) => {
            let mut out: Vec<TomlNode> = Vec::new();
            let mut i: usize = 0;
            while i < a.len()
                invariant
                    i <= a.len(),
                    out.len() == i,
                    *n == TomlNode::Array(*a),
                    forall|j: int| 0 <= j < i ==> node_view(#[trigger] out@[j]) == node_view(a@[j]),
                decreases a.len() - i,
            {
                proof {
                    assert(decreases_to!(*n => (*n)->Array_0));
                    assert(decreases_to!(*a => a@));
                    assert(decreases_to!(a@ => a@[i as int]));
                }
                out.push(copy_node(&a[i]));
                i += 1;
            }
            proof {
                lemma_array_view(*a);
                lemma_array_view(out);
                assert(out@.map_values(|x: TomlNode| node_view(x)) =~= a@.map_values(|x: TomlNode| node_view(x)));
            }
            TomlNode::Array(out)
        },
        TomlNode::Table(t) => {
            let mut out: Vec<(String, TomlNode)> = Vec::new();
            let mut i: usize = 0;
            while i < t.len()
                invariant
                    i <= t.len(),
                    out.len() == i,
                    *n == TomlNode::Table(*t),
                    forall|j: int| 0 <= j < i ==> (#[trigger] tree_view(out@)[j]) == tree_view(t@)[j],
                decreases t.len() - i,
            {
                proof {
                    assert(decreases_to!(*n => (*n)->Table_0));
                    assert(decreases_to!(*t => t@));
                    assert(decreases_to!(t@ => t@[i as int]));
                    assert(decreases_to!(t@[i as int] => t@[i as int].1));
                }
                let c = copy_node(&t[i].1);
                let ghost before = out@;
                out.push((t[i].0.clone(), c));
                proof {
                    assert forall|j: int| 0 <= j < i implies (#[trigger] tree_view(out@)[j]) == tree_view(t@)[j] by {
                        assert(out@[j] == before[j]);
                        assert(tree_view(before)[j] == tree_view(t@)[j]);
                    }
                }
                i += 1;
            }
            proof {
                lemma_table_view(*t);
                lemma_table_view(out);
                assert(tree_view(out@) =~= tree_view(t@));
            }
            TomlNode::Table(out)
        },
    }
}

/// A Module as a Widget declares it.
pub struct ModuleSpec {
    pub name: String,
    /// The label's template text (the name, braces doubled, when the file gives none).
    pub label: String,
    /// Where it may be dropped; empty = any slot.
    pub slots: Vec<String>,
    /// Each layout entry with the old `show_*` param it replaced.
    pub legacy: Vec<(String, String)>,
    /// Whether it exists right now, as a template's text.
    pub when: Option<String>,
    /// `for`: the list template's text, the item variable, the key template's text.
    pub each: Option<(String, String, Option<String>)>,
    /// The rest of its table: the Module's element, for the element reader.
    pub body: Vec<(String, TomlNode)>,
}

impl View for ModuleSpec {
    type V = ModuleView;

    open spec fn view(&self) -> ModuleView {
        ModuleView {
            name: self.name@,
            label: self.label@,
            slots: names_view(self.slots@),
            legacy: pairs_v(self.legacy@),
            when: opt_text(self.when),
            each: match self.each {
                Some((l, v, k)) => Some((l@, v@, opt_text(k))),
                None => None,
            },
            body: tree_view(self.body@),
        }
    }
}

/// `module_of`.
fn read_module(name: &String, v: &TomlNode) -> (r: Result<ModuleSpec, String>)
    ensures
        match r {
            Ok(x) => module_of(name@, node_view(*v)) == okay(x@),
            Err(e) => module_of(name@, node_view(*v)) == fail::<ModuleView>(e@),
        },
{
    let what = concat("modules.", name.as_str());
    match v {
        TomlNode::Table(b) => {
            proof {
                lemma_table_view(*b);
            }
            let label = match get_node(b, "label") {
                Some(TomlNode::Text(s)) => s.clone(),
                Some(_) => {
                    return Err(concat(what.as_str(), ".label: expected a string"));
                },
                None => escaped(name.as_str()),
            };
            let list = read_template(b, "for", what.as_str())?;
            let slots = match get_node(b, "slots") {
                None => Vec::new(),
                Some(n) => match texts(n) {
                    Some(l) => l,
                    None => {
                        return Err(concat(what.as_str(), ".slots: expected a list of names"));
                    },
                },
            };
            assert(names_view(slots@) == match get(tree_view(b@), "slots"@) {
                Some(n) => match text_list(n) {
                    Some(l) => l,
                    None => Seq::empty(),
                },
                None => Seq::<Seq<char>>::empty(),
            }) by {
                if get(tree_view(b@), "slots"@) is None {
                    assert(names_view(slots@) =~= Seq::<Seq<char>>::empty());
                }
            }
            let legacy = match get_node(b, "legacy") {
                None => Vec::new(),
                Some(TomlNode::Table(l)) => {
                    proof {
                        lemma_table_view(*l);
                    }
                    read_legacy(l, what.as_str())?
                },
                Some(_) => {
                    return Err(concat(what.as_str(), ".legacy: expected a table"));
                },
            };
            assert(pairs_v(legacy@) == match get(tree_view(b@), "legacy"@) {
                Some(NodeView::Table(l)) => match legacy_of(l, what@) {
                    Ok(x) => x,
                    Err(_) => Seq::empty(),
                },
                _ => Seq::empty(),
            }) by {
                if get(tree_view(b@), "legacy"@) is None {
                    assert(pairs_v(legacy@) =~= Seq::<(Seq<char>, Seq<char>)>::empty());
                }
            }
            let when = read_template(b, "when", what.as_str())?;
            let each = match list {
                Some(l) => {
                    let key = read_template(b, "key", what.as_str())?;
                    Some((l, text_at(b, "as", "item"), key))
                },
                None => None,
            };
            let body = body_entries(b);
            Ok(ModuleSpec { name: name.clone(), label, slots, legacy, when, each, body })
        },
        _ => Err(concat(what.as_str(), ": expected a table")),
    }
}

pub open spec fn modules_v(v: Seq<ModuleSpec>) -> Seq<ModuleView> {
    v.map_values(|x: ModuleSpec| x@)
}

/// `modules_of`.
fn read_modules(t: &Vec<(String, TomlNode)>) -> (r: Result<Vec<ModuleSpec>, String>)
    ensures
        match r {
            Ok(l) => modules_of(tree_view(t@)) == okay(modules_v(l@)),
            Err(e) => modules_of(tree_view(t@)) == fail::<Seq<ModuleView>>(e@),
        },
{
    let ghost tv = tree_view(t@);
    let mut out: Vec<ModuleSpec> = Vec::new();
    let mut i: usize = 0;
    proof {
        assert(tv.skip(0) =~= tv);
        assert(modules_v(out@) =~= Seq::<ModuleView>::empty());
        lemma_prepended(Seq::<ModuleView>::empty(), arbitrary(), modules_of(tv));
    }
    while i < t.len()
        invariant
            i <= t.len(),
            tv == tree_view(t@),
            modules_of(tv) == prepended(modules_v(out@), modules_of(tv.skip(i as int))),
        decreases t.len() - i,
    {
        assert(tv.skip(i as int)[0] == tv[i as int]);
        assert(tv.skip(i as int).skip(1) =~= tv.skip(i + 1));
        let x = read_module(&t[i].0, &t[i].1)?;
        let ghost before = modules_v(out@);
        let ghost xv = x@;
        out.push(x);
        proof {
            assert(modules_v(out@) =~= before.push(xv));
            lemma_prepended(before, xv, modules_of(tv.skip(i + 1)));
        }
        i += 1;
    }
    proof {
        assert(tv.skip(i as int) =~= Seq::<(Seq<char>, NodeView)>::empty());
        assert(modules_v(out@) + Seq::<ModuleView>::empty() =~= modules_v(out@));
    }
    Ok(out)
}

/// A Widget's module set as read from its file.
pub struct ModuleSetSpec {
    pub tiers: Vec<TierSpec>,
    pub slots: Vec<SlotDef>,
    pub modules: Vec<ModuleSpec>,
}

impl View for ModuleSetSpec {
    type V = SetView;

    open spec fn view(&self) -> SetView {
        SetView { tiers: tiers_v(self.tiers@), slots: slot_defs_v(self.slots@), modules: modules_v(self.modules@) }
    }
}

/// A read module set, or none.
pub type MaybeSet = Option<SetView>;

pub open spec fn maybe_set_v(o: Option<ModuleSetSpec>) -> MaybeSet {
    match o {
        Some(x) => Some(x@),
        None => None,
    }
}

fn copy_strings(v: &Vec<String>) -> (r: Vec<String>)
    ensures
        names_view(r@) == names_view(v@),
{
    let mut r: Vec<String> = Vec::new();
    let mut i: usize = 0;
    while i < v.len()
        invariant
            i <= v.len(),
            r.len() == i,
            forall|j: int| 0 <= j < i ==> (#[trigger] r@[j])@ == v@[j]@,
        decreases v.len() - i,
    {
        r.push(v[i].clone());
        i += 1;
    }
    assert(names_view(r@) =~= names_view(v@));
    r
}

fn copy_pairs(v: &Vec<(String, String)>) -> (r: Vec<(String, String)>)
    ensures
        pairs_v(r@) == pairs_v(v@),
{
    let mut r: Vec<(String, String)> = Vec::new();
    let mut i: usize = 0;
    while i < v.len()
        invariant
            i <= v.len(),
            r.len() == i,
            forall|j: int| 0 <= j < i ==> (#[trigger] r@[j]).0@ == v@[j].0@ && r@[j].1@ == v@[j].1@,
        decreases v.len() - i,
    {
        r.push((v[i].0.clone(), v[i].1.clone()));
        i += 1;
    }
    assert(pairs_v(r@) =~= pairs_v(v@));
    r
}

fn copy_layout(v: &Vec<(String, Vec<String>)>) -> (r: Vec<(String, Vec<String>)>)
    ensures
        slots_v(r@) == slots_v(v@),
{
    let mut r: Vec<(String, Vec<String>)> = Vec::new();
    let mut i: usize = 0;
    while i < v.len()
        invariant
            i <= v.len(),
            r.len() == i,
            forall|j: int| 0 <= j < i ==> (#[trigger] slots_v(r@)[j]) == slots_v(v@)[j],
        decreases v.len() - i,
    {
        let ghost before = r@;
        r.push((v[i].0.clone(), copy_strings(&v[i].1)));
        proof {
            assert forall|j: int| 0 <= j < i implies (#[trigger] slots_v(r@)[j]) == slots_v(v@)[j] by {
                assert(r@[j] == before[j]);
                assert(slots_v(before)[j] == slots_v(v@)[j]);
            }
        }
        i += 1;
    }
    assert(slots_v(r@) =~= slots_v(v@));
    r
}

/// What a Widget file's tree declares of tiers, slots and Modules; see `module_set_view`.
pub fn module_set_of(doc: &Vec<(String, TomlNode)>) -> (r: Result<Option<ModuleSetSpec>, String>)
    ensures
        match r {
            Ok(o) => module_set_view(tree_view(doc@)) == okay(maybe_set_v(o)),
            Err(e) => module_set_view(tree_view(doc@)) == fail::<MaybeSet>(e@),
        },
{
    if get_node(doc, "tiers").is_none() && get_node(doc, "slots").is_none() && get_node(doc, "modules").is_none() {
        return Ok(None);
    }
    let tiers = match get_node(doc, "tiers") {
        None => Vec::new(),
        Some(TomlNode::Table(t)) => {
            proof {
                lemma_table_view(*t);
            }
            read_tiers(t)?
        },
        Some(_) => {
            proof {
                reveal_strlit("tiers");
                reveal_strlit(": expected a table");
                reveal_strlit("tiers: expected a table");
                assert("tiers"@ + ": expected a table"@ =~= "tiers: expected a table"@);
            }
            return Err(String::from_str("tiers: expected a table"));
        },
    };
    proof {
        if get(tree_view(doc@), "tiers"@) is None {
            assert(tiers_v(tiers@) =~= Seq::<TierView>::empty());
        }
    }
    let slots = match get_node(doc, "slots") {
        None => Vec::new(),
        Some(TomlNode::Table(t)) => {
            proof {
                lemma_table_view(*t);
            }
            read_slots(t)?
        },
        Some(_) => {
            proof {
                reveal_strlit("slots");
                reveal_strlit(": expected a table");
                reveal_strlit("slots: expected a table");
                assert("slots"@ + ": expected a table"@ =~= "slots: expected a table"@);
            }
            return Err(String::from_str("slots: expected a table"));
        },
    };
    proof {
        if get(tree_view(doc@), "slots"@) is None {
            assert(slot_defs_v(slots@) =~= Seq::<SlotView>::empty());
        }
    }
    let modules = match get_node(doc, "modules") {
        None => Vec::new(),
        Some(TomlNode::Table(t)) => {
            proof {
                lemma_table_view(*t);
            }
            read_modules(t)?
        },
        Some(_) => {
            proof {
                reveal_strlit("modules");
                reveal_strlit(": expected a table");
                reveal_strlit("modules: expected a table");
                assert("modules"@ + ": expected a table"@ =~= "modules: expected a table"@);
            }
            return Err(String::from_str("modules: expected a table"));
        },
    };
    proof {
        if get(tree_view(doc@), "modules"@) is None {
            assert(modules_v(modules@) =~= Seq::<ModuleView>::empty());
        }
    }
    let mut slot_names: Vec<String> = Vec::new();
    let mut i: usize = 0;
    while i < slots.len()
        invariant
            i <= slots.len(),
            slot_names.len() == i,
            forall|j: int| 0 <= j < i ==> (#[trigger] slot_names@[j])@ == slots@[j].name@,
        decreases slots.len() - i,
    {
        slot_names.push(slots[i].name.clone());
        i += 1;
    }
    let mut metas: Vec<ModuleMeta> = Vec::new();
    let mut i: usize = 0;
    while i < modules.len()
        invariant
            i <= modules.len(),
            metas.len() == i,
            forall|j: int| 0 <= j < i ==> (#[trigger] metas_v(metas@)[j]) == (modules@[j].name@, names_view(modules@[j].slots@)),
        decreases modules.len() - i,
    {
        let m = &modules[i];
        let ghost before = metas@;
        metas.push(ModuleMeta { name: m.name.clone(), label: m.label.clone(), slots: copy_strings(&m.slots), legacy: copy_pairs(&m.legacy) });
        proof {
            assert forall|j: int| 0 <= j < i implies (#[trigger] metas_v(metas@)[j]) == (modules@[j].name@, names_view(modules@[j].slots@)) by {
                assert(metas@[j] == before[j]);
                assert(metas_v(before)[j] == (modules@[j].name@, names_view(modules@[j].slots@)));
            }
        }
        i += 1;
    }
    let mut layouts: Vec<TierLayout> = Vec::new();
    let mut i: usize = 0;
    while i < tiers.len()
        invariant
            i <= tiers.len(),
            layouts.len() == i,
            forall|j: int| 0 <= j < i ==> (#[trigger] layouts_v(layouts@)[j]) == (tiers@[j].name@, slots_v(tiers@[j].layout@)),
        decreases tiers.len() - i,
    {
        let t = &tiers[i];
        let ghost before = layouts@;
        layouts.push(TierLayout { tier: t.name.clone(), layout: copy_layout(&t.layout) });
        proof {
            assert forall|j: int| 0 <= j < i implies (#[trigger] layouts_v(layouts@)[j]) == (tiers@[j].name@, slots_v(tiers@[j].layout@)) by {
                assert(layouts@[j] == before[j]);
                assert(layouts_v(before)[j] == (tiers@[j].name@, slots_v(tiers@[j].layout@)));
            }
        }
        i += 1;
    }
    proof {
        lemma_set_problem(names_view(slot_names@), metas@, layouts@);
        assert(names_view(slot_names@) =~= slot_defs_v(slots@).map_values(|x: (Seq<char>, Seq<char>)| x.0));
        assert(metas_v(metas@) =~= modules_v(modules@).map_values(|m: ModuleView| (m.name, m.slots)));
        assert(layouts_v(layouts@) =~= tiers_v(tiers@).map_values(|t: TierView| (t.name, t.layout)));
    }
    validate_modules(&slot_names, &metas, &layouts)?;
    Ok(Some(ModuleSetSpec { tiers, slots, modules }))
}

/// What a Widget file's text declares of tiers, slots and Modules: its TOML parse error,
/// or `module_set_view` of its tree.
pub open spec fn module_file_view(src: Seq<char>) -> Result<MaybeSet, Seq<char>> {
    match toml_tree(src) {
        Err(e) => Err(e),
        Ok(t) => module_set_view(t),
    }
}

/// Reads the tiers, slots and Modules of a Widget file; see `module_file_view`.
pub fn read_module_set(src: &str) -> (r: Result<Option<ModuleSetSpec>, String>)
    ensures
        match r {
            Ok(o) => module_file_view(src@) == okay(maybe_set_v(o)),
            Err(e) => module_file_view(src@) == fail::<MaybeSet>(e@),
        },
{
    let doc = parse_tree(src)?;
    module_set_of(&doc)
}

proof fn lemma_none_unknown(xs: Seq<Seq<char>>, known: Seq<Seq<char>>)
    ensures
        first_unknown(xs, known) < 0 ==> forall|i: int| 0 <= i < xs.len() ==> known.contains(#[trigger] xs[i]),
        first_unknown_module(xs, known) < 0 ==> forall|i: int| 0 <= i < xs.len() ==> known.contains(
            crate::modules::entry_module(#[trigger] xs[i]),
        ),
    decreases xs.len(),
{
    if xs.len() > 0 {
        lemma_none_unknown(xs.skip(1), known);
        assert forall|i: int| 0 < i < xs.len() implies xs[i] == xs.skip(1)[i - 1] by {}
    }
}

proof fn lemma_modules_fit(ms: Seq<MetaView>, slots: Seq<Seq<char>>)
    ensures
        modules_problem_v(ms, slots) is None ==> forall|i: int, j: int|
            0 <= i < ms.len() && 0 <= j < ms[i].1.len() ==> slots.contains(#[trigger] ms[i].1[j]),
    decreases ms.len(),
{
    if ms.len() > 0 {
        lemma_modules_fit(ms.skip(1), slots);
        lemma_none_unknown(ms[0].1, slots);
        assert forall|i: int| 0 < i < ms.len() implies ms[i] == ms.skip(1)[i - 1] by {}
    }
}

proof fn lemma_layout_fits(tier: Seq<char>, l: LayoutV, slots: Seq<Seq<char>>, mods: Seq<Seq<char>>)
    ensures
        layout_problem_v(tier, l, slots, mods) is None ==> forall|k: int| 0 <= k < l.len() ==> slots.contains(
            (#[trigger] l[k]).0,
        ) && forall|j: int| 0 <= j < l[k].1.len() ==> mods.contains(crate::modules::entry_module(#[trigger] l[k].1[j])),
    decreases l.len(),
{
    if l.len() > 0 {
        lemma_layout_fits(tier, l.skip(1), slots, mods);
        lemma_none_unknown(l[0].1, mods);
        assert forall|k: int| 0 < k < l.len() implies l[k] == l.skip(1)[k - 1] by {}
    }
}

proof fn lemma_tiers_fit(ts: Seq<LayoutView>, slots: Seq<Seq<char>>, mods: Seq<Seq<char>>)
    ensures
        tiers_problem_v(ts, slots, mods) is None ==> forall|i: int| 0 <= i < ts.len() ==> layout_problem_v(
            (#[trigger] ts[i]).0,
            ts[i].1,
            slots,
            mods,
        ) is None,
    decreases ts.len(),
{
    if ts.len() > 0 {
        lemma_tiers_fit(ts.skip(1), slots, mods);
        assert forall|i: int| 0 < i < ts.len() implies ts[i] == ts.skip(1)[i - 1] by {}
    }
}

/// A module set that is read holds together: it has a tier; every slot a Module may go in
/// is declared; every slot a tier lays out is declared, and each of its entries names a
/// declared Module (by the part before any `:`).
pub proof fn lemma_set_holds_together(doc: Tree, sv: SetView)
    requires
        module_set_view(doc) == okay(Some(sv)),
    ensures
        sv.tiers.len() > 0,
        forall|i: int, j: int| 0 <= i < sv.modules.len() && 0 <= j < sv.modules[i].slots.len() ==> exists|k: int|
            0 <= k < sv.slots.len() && sv.slots[k].0 == #[trigger] sv.modules[i].slots[j],
        forall|i: int, k: int| 0 <= i < sv.tiers.len() && 0 <= k < sv.tiers[i].layout.len() ==> exists|s: int|
            0 <= s < sv.slots.len() && sv.slots[s].0 == (#[trigger] sv.tiers[i].layout[k]).0,
        forall|i: int, k: int, j: int|
            0 <= i < sv.tiers.len() && 0 <= k < sv.tiers[i].layout.len() && 0 <= j < sv.tiers[i].layout[k].1.len()
                ==> exists|m: int| 0 <= m < sv.modules.len() && sv.modules[m].name == crate::modules::entry_module(
                #[trigger] sv.tiers[i].layout[k].1[j],
            ),
{
    let slots = sv.slots.map_values(|x: (Seq<char>, Seq<char>)| x.0);
    let ms = sv.modules.map_values(|m: ModuleView| (m.name, m.slots));
    let ts = sv.tiers.map_values(|t: TierView| (t.name, t.layout));
    let mods = ms.map_values(|m: MetaView| m.0);
    assert(set_problem(slots, ms, ts) is None);
    lemma_modules_fit(ms, slots);
    lemma_tiers_fit(ts, slots, mods);
    assert forall|i: int, j: int| 0 <= i < sv.modules.len() && 0 <= j < sv.modules[i].slots.len() implies exists|k: int|
        0 <= k < sv.slots.len() && sv.slots[k].0 == #[trigger] sv.modules[i].slots[j] by {
        assert(ms[i].1[j] == sv.modules[i].slots[j]);
        assert(slots.contains(ms[i].1[j]));
        let k = choose|k: int| 0 <= k < slots.len() && slots[k] == ms[i].1[j];
        assert(sv.slots[k].0 == slots[k]);
    }
    assert forall|i: int, k: int| 0 <= i < sv.tiers.len() && 0 <= k < sv.tiers[i].layout.len() implies exists|s: int|
        0 <= s < sv.slots.len() && sv.slots[s].0 == (#[trigger] sv.tiers[i].layout[k]).0 by {
        assert(ts[i] == (sv.tiers[i].name, sv.tiers[i].layout));
        lemma_layout_fits(ts[i].0, ts[i].1, slots, mods);
        assert(slots.contains(sv.tiers[i].layout[k].0));
        let s = choose|s: int| 0 <= s < slots.len() && slots[s] == sv.tiers[i].layout[k].0;
        assert(sv.slots[s].0 == slots[s]);
    }
    assert forall|i: int, k: int, j: int|
        0 <= i < sv.tiers.len() && 0 <= k < sv.tiers[i].layout.len() && 0 <= j < sv.tiers[i].layout[k].1.len()
            implies exists|m: int| 0 <= m < sv.modules.len() && sv.modules[m].name == crate::modules::entry_module(
            #[trigger] sv.tiers[i].layout[k].1[j],
        ) by {
        assert(ts[i] == (sv.tiers[i].name, sv.tiers[i].layout));
        lemma_layout_fits(ts[i].0, ts[i].1, slots, mods);
        let e = crate::modules::entry_module(sv.tiers[i].layout[k].1[j]);
        assert(mods.contains(e));
        let m = choose|m: int| 0 <= m < mods.len() && mods[m] == e;
        assert(sv.modules[m].name == mods[m]);
    }
}

} // verus!
