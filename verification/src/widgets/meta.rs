//! A Widget's declared params, their types, seeds, choices and Modules.

use vstd::prelude::*;

use crate::strs::{concat, concat3, str_eq};

verus! {

broadcast use vstd::string::group_string_axioms;

/// A Module as the Widget declares it.
pub struct ModuleMeta {
    pub name: String,
    pub label: String,
    pub slots: Vec<String>,
    /// Layout entry and the old `show_*` param it replaced.
    pub legacy: Vec<(String, String)>,
}

/// `` `a` and `b` and `c` ``.
pub open spec fn ticked_names(ms: Seq<Seq<char>>) -> Seq<char>
    decreases ms.len(),
{
    if ms.len() == 0 {
        Seq::empty()
    } else if ms.len() == 1 {
        "`"@ + ms[0] + "`"@
    } else {
        ticked_names(ms.drop_last()) + " and `"@ + ms.last() + "`"@
    }
}

/// What a Widget says when data sources it needs are missing.
pub open spec fn needs_text(ms: Seq<Seq<char>>) -> Seq<char> {
    let (what, is) = if ms.len() == 1 {
        ("data source"@, "is"@)
    } else {
        ("data sources"@, "are"@)
    };
    "needs the "@ + ticked_names(ms) + " "@ + what + ", which "@ + is
        + " missing. Is the plugin that provides it installed and switched on?"@
}

/// The names of some strings.
pub open spec fn str_views(v: Seq<&str>) -> Seq<Seq<char>> {
    v.map_values(|s: &str| s@)
}

/// "needs the `agents` data source, which is missing…"
pub fn needs_message(missing: &[&str]) -> (r: String)
    ensures
        r@ == needs_text(str_views(missing@)),
{
    let mut names = String::new();
    let mut i: usize = 0;
    while i < missing.len()
        invariant
            i <= missing.len(),
            names@ == ticked_names(str_views(missing@).take(i as int)),
        decreases missing.len() - i,
    {
        let ghost before = str_views(missing@).take(i as int);
        proof {
            assert(str_views(missing@).take(i + 1).drop_last() =~= before);
            assert(str_views(missing@).take(i + 1).last() == missing@[i as int]@);
        }
        if i == 0 {
            names = concat3("`", missing[i], "`");
            assert(before =~= Seq::<Seq<char>>::empty());
        } else {
            let a = concat3(names.as_str(), " and `", missing[i]);
            names = concat(a.as_str(), "`");
        }
        i += 1;
    }
    assert(str_views(missing@).take(missing.len() as int) =~= str_views(missing@));
    let (what, is) = if missing.len() == 1 {
        ("data source", "is")
    } else {
        ("data sources", "are")
    };
    let a = concat3("needs the ", names.as_str(), " ");
    let b = concat3(a.as_str(), what, ", which ");
    let c = concat3(b.as_str(), is, " missing. Is the plugin that provides it installed and switched on?");
    c
}

/// The type of a Widget param, which picks its control in Settings.
#[derive(Clone, Copy, Debug, PartialEq, Eq)]
pub enum ParamType {
    Color,
    Font,
    Number,
    Enum,
    Bool,
    Str,
    Path,
    Duration,
    Shortcuts,
}

/// A param type's name in a definition file.
pub open spec fn param_type_id(t: ParamType) -> Seq<char> {
    match t {
        ParamType::Color => "color"@,
        ParamType::Font => "font"@,
        ParamType::Number => "number"@,
        ParamType::Enum => "enum"@,
        ParamType::Bool => "bool"@,
        ParamType::Str => "string"@,
        ParamType::Path => "path"@,
        ParamType::Duration => "duration"@,
        ParamType::Shortcuts => "shortcuts"@,
    }
}

/// The param type a definition file names, `folder` naming the path type too.
pub open spec fn param_type_named(s: Seq<char>) -> Option<ParamType> {
    if s == "folder"@ || s == "path"@ {
        Some(ParamType::Path)
    } else if s == "color"@ {
        Some(ParamType::Color)
    } else if s == "font"@ {
        Some(ParamType::Font)
    } else if s == "number"@ {
        Some(ParamType::Number)
    } else if s == "enum"@ {
        Some(ParamType::Enum)
    } else if s == "bool"@ {
        Some(ParamType::Bool)
    } else if s == "string"@ {
        Some(ParamType::Str)
    } else if s == "duration"@ {
        Some(ParamType::Duration)
    } else if s == "shortcuts"@ {
        Some(ParamType::Shortcuts)
    } else {
        None
    }
}

impl ParamType {
    pub fn id(self) -> (r: &'static str)
        ensures
            r@ == param_type_id(self),
    {
        match self {
            ParamType::Color => "color",
            ParamType::Font => "font",
            ParamType::Number => "number",
            ParamType::Enum => "enum",
            ParamType::Bool => "bool",
            ParamType::Str => "string",
            ParamType::Path => "path",
            ParamType::Duration => "duration",
            ParamType::Shortcuts => "shortcuts",
        }
    }

    /// `folder` names the folder picker too.
    pub fn parse(s: &str) -> (r: Option<ParamType>)
        ensures
            r == param_type_named(s@),
    {
        if str_eq(s, "folder") || str_eq(s, "path") {
            Some(ParamType::Path)
        } else if str_eq(s, "color") {
            Some(ParamType::Color)
        } else if str_eq(s, "font") {
            Some(ParamType::Font)
        } else if str_eq(s, "number") {
            Some(ParamType::Number)
        } else if str_eq(s, "enum") {
            Some(ParamType::Enum)
        } else if str_eq(s, "bool") {
            Some(ParamType::Bool)
        } else if str_eq(s, "string") {
            Some(ParamType::Str)
        } else if str_eq(s, "duration") {
            Some(ParamType::Duration)
        } else if str_eq(s, "shortcuts") {
            Some(ParamType::Shortcuts)
        } else {
            None
        }
    }
}

/// A type is read back from its own name.
pub proof fn lemma_param_type_round_trip(t: ParamType)
    ensures
        param_type_named(param_type_id(t)) == Some(t),
{
    reveal_strlit("folder");
    reveal_strlit("path");
    reveal_strlit("color");
    reveal_strlit("font");
    reveal_strlit("number");
    reveal_strlit("enum");
    reveal_strlit("bool");
    reveal_strlit("string");
    reveal_strlit("duration");
    reveal_strlit("shortcuts");
    assert("folder"@.len() == 6 && "folder"@[0] == 'f');
    assert("path"@.len() == 4 && "path"@[0] == 'p');
    assert("color"@.len() == 5 && "color"@[0] == 'c');
    assert("font"@.len() == 4 && "font"@[0] == 'f');
    assert("number"@.len() == 6 && "number"@[0] == 'n');
    assert("enum"@.len() == 4 && "enum"@[0] == 'e');
    assert("bool"@.len() == 4 && "bool"@[0] == 'b');
    assert("string"@.len() == 6 && "string"@[0] == 's');
    assert("duration"@.len() == 8 && "duration"@[0] == 'd');
    assert("shortcuts"@.len() == 9 && "shortcuts"@[0] == 's');
}

/// One option of an `enum` param: the saved value, and what Settings shows.
#[derive(Clone, Debug, PartialEq)]
pub struct Choice {
    pub value: String,
    pub label: String,
}

/// Unlike a default, a seed is written once and then saved like any edit.
#[derive(Clone, Copy, Debug, PartialEq, Eq)]
pub enum Seed {
    StarterApps,
}

impl Seed {
    pub fn id(self) -> (r: &'static str)
        ensures
            r@ == "starter-apps"@,
    {
        "starter-apps"
    }

    /// The seed a definition file names.
    pub fn parse(s: &str) -> (r: Option<Seed>)
        ensures
            r == if s@ == "starter-apps"@ {
                Some(Seed::StarterApps)
            } else {
                None
            },
    {
        if str_eq(s, "starter-apps") {
            Some(Seed::StarterApps)
        } else {
            None
        }
    }

    /// The type of param a seed fills.
    pub fn param_type(self) -> (r: ParamType)
        ensures
            r == ParamType::Shortcuts,
    {
        ParamType::Shortcuts
    }
}


/// A param's group by its chars.
pub open spec fn group_view(g: Option<String>) -> Option<Seq<char>> {
    match g {
        Some(s) => Some(s@),
        None => None,
    }
}

/// The groups of the first `n` params in the order Settings shows them: no group first,
/// then each group where it first appears.
pub open spec fn group_keys(gs: Seq<Option<Seq<char>>>, n: int) -> Seq<Option<Seq<char>>>
    decreases n,
{
    if n <= 0 {
        seq![None]
    } else {
        let k = group_keys(gs, n - 1);
        if k.contains(gs[n - 1]) {
            k
        } else {
            k.push(gs[n - 1])
        }
    }
}

/// The indexes below `n` of the params in group `g`, in order.
pub open spec fn members(gs: Seq<Option<Seq<char>>>, g: Option<Seq<char>>, n: int) -> Seq<usize>
    decreases n,
{
    if n <= 0 {
        Seq::empty()
    } else if gs[n - 1] == g {
        members(gs, g, n - 1).push((n - 1) as usize)
    } else {
        members(gs, g, n - 1)
    }
}

/// The groups that hold a param, each with its params.
pub open spec fn nonempty_groups(ks: Seq<Option<Seq<char>>>, gs: Seq<Option<Seq<char>>>) -> Seq<(Option<Seq<char>>, Seq<usize>)>
    decreases ks.len(),
{
    if ks.len() == 0 {
        Seq::empty()
    } else {
        let r = nonempty_groups(ks.drop_last(), gs);
        let m = members(gs, ks.last(), gs.len() as int);
        if m.len() > 0 {
            r.push((ks.last(), m))
        } else {
            r
        }
    }
}

/// Params (by their groups) in the order Settings shows them: the ungrouped ones first,
/// then each group in the order it first appears; groups with no param left out.
pub open spec fn grouping(gs: Seq<Option<Seq<char>>>) -> Seq<(Option<Seq<char>>, Seq<usize>)> {
    nonempty_groups(group_keys(gs, gs.len() as int), gs)
}

fn same_group(a: &Option<String>, b: &Option<String>) -> (r: bool)
    ensures
        r == (group_view(*a) == group_view(*b)),
{
    match (a, b) {
        (None, None) => true,
        (Some(x), Some(y)) => str_eq(x.as_str(), y.as_str()),
        _ => false,
    }
}

fn copy_group(g: &Option<String>) -> (r: Option<String>)
    ensures
        group_view(r) == group_view(*g),
{
    match g {
        Some(x) => Some(x.clone()),
        None => None,
    }
}

/// The params, by their `group`, in the order Settings shows them: each group with the
/// indexes of its params.
pub fn group_order(groups: &[Option<String>]) -> (r: Vec<(Option<String>, Vec<usize>)>)
    ensures
        r@.map_values(|e: (Option<String>, Vec<usize>)| (group_view(e.0), e.1@)) == grouping(
            groups@.map_values(|g: Option<String>| group_view(g)),
        ),
{
    let ghost gs = groups@.map_values(|g: Option<String>| group_view(g));
    let mut out: Vec<(Option<String>, Vec<usize>)> = Vec::new();
    out.push((None, Vec::new()));
    let mut i: usize = 0;
    while i < groups.len()
        invariant
            i <= groups.len(),
            gs == groups@.map_values(|g: Option<String>| group_view(g)),
            out.len() == group_keys(gs, i as int).len(),
            forall|k: int| 0 <= k < out.len() ==> group_view(#[trigger] out@[k].0) == group_keys(gs, i as int)[k],
            forall|k: int| 0 <= k < out.len() ==> (#[trigger] out@[k]).1@ == members(gs, group_keys(gs, i as int)[k], i as int),
            group_keys(gs, i as int).no_duplicates(),
        decreases groups.len() - i,
    {
        let g = &groups[i];
        let ghost ks = group_keys(gs, i as int);
        assert(gs[i as int] == group_view(*g));
        let mut j: usize = 0;
        while j < out.len() && !same_group(&out[j].0, g)
            invariant
                j <= out.len(),
                out.len() == ks.len(),
                forall|k: int| 0 <= k < out.len() ==> group_view(#[trigger] out@[k].0) == ks[k],
                forall|k: int| 0 <= k < j ==> ks[k] != group_view(*g),
            decreases out.len() - j,
        {
            j += 1;
        }
        let ghost old_out = out@;
        if j < out.len() {
            let mut entry = out.remove(j);
            entry.1.push(i);
            out.insert(j, entry);
            proof {
                assert(ks.contains(gs[i as int])) by {
                    assert(ks[j as int] == gs[i as int]);
                }
                assert(group_keys(gs, i + 1) == ks);
                assert forall|k: int| 0 <= k < out.len() implies group_view(#[trigger] out@[k].0) == group_keys(gs, i + 1)[k] by {
                    if k != j {
                        assert(out@[k] == old_out[k]);
                    }
                }
                assert forall|k: int| 0 <= k < out.len() implies (#[trigger] out@[k]).1@ == members(gs, group_keys(gs, i + 1)[k], i + 1) by {
                    if k != j {
                        assert(out@[k] == old_out[k]);
                        assert(ks[k] != ks[j as int]);
                    }
                }
            }
        } else {
            out.push((copy_group(g), vec![i]));
            proof {
                assert(!ks.contains(gs[i as int])) by {
                    if ks.contains(gs[i as int]) {
                        let k = choose|k: int| 0 <= k < ks.len() && ks[k] == gs[i as int];
                        assert(ks[k] != group_view(*g));
                    }
                }
                let nk = group_keys(gs, i + 1);
                assert(nk == ks.push(gs[i as int]));
                assert forall|k: int| 0 <= k < out.len() implies group_view(#[trigger] out@[k].0) == nk[k] by {
                    if k < old_out.len() {
                        assert(out@[k] == old_out[k]);
                    }
                }
                assert forall|k: int| 0 <= k < out.len() implies (#[trigger] out@[k]).1@ == members(gs, nk[k], i + 1) by {
                    if k < old_out.len() {
                        assert(out@[k] == old_out[k]);
                        assert(nk[k] != gs[i as int]);
                    } else {
                        assert(members(gs, gs[i as int], i as int) =~= Seq::<usize>::empty()) by {
                            lemma_members_absent(gs, gs[i as int], i as int);
                        }
                        assert(out@[k].1@ =~= seq![i]);
                    }
                }
                assert forall|a: int, b: int| 0 <= a < b < nk.len() implies nk[a] != nk[b] by {
                    if b == ks.len() {
                        assert(nk[a] == ks[a]);
                    }
                }
            }
        }
        i += 1;
    }
    let ghost ks = group_keys(gs, groups.len() as int);
    let mut r: Vec<(Option<String>, Vec<usize>)> = Vec::new();
    let mut k: usize = 0;
    while k < out.len()
        invariant
            k <= out.len(),
            gs == groups@.map_values(|g: Option<String>| group_view(g)),
            gs.len() == groups.len(),
            out.len() == ks.len(),
            forall|x: int| 0 <= x < out.len() ==> group_view(#[trigger] out@[x].0) == ks[x],
            forall|x: int| 0 <= x < out.len() ==> (#[trigger] out@[x]).1@ == members(gs, ks[x], groups.len() as int),
            r@.map_values(|e: (Option<String>, Vec<usize>)| (group_view(e.0), e.1@)) == nonempty_groups(ks.take(k as int), gs),
        decreases out.len() - k,
    {
        proof {
            assert(ks.take(k + 1).drop_last() =~= ks.take(k as int));
            assert(ks.take(k + 1).last() == ks[k as int]);
        }
        if out[k].1.len() > 0 {
            let ghost before = r@.map_values(|e: (Option<String>, Vec<usize>)| (group_view(e.0), e.1@));
            r.push((copy_group(&out[k].0), out[k].1.clone()));
            proof {
                assert(r@.map_values(|e: (Option<String>, Vec<usize>)| (group_view(e.0), e.1@)) =~= before.push((ks[k as int], out@[k as int].1@)));
            }
        }
        k += 1;
    }
    assert(ks.take(ks.len() as int) =~= ks);
    r
}

proof fn lemma_members_absent(gs: Seq<Option<Seq<char>>>, g: Option<Seq<char>>, n: int)
    requires
        n <= gs.len(),
        !group_keys(gs, n).contains(g),
    ensures
        members(gs, g, n) == Seq::<usize>::empty(),
    decreases n,
{
    if n > 0 {
        let k = group_keys(gs, n - 1);
        if k.contains(g) {
            lemma_keys_grow(gs, n - 1, g);
        }
        if gs[n - 1] == g {
            if !k.contains(gs[n - 1]) {
                assert(group_keys(gs, n)[k.len() as int] == g);
            }
        }
        lemma_members_absent(gs, g, n - 1);
    }
}

proof fn lemma_keys_grow(gs: Seq<Option<Seq<char>>>, n: int, g: Option<Seq<char>>)
    requires
        0 <= n,
        group_keys(gs, n).contains(g),
    ensures
        group_keys(gs, n + 1).contains(g),
{
    let k = group_keys(gs, n);
    if !k.contains(gs[n]) {
        let j = choose|j: int| 0 <= j < k.len() && k[j] == g;
        assert(k.push(gs[n])[j] == g);
    }
}

} // verus!
