//! A Widget's `[params]` table read from its TOML tree: each param's type, default,
//! label, limits, choices, seed and group, with the first mistake as an error. Numbers
//! keep their written text; a default keeps its TOML value.

use vstd::prelude::*;

use crate::format::suggestion;
use crate::module_file::{
    copy_node, fail, first_under, get, get_node, lemma_array_view, lemma_get_first, lemma_prepended, lemma_table_view, okay, prepended,
    text_at, text_or, Tree,
};
use crate::strs::{concat, concat3, str_eq, trim, trimmed};
use crate::toml_doc::{node_view, tree_view, NodeView, TomlNode};
use crate::widgets::meta::{param_type_id, param_type_named, Choice, ParamType, Seed};

verus! {

broadcast use vstd::string::group_string_axioms;

/// A param as read, by its plain values.
pub struct ParamView {
    pub name: Seq<char>,
    pub ty: ParamType,
    pub default: Option<NodeView>,
    pub label: Seq<char>,
    pub help: Seq<char>,
    pub min: Option<Seq<char>>,
    pub max: Option<Seq<char>>,
    pub step: Option<Seq<char>>,
    pub choices: Seq<(Seq<char>, Seq<char>)>,
    pub seed: Option<Seed>,
    pub group: Option<Seq<char>>,
    pub module: Option<Seq<char>>,
}

/// The written text of the number under `k`; none when it is absent or no number.
pub open spec fn number_at(t: Tree, k: Seq<char>) -> Option<Seq<char>> {
    match get(t, k) {
        Some(NodeView::Number(s)) => Some(s),
        _ => None,
    }
}

/// The text under `k`; none when it is absent or no string.
pub open spec fn text_at_key(t: Tree, k: Seq<char>) -> Option<Seq<char>> {
    match get(t, k) {
        Some(NodeView::Text(s)) => Some(s),
        _ => None,
    }
}

/// What a bad choice of param `param` is told.
pub open spec fn bad_choice(param: Seq<char>) -> Seq<char> {
    "params."@ + param + ".choices: each is a string or { value = \"...\", label = \"...\" }"@
}

/// One choice: a string is its own value and label; a table has a `value` and maybe a
/// `label` (the value when it has none).
pub open spec fn choice_of(param: Seq<char>, c: NodeView) -> Result<(Seq<char>, Seq<char>), Seq<char>> {
    match c {
        NodeView::Text(s) => Ok((s, s)),
        NodeView::Table(t) => match get(t, "value"@) {
            Some(NodeView::Text(v)) => Ok((v, text_or(t, "label"@, v))),
            _ => Err(bad_choice(param)),
        },
        _ => Err(bad_choice(param)),
    }
}

/// The choices, in order.
pub open spec fn choices_of(param: Seq<char>, cs: Seq<NodeView>) -> Result<Seq<(Seq<char>, Seq<char>)>, Seq<char>>
    decreases cs.len(),
{
    if cs.len() == 0 {
        Ok(Seq::empty())
    } else {
        match choice_of(param, cs[0]) {
            Err(e) => Err(e),
            Ok(x) => match choices_of(param, cs.skip(1)) {
                Err(e) => Err(e),
                Ok(r) => Ok(seq![x] + r),
            },
        }
    }
}

/// The seed a param names, which must fit its type.
pub open spec fn seed_of(name: Seq<char>, ty: ParamType, v: Option<NodeView>) -> Result<Option<Seed>, Seq<char>> {
    match v {
        None => Ok(None),
        Some(NodeView::Text(s)) => if s == "starter-apps"@ {
            if ty == ParamType::Shortcuts {
                Ok(Some(Seed::StarterApps))
            } else {
                Err("params."@ + name + ": seed `"@ + s + "` needs type = \""@ + param_type_id(ParamType::Shortcuts) + "\""@)
            }
        } else {
            Err("params."@ + name + ": unknown seed `"@ + s + "`"@ + suggestion(s, seq![seq!["starter-apps"@]]))
        },
        Some(_) => Err("params."@ + name + ".seed: expected a string"@),
    }
}

/// Param `name`: a table with a `type`; its seed, then its choices, checked in that order;
/// its label the name and its help empty unless given; a group trimmed, and none when
/// that leaves it empty.
pub open spec fn param_of(name: Seq<char>, v: NodeView) -> Result<ParamView, Seq<char>> {
    let what = "params."@ + name;
    match v {
        NodeView::Table(p) => match text_at_key(p, "type"@) {
            None => Err(what + ": missing `type`"@),
            Some(ty_s) => match param_type_named(ty_s) {
                None => Err(what + ": unknown param type `"@ + ty_s + "`"@),
                Some(ty) => match seed_of(name, ty, get(p, "seed"@)) {
                    Err(e) => Err(e),
                    Ok(seed) => {
                        let choices = match get(p, "choices"@) {
                            None => Ok(Seq::empty()),
                            Some(NodeView::Array(a)) => choices_of(name, a),
                            Some(_) => Err(what + ".choices: expected a list"@),
                        };
                        match choices {
                            Err(e) => Err(e),
                            Ok(choices) => Ok(
                                ParamView {
                                    name,
                                    ty,
                                    default: get(p, "default"@),
                                    label: text_or(p, "label"@, name),
                                    help: text_or(p, "help"@, Seq::empty()),
                                    min: number_at(p, "min"@),
                                    max: number_at(p, "max"@),
                                    step: number_at(p, "step"@),
                                    choices,
                                    seed,
                                    group: match text_at_key(p, "group"@) {
                                        Some(g) => if trimmed(g).len() > 0 {
                                            Some(trimmed(g))
                                        } else {
                                            None
                                        },
                                        None => None,
                                    },
                                    module: text_at_key(p, "module"@),
                                },
                            ),
                        }
                    },
                },
            },
        },
        _ => Err(what + ": expected a table"@),
    }
}

/// The params of a `[params]` table, in order; the first mistake as an error.
pub open spec fn params_of(t: Tree) -> Result<Seq<ParamView>, Seq<char>>
    decreases t.len(),
{
    if t.len() == 0 {
        Ok(Seq::empty())
    } else {
        match param_of(t[0].0, t[0].1) {
            Err(e) => Err(e),
            Ok(x) => match params_of(t.skip(1)) {
                Err(e) => Err(e),
                Ok(r) => Ok(seq![x] + r),
            },
        }
    }
}

/// A param's limits and step are the numbers written under `min`, `max` and `step` (the
/// first entry of each), kept as written; each is none when its key is absent or holds
/// no number.
pub proof fn lemma_param_numbers(name: Seq<char>, p: Tree, pv: ParamView, s: Seq<char>)
    requires
        param_of(name, NodeView::Table(p)) == okay(pv),
    ensures
        pv.min == Some(s) <==> exists|i: int| first_under(p, "min"@, i) && p[i].1 == NodeView::Number(s),
        pv.max == Some(s) <==> exists|i: int| first_under(p, "max"@, i) && p[i].1 == NodeView::Number(s),
        pv.step == Some(s) <==> exists|i: int| first_under(p, "step"@, i) && p[i].1 == NodeView::Number(s),
{
    lemma_get_first(p, "min"@);
    lemma_get_first(p, "max"@);
    lemma_get_first(p, "step"@);
}

/// A param's type is the one its first `type` entry names; its label is the text of its
/// first `label` entry, its name when that is absent or no text; its help likewise, empty
/// by default; its Modules the text of its first `module` entry.
pub proof fn lemma_param_texts(name: Seq<char>, p: Tree, pv: ParamView, t: Seq<char>)
    requires
        param_of(name, NodeView::Table(p)) == okay(pv),
    ensures
        (exists|i: int| first_under(p, "type"@, i) && p[i].1 == NodeView::Text(t)) ==> param_type_named(t) == Some(pv.ty),
        exists|i: int| #![trigger p[i]] first_under(p, "type"@, i) && p[i].1 is Text,
        (exists|i: int| first_under(p, "label"@, i) && p[i].1 == NodeView::Text(t)) ==> pv.label == t,
        (forall|i: int| first_under(p, "label"@, i) ==> !(p[i].1 is Text)) ==> pv.label == name,
        (exists|i: int| first_under(p, "help"@, i) && p[i].1 == NodeView::Text(t)) ==> pv.help == t,
        (forall|i: int| first_under(p, "help"@, i) ==> !(p[i].1 is Text)) ==> pv.help == Seq::<char>::empty(),
        pv.module == Some(t) <==> exists|i: int| first_under(p, "module"@, i) && p[i].1 == NodeView::Text(t),
{
    lemma_get_first(p, "type"@);
    lemma_get_first(p, "label"@);
    lemma_get_first(p, "help"@);
    lemma_get_first(p, "module"@);
    let ty_s = choose|x: Seq<char>| get(p, "type"@) == Some(NodeView::Text(x));
    assert(get(p, "type"@) == Some(NodeView::Text(ty_s)));
    let i0 = choose|i: int| first_under(p, "type"@, i) && p[i].1 == NodeView::Text(ty_s);
    assert(p[i0].1 is Text);
    if exists|i: int| first_under(p, "label"@, i) && p[i].1 == NodeView::Text(t) {
        assert(get(p, "label"@) == Some(NodeView::Text(t)));
    }
    if forall|i: int| first_under(p, "label"@, i) ==> !(p[i].1 is Text) {
        match get(p, "label"@) {
            Some(NodeView::Text(l)) => {
                let i = choose|i: int| first_under(p, "label"@, i) && p[i].1 == NodeView::Text(l);
            },
            _ => {},
        }
    }
    if exists|i: int| first_under(p, "help"@, i) && p[i].1 == NodeView::Text(t) {
        assert(get(p, "help"@) == Some(NodeView::Text(t)));
    }
    if forall|i: int| first_under(p, "help"@, i) ==> !(p[i].1 is Text) {
        match get(p, "help"@) {
            Some(NodeView::Text(l)) => {
                let i = choose|i: int| first_under(p, "help"@, i) && p[i].1 == NodeView::Text(l);
            },
            _ => {},
        }
    }
}

/// The params come one for each entry of the table, in its order, each read by
/// `param_of` from its own entry.
pub proof fn lemma_params_each(t: Tree, ps: Seq<ParamView>)
    requires
        params_of(t) == okay(ps),
    ensures
        ps.len() == t.len(),
        forall|i: int| 0 <= i < t.len() ==> param_of(t[i].0, t[i].1) == okay(#[trigger] ps[i]),
    decreases t.len(),
{
    if t.len() > 0 {
        match param_of(t[0].0, t[0].1) {
            Ok(x) => match params_of(t.skip(1)) {
                Ok(r) => {
                    lemma_params_each(t.skip(1), r);
                    assert(ps == seq![x] + r);
                    assert forall|i: int| 0 <= i < t.len() implies param_of(t[i].0, t[i].1) == okay(#[trigger] ps[i]) by {
                        if i > 0 {
                            assert(t[i] == t.skip(1)[i - 1]);
                            assert(ps[i] == r[i - 1]);
                        }
                    }
                },
                Err(_) => {},
            },
            Err(_) => {},
        }
    }
}

/// A Widget param as its definition file declares it.
pub struct ParamShape {
    pub name: String,
    pub ty: ParamType,
    /// The `default` as written; none = the type's own default.
    pub default: Option<TomlNode>,
    pub label: String,
    pub help: String,
    /// Limits and step of a number, as written.
    pub min: Option<String>,
    pub max: Option<String>,
    pub step: Option<String>,
    pub choices: Vec<Choice>,
    pub seed: Option<Seed>,
    pub group: Option<String>,
    /// The Modules it belongs to (`a, b`), when it belongs to some.
    pub module: Option<String>,
}

pub open spec fn opt_s(o: Option<String>) -> Option<Seq<char>> {
    match o {
        Some(s) => Some(s@),
        None => None,
    }
}

pub open spec fn choices_v(c: Seq<Choice>) -> Seq<(Seq<char>, Seq<char>)> {
    c.map_values(|x: Choice| (x.value@, x.label@))
}

impl View for ParamShape {
    type V = ParamView;

    open spec fn view(&self) -> ParamView {
        ParamView {
            name: self.name@,
            ty: self.ty,
            default: match self.default {
                Some(n) => Some(node_view(n)),
                None => None,
            },
            label: self.label@,
            help: self.help@,
            min: opt_s(self.min),
            max: opt_s(self.max),
            step: opt_s(self.step),
            choices: choices_v(self.choices@),
            seed: self.seed,
            group: opt_s(self.group),
            module: opt_s(self.module),
        }
    }
}

/// `choice_of`.
fn read_choice(param: &str, c: &TomlNode) -> (r: Result<Choice, String>)
    ensures
        match r {
            Ok(x) => choice_of(param@, node_view(*c)) == okay((x.value@, x.label@)),
            Err(e) => choice_of(param@, node_view(*c)) == fail::<(Seq<char>, Seq<char>)>(e@),
        },
{
    let bad = concat3("params.", param, ".choices: each is a string or { value = \"...\", label = \"...\" }");
    match c {
        TomlNode::Text(s) => Ok(Choice { value: s.clone(), label: s.clone() }),
        TomlNode::Table(t) => {
            proof {
                lemma_table_view(*t);
            }
            match get_node(t, "value") {
                Some(TomlNode::Text(v)) => Ok(Choice { value: v.clone(), label: text_at(t, "label", v.as_str()) }),
                _ => Err(bad),
            }
        },
        _ => Err(bad),
    }
}

/// `choices_of`.
fn read_choices(param: &str, cs: &Vec<TomlNode>) -> (r: Result<Vec<Choice>, String>)
    ensures
        match r {
            Ok(l) => choices_of(param@, cs@.map_values(|x: TomlNode| node_view(x))) == okay(choices_v(l@)),
            Err(e) => choices_of(param@, cs@.map_values(|x: TomlNode| node_view(x))) == fail::<Seq<(Seq<char>, Seq<char>)>>(e@),
        },
{
    let ghost cv = cs@.map_values(|x: TomlNode| node_view(x));
    let mut out: Vec<Choice> = Vec::new();
    let mut i: usize = 0;
    proof {
        assert(cv.skip(0) =~= cv);
        assert(choices_v(out@) =~= Seq::<(Seq<char>, Seq<char>)>::empty());
        lemma_prepended(Seq::<(Seq<char>, Seq<char>)>::empty(), arbitrary(), choices_of(param@, cv));
    }
    while i < cs.len()
        invariant
            i <= cs.len(),
            cv == cs@.map_values(|x: TomlNode| node_view(x)),
            choices_of(param@, cv) == prepended(choices_v(out@), choices_of(param@, cv.skip(i as int))),
        decreases cs.len() - i,
    {
        assert(cv.skip(i as int)[0] == node_view(cs@[i as int]));
        assert(cv.skip(i as int).skip(1) =~= cv.skip(i + 1));
        let x = read_choice(param, &cs[i])?;
        let ghost before = choices_v(out@);
        let ghost xv = (x.value@, x.label@);
        out.push(x);
        proof {
            assert(choices_v(out@) =~= before.push(xv));
            lemma_prepended(before, xv, choices_of(param@, cv.skip(i + 1)));
        }
        i += 1;
    }
    proof {
        assert(cv.skip(i as int) =~= Seq::<NodeView>::empty());
        assert(choices_v(out@) + Seq::<(Seq<char>, Seq<char>)>::empty() =~= choices_v(out@));
    }
    Ok(out)
}

/// `number_at`.
fn number_under(t: &Vec<(String, TomlNode)>, k: &str) -> (r: Option<String>)
    ensures
        opt_s(r) == number_at(tree_view(t@), k@),
{
    match get_node(t, k) {
        Some(TomlNode::Number(s)) => Some(s.clone()),
        _ => None,
    }
}

/// `text_at_key`.
fn text_under(t: &Vec<(String, TomlNode)>, k: &str) -> (r: Option<String>)
    ensures
        opt_s(r) == text_at_key(tree_view(t@), k@),
{
    match get_node(t, k) {
        Some(TomlNode::Text(s)) => Some(s.clone()),
        _ => None,
    }
}

/// `seed_of`.
fn read_seed(name: &str, ty: ParamType, v: Option<&TomlNode>) -> (r: Result<Option<Seed>, String>)
    ensures
        match r {
            Ok(s) => seed_of(name@, ty, crate::module_file::opt_node(v)) == okay(s),
            Err(e) => seed_of(name@, ty, crate::module_file::opt_node(v)) == fail::<Option<Seed>>(e@),
        },
{
    match v {
        None => Ok(None),
        Some(TomlNode::Text(s)) => match Seed::parse(s.as_str()) {
            Some(seed) => {
                if matches!(ty, ParamType::Shortcuts) {
                    Ok(Some(seed))
                } else {
                    let a = concat3("params.", name, ": seed `");
                    let b = concat3(s.as_str(), "` needs type = \"", ParamType::Shortcuts.id());
                    let e = concat3(a.as_str(), b.as_str(), "\"");
                    assert(e@ =~= "params."@ + name@ + ": seed `"@ + s@ + "` needs type = \""@ + param_type_id(ParamType::Shortcuts) + "\""@);
                    Err(e)
                }
            },
            None => {
                let ids = vec!["starter-apps"];
                let pool = vec![ids.as_slice()];
                let hint = crate::format::suggest(s.as_str(), pool.as_slice());
                proof {
                    assert(pool@.len() == 1);
                    assert(pool@[0]@ == ids@);
                    assert(pool@[0]@.map_values(|c: &str| c@) =~= seq!["starter-apps"@]);
                    assert(crate::format::names_of(pool@) =~= seq![seq!["starter-apps"@]]);
                }
                let a = concat3("params.", name, ": unknown seed `");
                let b = concat3(s.as_str(), "`", hint.as_str());
                let e = concat(a.as_str(), b.as_str());
                assert(e@ =~= "params."@ + name@ + ": unknown seed `"@ + s@ + "`"@ + hint@);
                Err(e)
            },
        },
        Some(_) => Err(concat3("params.", name, ".seed: expected a string")),
    }
}

/// `param_of`.
fn read_param(name: &String, v: &TomlNode) -> (r: Result<ParamShape, String>)
    ensures
        match r {
            Ok(x) => param_of(name@, node_view(*v)) == okay(x@),
            Err(e) => param_of(name@, node_view(*v)) == fail::<ParamView>(e@),
        },
{
    let what = concat("params.", name.as_str());
    proof {
        reveal_strlit("");
    }
    match v {
        TomlNode::Table(p) => {
            proof {
                lemma_table_view(*p);
            }
            let ty_s = match text_under(p, "type") {
                None => {
                    return Err(concat(what.as_str(), ": missing `type`"));
                },
                Some(t) => t,
            };
            let ty = match ParamType::parse(ty_s.as_str()) {
                None => {
                    let e = concat3(what.as_str(), ": unknown param type `", concat(ty_s.as_str(), "`").as_str());
                    assert(e@ =~= what@ + ": unknown param type `"@ + ty_s@ + "`"@);
                    return Err(e);
                },
                Some(t) => t,
            };
            let seed = read_seed(name.as_str(), ty, get_node(p, "seed"))?;
            let choices = match get_node(p, "choices") {
                None => Vec::new(),
                Some(TomlNode::Array(a)) => {
                    proof {
                        lemma_array_view(*a);
                    }
                    read_choices(name.as_str(), a)?
                },
                Some(_) => {
                    return Err(concat(what.as_str(), ".choices: expected a list"));
                },
            };
            proof {
                if get(tree_view(p@), "choices"@) is None {
                    assert(choices_v(choices@) =~= Seq::<(Seq<char>, Seq<char>)>::empty());
                }
            }
            let default = match get_node(p, "default") {
                Some(d) => Some(copy_node(d)),
                None => None,
            };
            let group = match text_under(p, "group") {
                Some(g) => {
                    let t = trim(g.as_str());
                    if t.as_str().is_empty() {
                        None
                    } else {
                        Some(t)
                    }
                },
                None => None,
            };
            let r = ParamShape {
                name: name.clone(),
                ty,
                default,
                label: text_at(p, "label", name.as_str()),
                help: text_at(p, "help", ""),
                min: number_under(p, "min"),
                max: number_under(p, "max"),
                step: number_under(p, "step"),
                choices,
                seed,
                group,
                module: text_under(p, "module"),
            };
            proof {
                let pv = tree_view(p@);
                assert(r@.default == get(pv, "default"@));
                assert(r@.group == match text_at_key(pv, "group"@) {
                    Some(g) => if trimmed(g).len() > 0 {
                        Some(trimmed(g))
                    } else {
                        None
                    },
                    None => None,
                });
                assert(r@.help == text_or(pv, "help"@, Seq::empty()));
            }
            Ok(r)
        },
        _ => Err(concat(what.as_str(), ": expected a table")),
    }
}

pub open spec fn params_v(v: Seq<ParamShape>) -> Seq<ParamView> {
    v.map_values(|x: ParamShape| x@)
}

/// Reads a `[params]` table; see `params_of`.
pub fn read_params(t: &Vec<(String, TomlNode)>) -> (r: Result<Vec<ParamShape>, String>)
    ensures
        match r {
            Ok(l) => params_of(tree_view(t@)) == okay(params_v(l@)),
            Err(e) => params_of(tree_view(t@)) == fail::<Seq<ParamView>>(e@),
        },
{
    let ghost tv = tree_view(t@);
    let mut out: Vec<ParamShape> = Vec::new();
    let mut i: usize = 0;
    proof {
        assert(tv.skip(0) =~= tv);
        assert(params_v(out@) =~= Seq::<ParamView>::empty());
        lemma_prepended(Seq::<ParamView>::empty(), arbitrary(), params_of(tv));
    }
    while i < t.len()
        invariant
            i <= t.len(),
            tv == tree_view(t@),
            params_of(tv) == prepended(params_v(out@), params_of(tv.skip(i as int))),
        decreases t.len() - i,
    {
        assert(tv.skip(i as int)[0] == tv[i as int]);
        assert(tv.skip(i as int).skip(1) =~= tv.skip(i + 1));
        let x = read_param(&t[i].0, &t[i].1)?;
        let ghost before = params_v(out@);
        let ghost xv = x@;
        out.push(x);
        proof {
            assert(params_v(out@) =~= before.push(xv));
            lemma_prepended(before, xv, params_of(tv.skip(i + 1)));
        }
        i += 1;
    }
    proof {
        assert(tv.skip(i as int) =~= Seq::<(Seq<char>, NodeView)>::empty());
        assert(params_v(out@) + Seq::<ParamView>::empty() =~= params_v(out@));
    }
    Ok(out)
}

/// The params a Widget file's tree declares: its `[params]` table read by `params_of`;
/// none when it has no such table (a `params` that is no table is passed over).
pub open spec fn widget_params(doc: Tree) -> Result<Seq<ParamView>, Seq<char>> {
    match get(doc, "params"@) {
        Some(NodeView::Table(pt)) => params_of(pt),
        _ => Ok(Seq::empty()),
    }
}

/// See `widget_params`.
pub fn params_in(doc: &Vec<(String, TomlNode)>) -> (r: Result<Vec<ParamShape>, String>)
    ensures
        match r {
            Ok(l) => widget_params(tree_view(doc@)) == okay(params_v(l@)),
            Err(e) => widget_params(tree_view(doc@)) == fail::<Seq<ParamView>>(e@),
        },
{
    match get_node(doc, "params") {
        Some(TomlNode::Table(pt)) => {
            proof {
                lemma_table_view(*pt);
            }
            read_params(pt)
        },
        _ => {
            let r: Vec<ParamShape> = Vec::new();
            assert(params_v(r@) =~= Seq::<ParamView>::empty());
            Ok(r)
        },
    }
}

} // verus!
