//! TOML documents, read through the `toml` crate into a tree of plain values.

use vstd::prelude::*;

verus! {

/// A TOML value as this library reads one: text, a number by its written text, a
/// boolean, an array, a table in key order; dates are `Other`.
pub enum TomlNode {
    Text(String),
    Number(String),
    Bool(bool),
    Array(Vec<TomlNode>),
    Table(Vec<(String, TomlNode)>),
    Other,
}

/// `TomlNode` by its plain values.
pub enum NodeView {
    Text(Seq<char>),
    Number(Seq<char>),
    Bool(bool),
    Array(Seq<NodeView>),
    Table(Seq<(Seq<char>, NodeView)>),
    Other,
}

/// The plain values of a node, all the way down.
pub open spec fn node_view(n: TomlNode) -> NodeView
    decreases n,
{
    match n {
        TomlNode::Text(s) => NodeView::Text(s@),
        TomlNode::Number(s) => NodeView::Number(s@),
        TomlNode::Bool(b) => NodeView::Bool(b),
        TomlNode::Array(v) => NodeView::Array(
            Seq::new(
                v@.len(),
                |i: int|
                    if 0 <= i < v@.len() {
                        proof {
                            assert(decreases_to!(v => v@));
                            assert(decreases_to!(v@ => v@[i]));
                        }
                        node_view(v@[i])
                    } else {
                        NodeView::Other
                    },
            ),
        ),
        TomlNode::Table(v) => NodeView::Table(
            Seq::new(
                v@.len(),
                |i: int|
                    if 0 <= i < v@.len() {
                        proof {
                            assert(decreases_to!(v => v@));
                            assert(decreases_to!(v@ => v@[i]));
                            assert(decreases_to!(v@[i] => v@[i].1));
                        }
                        (v@[i].0@, node_view(v@[i].1))
                    } else {
                        (Seq::empty(), NodeView::Other)
                    },
            ),
        ),
        TomlNode::Other => NodeView::Other,
    }
}

impl View for TomlNode {
    type V = NodeView;

    open spec fn view(&self) -> NodeView {
        node_view(*self)
    }
}

/// The entries of a table by their plain values.
pub open spec fn tree_view(v: Seq<(String, TomlNode)>) -> Seq<(Seq<char>, NodeView)> {
    v.map_values(|e: (String, TomlNode)| (e.0@, e.1@))
}

/// What the `toml` crate makes of `src` read as a table: its entries, or the text of its
/// parse error.
pub uninterp spec fn toml_tree(src: Seq<char>) -> Result<Seq<(Seq<char>, NodeView)>, Seq<char>>;

/// A tree read without error.
pub open spec fn tree_ok(t: Seq<(Seq<char>, NodeView)>) -> Result<Seq<(Seq<char>, NodeView)>, Seq<char>> {
    Ok(t)
}

/// A tree that failed to parse, with the error's text.
pub open spec fn tree_err(e: Seq<char>) -> Result<Seq<(Seq<char>, NodeView)>, Seq<char>> {
    Err(e)
}

#[verifier::external_type_specification]
#[verifier::external_body]
pub struct ExTomlValue(toml::Value);

/// A `toml::Value` as a `TomlNode`, one variant for one: a string's text, an integer or
/// float by its `Display` text, a boolean, an array or a table (in its key order) with
/// each value converted the same way; a date is `Other`. Nothing is claimed of it.
#[verifier::external_body]
fn node_of(v: toml::Value) -> TomlNode {
    match v {
        toml::Value::String(s) => TomlNode::Text(s),
        toml::Value::Integer(i) => TomlNode::Number(i.to_string()),
        toml::Value::Float(f) => TomlNode::Number(f.to_string()),
        toml::Value::Boolean(b) => TomlNode::Bool(b),
        toml::Value::Array(a) => TomlNode::Array(a.into_iter().map(node_of).collect()),
        toml::Value::Table(t) => TomlNode::Table(t.into_iter().map(|(k, x)| (k, node_of(x))).collect()),
        toml::Value::Datetime(_) => TomlNode::Other,
    }
}

/// Calls `<toml::Table as FromStr>::from_str` and converts the table into its entries
/// (see `node_of`); the error is its `Display` text. Claimed: the result is `toml_tree`
/// of `src`, and no key occurs twice at the top (the table is a `BTreeMap`). Left unsaid:
/// the grammar of TOML itself, and the key order.
#[verifier::external_body]
pub fn parse_tree(src: &str) -> (r: Result<Vec<(String, TomlNode)>, String>)
    ensures
        r matches Ok(v) ==> toml_tree(src@) == tree_ok(tree_view(v@)),
        r matches Err(e) ==> toml_tree(src@) == tree_err(e@),
        r matches Ok(v) ==> forall|i: int, j: int| 0 <= i < j < v.len() ==> v@[i].0@ != v@[j].0@,
{
    match src.parse::<toml::Table>() {
        Ok(t) => Ok(t.into_iter().map(|(k, v)| (k, node_of(v))).collect()),
        Err(e) => Err(format!("{e}")),
    }
}

/// A top-level value, as far as a manifest reads one.
pub enum TomlField {
    Text(String),
    /// A number, boolean, date, array or table.
    Other,
}

/// `TomlField` with its text as chars.
pub enum FieldView {
    Text(Seq<char>),
    Other,
}

impl View for TomlField {
    type V = FieldView;

    open spec fn view(&self) -> FieldView {
        match self {
            TomlField::Text(s) => FieldView::Text(s@),
            TomlField::Other => FieldView::Other,
        }
    }
}

/// The entries of a document, key and value, in the order the table holds them.
pub open spec fn doc_view(v: Seq<(String, TomlField)>) -> Seq<(Seq<char>, FieldView)> {
    v.map_values(|e: (String, TomlField)| (e.0@, e.1@))
}

/// A value as a field: its text when it is a string.
pub open spec fn field_of(n: NodeView) -> FieldView {
    match n {
        NodeView::Text(s) => FieldView::Text(s),
        _ => FieldView::Other,
    }
}

/// The top-level entries of `src` as fields, or the text of its parse error.
pub open spec fn toml_document(src: Seq<char>) -> Result<Seq<(Seq<char>, FieldView)>, Seq<char>> {
    match toml_tree(src) {
        Ok(t) => Ok(t.map_values(|e: (Seq<char>, NodeView)| (e.0, field_of(e.1)))),
        Err(e) => Err(e),
    }
}

/// A document read without error.
pub open spec fn doc_ok(d: Seq<(Seq<char>, FieldView)>) -> Result<Seq<(Seq<char>, FieldView)>, Seq<char>> {
    Ok(d)
}

/// A document that failed to parse, with the error's text.
pub open spec fn doc_err(e: Seq<char>) -> Result<Seq<(Seq<char>, FieldView)>, Seq<char>> {
    Err(e)
}

/// The top-level entries of `src`, each string value with its text and any other value as
/// `Other`; or the parse error's text. No key occurs twice.
pub fn parse_document(src: &str) -> (r: Result<Vec<(String, TomlField)>, String>)
    ensures
        r matches Ok(v) ==> toml_document(src@) == doc_ok(doc_view(v@)),
        r matches Err(e) ==> toml_document(src@) == doc_err(e@),
        r matches Ok(v) ==> forall|i: int, j: int| 0 <= i < j < v.len() ==> v@[i].0@ != v@[j].0@,
{
    let t = parse_tree(src)?;
    let ghost tv = tree_view(t@);
    let mut out: Vec<(String, TomlField)> = Vec::new();
    let mut i: usize = 0;
    while i < t.len()
        invariant
            i <= t.len(),
            tv == tree_view(t@),
            out.len() == i,
            forall|k: int| 0 <= k < i ==> (#[trigger] doc_view(out@)[k]) == (tv[k].0, field_of(tv[k].1)),
        decreases t.len() - i,
    {
        let f = match &t[i].1 {
            TomlNode::Text(s) => TomlField::Text(s.clone()),
            _ => TomlField::Other,
        };
        let ghost before = out@;
        out.push((t[i].0.clone(), f));
        proof {
            assert(doc_view(out@)[i as int] == (tv[i as int].0, field_of(tv[i as int].1)));
            assert forall|k: int| 0 <= k < i implies (#[trigger] doc_view(out@)[k]) == doc_view(before)[k] by {
                assert(out@[k] == before[k]);
            }
        }
        i += 1;
    }
    proof {
        assert(doc_view(out@) =~= tv.map_values(|e: (Seq<char>, NodeView)| (e.0, field_of(e.1))));
        assert forall|a: int, b: int| 0 <= a < b < out.len() implies out@[a].0@ != out@[b].0@ by {
            assert(doc_view(out@)[a].0 == tv[a].0 && doc_view(out@)[b].0 == tv[b].0);
            assert(tv[a].0 == t@[a].0@ && tv[b].0 == t@[b].0@);
        }
    }
    Ok(out)
}

} // verus!
