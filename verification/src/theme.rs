//! Which palette, font set, glyph set and icon pack are active, globally and per Instance,
//! and the design tokens they compose into.

use vstd::prelude::*;

use crate::keyed::{ascending_keys, Keyed};
use crate::strs::str_eq;

verus! {

broadcast use vstd::string::group_string_axioms;

/// Which axis of each kind is active, plus the icon pack.
#[derive(Clone, Debug, PartialEq)]
pub struct Selection {
    pub palette: String,
    pub fonts: String,
    pub glyphs: String,
    pub icon_pack: String,
}

impl Default for Selection {
    /// Midnight, System, Fluent and the Default icon pack.
    fn default() -> (r: Selection)
        ensures
            r.palette@ == "Midnight"@,
            r.fonts@ == "System"@,
            r.glyphs@ == "Fluent"@,
            r.icon_pack@ == "Default"@,
    {
        Selection {
            palette: String::from_str("Midnight"),
            fonts: String::from_str("System"),
            glyphs: String::from_str("Fluent"),
            icon_pack: String::from_str("Default"),
        }
    }
}

/// An Instance's own axes; `None` uses the global one.
#[derive(Clone, Debug, PartialEq)]
pub struct ThemePick {
    pub palette: Option<String>,
    pub fonts: Option<String>,
    pub glyphs: Option<String>,
    pub icon_pack: Option<String>,
}

impl Default for ThemePick {
    /// Every axis global.
    fn default() -> (r: ThemePick)
        ensures
            r.palette is None,
            r.fonts is None,
            r.glyphs is None,
            r.icon_pack is None,
    {
        ThemePick { palette: None, fonts: None, glyphs: None, icon_pack: None }
    }
}

/// An Instance's own choice for one axis, else the global one.
pub open spec fn mine_or(mine: Option<String>, global: String) -> Seq<char> {
    match mine {
        Some(m) => m@,
        None => global@,
    }
}

fn own_or(mine: &Option<String>, global: &String) -> (r: String)
    ensures
        r@ == mine_or(*mine, *global),
{
    match mine {
        Some(m) => m.clone(),
        None => global.clone(),
    }
}

impl ThemePick {
    /// The axes this Instance uses: its own where it picked one, else the global ones.
    pub fn resolve(&self, global: &Selection) -> (r: Selection)
        ensures
            r.palette@ == mine_or(self.palette, global.palette),
            r.fonts@ == mine_or(self.fonts, global.fonts),
            r.glyphs@ == mine_or(self.glyphs, global.glyphs),
            r.icon_pack@ == mine_or(self.icon_pack, global.icon_pack),
    {
        Selection {
            palette: own_or(&self.palette, &global.palette),
            fonts: own_or(&self.fonts, &global.fonts),
            glyphs: own_or(&self.glyphs, &global.glyphs),
            icon_pack: own_or(&self.icon_pack, &global.icon_pack),
        }
    }

    /// Whether it picks nothing of its own.
    pub fn is_empty(&self) -> (r: bool)
        ensures
            r == (self.palette is None && self.fonts is None && self.glyphs is None && self.icon_pack is None),
    {
        self.palette.is_none() && self.fonts.is_none() && self.glyphs.is_none() && self.icon_pack.is_none()
    }
}

/// An empty pick resolves to the global axes, whatever they are.
pub proof fn lemma_empty_pick_is_global(p: ThemePick, global: Selection)
    requires
        p.palette is None && p.fonts is None && p.glyphs is None && p.icon_pack is None,
    ensures
        mine_or(p.palette, global.palette) == global.palette@,
        mine_or(p.fonts, global.fonts) == global.fonts@,
        mine_or(p.glyphs, global.glyphs) == global.glyphs@,
        mine_or(p.icon_pack, global.icon_pack) == global.icon_pack@,
{
}


/// Some names by their chars.
pub open spec fn names_view(v: Seq<String>) -> Seq<Seq<char>> {
    v.map_values(|s: String| s@)
}

/// Where `name` first occurs in `names`, or -1.
pub open spec fn first_named(names: Seq<Seq<char>>, name: Seq<char>) -> int
    decreases names.len(),
{
    if names.len() == 0 {
        -1
    } else {
        let k = first_named(names.drop_last(), name);
        if k >= 0 {
            k
        } else if names.last() == name {
            names.len() - 1
        } else {
            -1
        }
    }
}

proof fn lemma_first_named(names: Seq<Seq<char>>, name: Seq<char>)
    ensures
        -1 <= first_named(names, name) < names.len(),
        first_named(names, name) >= 0 ==> names[first_named(names, name)] == name,
        forall|j: int| 0 <= j < names.len() && (first_named(names, name) == -1 || j < first_named(names, name)) ==> names[j] != name,
    decreases names.len(),
{
    if names.len() > 0 {
        let p = names.drop_last();
        lemma_first_named(p, name);
        assert forall|j: int| 0 <= j < names.len() && (first_named(names, name) == -1 || j < first_named(names, name)) implies names[j] != name by {
            if j < p.len() {
                assert(p[j] == names[j]);
            }
        }
    }
}

/// The axis named `name` in a list of axis names, if there is one: where a user file with
/// that name goes in place of the built-in.
pub fn axis_slot(names: &[String], name: &str) -> (r: Option<usize>)
    ensures
        match r {
            Some(i) => i == first_named(names_view(names@), name@),
            None => first_named(names_view(names@), name@) == -1,
        },
{
    proof {
        lemma_first_named(names_view(names@), name@);
    }
    let mut i: usize = 0;
    while i < names.len()
        invariant
            i <= names.len(),
            forall|j: int| 0 <= j < i ==> names@[j]@ != name@,
        decreases names.len() - i,
    {
        if str_eq(names[i].as_str(), name) {
            proof {
                lemma_first_named(names_view(names@), name@);
                let f = first_named(names_view(names@), name@);
                assert(names_view(names@)[i as int] == name@);
                if f >= 0 && f < i {
                    assert(names_view(names@)[f] == names@[f]@);
                }
            }
            return Some(i);
        }
        i += 1;
    }
    proof {
        let f = first_named(names_view(names@), name@);
        if f >= 0 {
            assert(names_view(names@)[f] == names@[f]@);
        }
    }
    None
}

/// The axis a Selection names: the one with that name, else the one named `default`,
/// else the first.
pub open spec fn picked_axis(names: Seq<Seq<char>>, name: Seq<char>, default: Seq<char>) -> int {
    if first_named(names, name) >= 0 {
        first_named(names, name)
    } else if first_named(names, default) >= 0 {
        first_named(names, default)
    } else {
        0
    }
}

/// Which of the axes (by name) a Selection's `name` picks: an unknown name (a removed
/// file) falls back to the axis named `default`, and that to the first.
pub fn pick_axis(names: &[String], name: &str, default: &str) -> (r: usize)
    requires
        names.len() > 0,
    ensures
        r == picked_axis(names_view(names@), name@, default@),
        r < names.len(),
{
    proof {
        lemma_first_named(names_view(names@), name@);
        lemma_first_named(names_view(names@), default@);
    }
    match axis_slot(names, name) {
        Some(i) => i,
        None => match axis_slot(names, default) {
            Some(i) => i,
            None => 0,
        },
    }
}

/// `layers` over `m` in turn, a later layer winning where two set a token.
pub open spec fn layered<T>(m: Map<Seq<char>, T>, layers: Seq<Map<Seq<char>, T>>) -> Map<Seq<char>, T>
    decreases layers.len(),
{
    if layers.len() == 0 {
        m
    } else {
        layered(m, layers.drop_last()).union_prefer_right(layers.last())
    }
}

/// Some token maps by their contents.
pub open spec fn maps_of<T>(ls: Seq<Keyed<T>>) -> Seq<Map<Seq<char>, T>> {
    ls.map_values(|l: Keyed<T>| l@)
}

/// Design tokens by name.
pub struct Theme<T> {
    tokens: Keyed<T>,
}

impl<T> Theme<T> {
    #[verifier::type_invariant]
    spec fn inv(self) -> bool {
        self.tokens.wf()
    }

    /// The tokens by name.
    pub closed spec fn tokens(&self) -> Map<Seq<char>, T> {
        self.tokens@
    }

    /// The tokens of a Selection: the base sizes, the default axes as shipped, then the
    /// glyph set's, the font set's and the palette's over them, then each Style layer in
    /// turn; a later one wins where two set a token.
    pub fn compose(
        sizes: Keyed<T>,
        shipped: Keyed<T>,
        glyphs: Keyed<T>,
        fonts: Keyed<T>,
        palette: Keyed<T>,
        layers: Vec<Keyed<T>>,
    ) -> (r: Theme<T>)
        requires
            sizes.wf(),
        ensures
            r.tokens() == layered(
                sizes@.union_prefer_right(shipped@).union_prefer_right(glyphs@).union_prefer_right(fonts@).union_prefer_right(
                    palette@,
                ),
                maps_of(layers@),
            ),
    {
        let mut tokens = sizes;
        tokens.extend(shipped);
        tokens.extend(glyphs);
        tokens.extend(fonts);
        tokens.extend(palette);
        let ghost start = tokens@;
        let ghost all = layers@;
        let mut rest = layers;
        assert(all.take(0) =~= Seq::<Keyed<T>>::empty());
        assert(maps_of(all.take(0)) =~= Seq::<Map<Seq<char>, T>>::empty());
        while rest.len() > 0
            invariant
                tokens.wf(),
                rest.len() <= all.len(),
                rest@ == all.skip(all.len() - rest.len()),
                tokens@ == layered(start, maps_of(all.take(all.len() - rest.len()))),
            decreases rest.len(),
        {
            let ghost done = all.len() - rest.len();
            let l = rest.remove(0);
            proof {
                assert(all[done] == l);
                assert(rest@ =~= all.skip(done + 1));
                assert(maps_of(all.take(done + 1)).drop_last() =~= maps_of(all.take(done)));
                assert(maps_of(all.take(done + 1)).last() == l@);
            }
            tokens.extend(l);
        }
        assert(all.take(all.len() as int) =~= all);
        Theme { tokens }
    }

    /// The token named `name`, if any layer sets it.
    pub fn get(&self, name: &str) -> (r: Option<&T>)
        ensures
            match r {
                Some(v) => self.tokens().dom().contains(name@) && self.tokens()[name@] == *v,
                None => !self.tokens().dom().contains(name@),
            },
    {
        proof {
            use_type_invariant(self);
        }
        self.tokens.get(name)
    }

    /// The names of the tokens, ascending.
    pub fn names(&self) -> (r: Vec<String>)
        ensures
            ascending_keys(names_view(r@)),
            forall|k: Seq<char>| #[trigger] self.tokens().dom().contains(k) <==> names_view(r@).contains(k),
    {
        proof {
            use_type_invariant(self);
            self.tokens.lemma_keys();
            self.tokens.lemma_items();
        }
        let n = self.tokens.len();
        let mut r: Vec<String> = Vec::new();
        let mut i: usize = 0;
        while i < n
            invariant
                i <= n,
                n == self.tokens.keys().len(),
                self.tokens.wf(),
                r.len() == i,
                names_view(r@) == self.tokens.keys().take(i as int),
            decreases n - i,
        {
            let (k, _) = self.tokens.at(i);
            r.push(k.clone());
            assert(names_view(r@) =~= self.tokens.keys().take(i + 1));
            i += 1;
        }
        assert(self.tokens.keys().take(n as int) =~= self.tokens.keys());
        r
    }
}

} // verus!
