//! The Workspace's rules that need no file: its switches, the monitor an Instance is
//! placed on, the id a new Instance gets, and the monitor nearest to a window.

use vstd::prelude::*;
use vstd::set_lib::{lemma_int_range, lemma_len_subset, lemma_map_size, set_int_range};

use crate::keyed::Keyed;
use crate::plugins::{decimal, digit_value};
use crate::strs::{concat3, str_eq};
use crate::thumbs::{decimal_string, decimal_text, digit_char};

verus! {

broadcast use vstd::string::group_string_axioms, vstd::utf8::group_utf8_lib;

/// The monitor an Instance is placed on, as it was when the Instance was saved.
#[derive(Clone, Debug, Default, PartialEq, Eq)]
pub struct MonitorRef {
    pub name: String,
    pub width: u32,
    pub height: u32,
}

/// A switch of the Workspace. Adding one: a variant, its `Workspace` field and a row in
/// Settings.
#[derive(Clone, Copy, Debug, PartialEq, Eq)]
pub enum Flag {
    HeaderDrag,
}

impl Flag {
    pub fn id(self) -> (r: &'static str)
        ensures
            r@ == "header_drag"@,
    {
        "header_drag"
    }

    /// The switch an action key names.
    pub fn parse(s: &str) -> (r: Option<Flag>)
        ensures
            r == if s@ == "header_drag"@ {
                Some(Flag::HeaderDrag)
            } else {
                None
            },
    {
        if str_eq(s, "header_drag") {
            Some(Flag::HeaderDrag)
        } else {
            None
        }
    }

    pub fn label(self) -> (r: &'static str)
        ensures
            r@ == "Move by header"@,
    {
        "Move by header"
    }

    pub fn help(self) -> (r: &'static str)
        ensures
            r@ == "Drag the top strip of any widget to move it, without Edit layout"@,
    {
        "Drag the top strip of any widget to move it, without Edit layout"
    }
}

/// The `n`th Instance id of a Widget: `clock-3`.
pub open spec fn instance_id(widget: Seq<char>, n: nat) -> Seq<char> {
    widget + "-"@ + decimal_text(n)
}

/// Some strings as chars.
pub open spec fn ids_of(v: Seq<String>) -> Seq<Seq<char>> {
    v.map_values(|s: String| s@)
}

/// `n` is the first number whose Instance id no Instance has yet.
pub open spec fn first_free(ids: Seq<Seq<char>>, widget: Seq<char>, n: nat) -> bool {
    &&& n >= 1
    &&& !ids.contains(instance_id(widget, n))
    &&& forall|m: nat| 1 <= m < n ==> ids.contains(#[trigger] instance_id(widget, m))
}

/// Decimal text reads back as the number it writes.
pub proof fn lemma_decimal_text_reads_back(n: nat)
    ensures
        decimal(decimal_text(n)) == n,
    decreases n,
{
    let d = (n % 10) as nat;
    let c = digit_char(d);
    assert(('0' as u32 + d) as char as int == '0' as int + d);
    assert(digit_value(c) == d);
    if n >= 10 {
        lemma_decimal_text_reads_back(n / 10);
        let t = decimal_text(n);
        assert(t == decimal_text(n / 10) + seq![c]);
        assert(t.drop_last() =~= decimal_text(n / 10));
        assert(t.last() == c);
        assert(decimal(t) == decimal(decimal_text(n / 10)) * 10 + digit_value(c));
        assert((n / 10) * 10 + n % 10 == n) by (nonlinear_arith);
    } else {
        let t = decimal_text(n);
        assert(t == seq![c]);
        assert(t.drop_last() =~= Seq::<char>::empty());
        assert(decimal(t) == decimal(Seq::<char>::empty()) * 10 + digit_value(c));
        assert(n % 10 == n);
    }
}

/// Decimal text of a positive number does not start with `0`.
proof fn lemma_decimal_text_lead(n: nat)
    requires
        n >= 1,
    ensures
        decimal_text(n)[0] != '0',
    decreases n,
{
    if n < 10 {
        assert(digit_char(n) as int == 48 + n);
    } else {
        lemma_decimal_text_lead(n / 10);
        crate::thumbs::lemma_decimal_text(n / 10);
        assert(decimal_text(n)[0] == decimal_text(n / 10)[0]);
    }
}

/// Some Instance's id is the Widget's id, `-`, and `m` in decimal digits without a
/// leading zero.
pub open spec fn number_taken(ids: Seq<Seq<char>>, widget: Seq<char>, m: nat) -> bool {
    exists|t: Seq<char>|
        #![trigger decimal(t)]
        t.len() > 0 && t[0] != '0' && (forall|k: int| 0 <= k < t.len() ==> '0' <= #[trigger] t[k] <= '9') && decimal(t)
            == m && ids.contains(widget + "-"@ + t)
}

/// A new Instance's id is one no Instance has yet: the Widget's id, `-`, and a number of
/// at least 1 in decimal digits without a leading zero; every smaller number of that
/// Widget is already taken by some Instance's id of the same form.
pub proof fn lemma_new_id(ids: Seq<Seq<char>>, widget: Seq<char>, n: nat, r: Seq<char>)
    requires
        first_free(ids, widget, n),
        r == instance_id(widget, n),
    ensures
        !ids.contains(r),
        r.len() > widget.len() + 1,
        r.take(widget.len() as int) == widget,
        r[widget.len() as int] == '-',
        ({
            let d = r.skip(widget.len() as int + 1);
            &&& forall|k: int| 0 <= k < d.len() ==> '0' <= #[trigger] d[k] <= '9'
            &&& d[0] != '0'
            &&& decimal(d) == n
            &&& forall|m: nat| 1 <= m < n ==> #[trigger] number_taken(ids, widget, m)
        }),
{
    reveal_strlit("-");
    crate::thumbs::lemma_decimal_text(n);
    lemma_decimal_text_lead(n);
    lemma_decimal_text_reads_back(n);
    let d = r.skip(widget.len() as int + 1);
    assert(d =~= decimal_text(n));
    assert(r.take(widget.len() as int) =~= widget);
    assert forall|m: nat| 1 <= m < n implies #[trigger] number_taken(ids, widget, m) by {
        crate::thumbs::lemma_decimal_text(m);
        lemma_decimal_text_lead(m);
        lemma_decimal_text_reads_back(m);
        assert(ids.contains(instance_id(widget, m)));
        let t = decimal_text(m);
        assert(decimal(t) == m);
    }
}

/// Two numbers give two Instance ids.
pub proof fn lemma_instance_ids_differ(widget: Seq<char>, a: nat, b: nat)
    requires
        a != b,
    ensures
        instance_id(widget, a) != instance_id(widget, b),
{
    lemma_decimal_text_reads_back(a);
    lemma_decimal_text_reads_back(b);
    reveal_strlit("-");
    let k = widget.len() + 1int;
    if instance_id(widget, a) == instance_id(widget, b) {
        assert(instance_id(widget, a).skip(k) =~= decimal_text(a));
        assert(instance_id(widget, b).skip(k) =~= decimal_text(b));
    }
}

/// When the first `n` Instance ids of a Widget are all taken, there are at least `n` ids.
proof fn lemma_taken_bound(ids: Seq<Seq<char>>, widget: Seq<char>, n: nat)
    requires
        forall|m: nat| 1 <= m <= n ==> ids.contains(#[trigger] instance_id(widget, m)),
    ensures
        n <= ids.len(),
{
    let x = set_int_range(1, n + 1int);
    let f = |m: int| instance_id(widget, m as nat);
    let y = x.map(f);
    lemma_int_range(1, n + 1int);
    assert(vstd::relations::injective_on(f, x)) by {
        assert forall|a: int, b: int| x.contains(a) && x.contains(b) && #[trigger] f(a) == #[trigger] f(b) implies a == b by {
            if a != b {
                lemma_instance_ids_differ(widget, a as nat, b as nat);
            }
        }
    }
    lemma_map_size(x, y, f);
    assert(y.subset_of(ids.to_set())) by {
        assert forall|s: Seq<char>| y.contains(s) implies ids.to_set().contains(s) by {
            let m = choose|m: int| x.contains(m) && f(m) == s;
            assert(ids.contains(instance_id(widget, m as nat)));
        }
    }
    lemma_len_subset(y, ids.to_set());
    ids.lemma_cardinality_of_set();
}

fn has_id(ids: &[String], s: &str) -> (r: bool)
    ensures
        r == ids_of(ids@).contains(s@),
{
    let mut i: usize = 0;
    while i < ids.len()
        invariant
            i <= ids.len(),
            forall|k: int| 0 <= k < i ==> ids@[k]@ != s@,
        decreases ids.len() - i,
    {
        if str_eq(ids[i].as_str(), s) {
            assert(ids_of(ids@)[i as int] == s@);
            return true;
        }
        i += 1;
    }
    proof {
        if ids_of(ids@).contains(s@) {
            let k = choose|k: int| 0 <= k < ids_of(ids@).len() && ids_of(ids@)[k] == s@;
            assert(ids@[k]@ == s@);
        }
    }
    false
}

/// The id for a new Instance of `widget`: `widget-n` for the first `n` from 1 that no
/// Instance has.
pub fn next_id(ids: &[String], widget: &str) -> (r: String)
    requires
        ids.len() < u64::MAX,
    ensures
        exists|n: nat| first_free(ids_of(ids@), widget@, n) && r@ == instance_id(widget@, n),
{
    let ghost all = ids_of(ids@);
    let mut n: u64 = 1;
    loop
        invariant
            1 <= n <= ids.len() + 1,
            ids.len() < u64::MAX,
            all == ids_of(ids@),
            forall|m: nat| 1 <= m < n ==> all.contains(#[trigger] instance_id(widget@, m)),
        decreases ids.len() + 1 - n,
    {
        let num = decimal_string(n);
        let id = concat3(widget, "-", num.as_str());
        if !has_id(ids, id.as_str()) {
            assert(first_free(all, widget@, n as nat));
            return id;
        }
        proof {
            assert forall|m: nat| 1 <= m <= n implies all.contains(#[trigger] instance_id(widget@, m)) by {
                if m == n {
                    assert(id@ == instance_id(widget@, m));
                }
            }
            lemma_taken_bound(all, widget@, n as nat);
        }
        n += 1;
    }
}


/// How far past monitor `m` (x, y, width, height) a point is, squared: 0 inside it.
pub open spec fn gap_sq(m: (i32, i32, u32, u32), c: (i32, i32)) -> int {
    let dx = max3(m.0 - c.0, c.0 - (m.0 + m.2), 0);
    let dy = max3(m.1 - c.1, c.1 - (m.1 + m.3), 0);
    dx * dx + dy * dy
}

/// The largest of three.
pub open spec fn max3(a: int, b: int, c: int) -> int {
    if a >= b && a >= c {
        a
    } else if b >= c {
        b
    } else {
        c
    }
}

/// The point `c` and monitor `m` can be measured in 32 and 64 bits.
pub open spec fn measurable(m: (i32, i32, u32, u32), c: (i32, i32)) -> bool {
    &&& m.2 <= i32::MAX && m.3 <= i32::MAX
    &&& m.0 + m.2 <= i32::MAX && m.1 + m.3 <= i32::MAX
    &&& i32::MIN <= m.0 - c.0 <= i32::MAX && i32::MIN <= m.1 - c.1 <= i32::MAX
    &&& i32::MIN <= c.0 - (m.0 + m.2) <= i32::MAX && i32::MIN <= c.1 - (m.1 + m.3) <= i32::MAX
    &&& gap_sq(m, c) <= i64::MAX
}

fn gap(m: (i32, i32, u32, u32), c: (i32, i32)) -> (r: i64)
    requires
        measurable(m, c),
    ensures
        r == gap_sq(m, c),
{
    let a = m.0 - c.0;
    let b = c.0 - (m.0 + m.2 as i32);
    let dx = if a >= b && a >= 0 {
        a
    } else if b >= 0 {
        b
    } else {
        0
    } as i64;
    let a = m.1 - c.1;
    let b = c.1 - (m.1 + m.3 as i32);
    let dy = if a >= b && a >= 0 {
        a
    } else if b >= 0 {
        b
    } else {
        0
    } as i64;
    assert(dx * dx >= 0 && dy * dy >= 0) by (nonlinear_arith);
    dx * dx + dy * dy
}

/// Monitor `m` (x, y, width, height) holds point `c`, its edges included.
pub open spec fn holds(m: (i32, i32, u32, u32), c: (i32, i32)) -> bool {
    m.0 <= c.0 <= m.0 + m.2 && m.1 <= c.1 <= m.1 + m.3
}

/// How far a point is past a monitor: nothing inside it; otherwise at least how far it
/// lies beyond the monitor's edge on either axis, squared, and exactly that when the other
/// axis is within the monitor's span.
pub proof fn lemma_gap_measures_distance(m: (i32, i32, u32, u32), c: (i32, i32))
    ensures
        holds(m, c) <==> gap_sq(m, c) == 0,
        gap_sq(m, c) >= 0,
        c.1 > m.1 + m.3 ==> gap_sq(m, c) >= (c.1 - (m.1 + m.3)) * (c.1 - (m.1 + m.3)),
        c.1 < m.1 ==> gap_sq(m, c) >= (m.1 - c.1) * (m.1 - c.1),
        c.0 > m.0 + m.2 ==> gap_sq(m, c) >= (c.0 - (m.0 + m.2)) * (c.0 - (m.0 + m.2)),
        c.0 < m.0 ==> gap_sq(m, c) >= (m.0 - c.0) * (m.0 - c.0),
        m.0 <= c.0 <= m.0 + m.2 && c.1 > m.1 + m.3 ==> gap_sq(m, c) == (c.1 - (m.1 + m.3)) * (c.1 - (m.1 + m.3)),
        m.0 <= c.0 <= m.0 + m.2 && c.1 < m.1 ==> gap_sq(m, c) == (m.1 - c.1) * (m.1 - c.1),
        m.1 <= c.1 <= m.1 + m.3 && c.0 > m.0 + m.2 ==> gap_sq(m, c) == (c.0 - (m.0 + m.2)) * (c.0 - (m.0 + m.2)),
        m.1 <= c.1 <= m.1 + m.3 && c.0 < m.0 ==> gap_sq(m, c) == (m.0 - c.0) * (m.0 - c.0),
{
    let dx = max3(m.0 - c.0, c.0 - (m.0 + m.2), 0);
    let dy = max3(m.1 - c.1, c.1 - (m.1 + m.3), 0);
    assert(dx >= 0 && dy >= 0);
    assert(dx * dx >= 0 && dy * dy >= 0) by (nonlinear_arith)
        requires
            dx >= 0,
            dy >= 0;
    assert(dx * dx == 0 <==> dx == 0) by (nonlinear_arith)
        requires
            dx >= 0;
    assert(dy * dy == 0 <==> dy == 0) by (nonlinear_arith)
        requires
            dy >= 0;
    assert(holds(m, c) <==> dx == 0 && dy == 0);
}

/// A window whose centre lies on some monitor is anchored to a monitor that holds it:
/// whichever monitor is nearest (as `nearest_monitor` picks) holds the centre.
pub proof fn lemma_nearest_holds(monitors: Seq<(i32, i32, u32, u32)>, centre: (i32, i32), i: int, j: int)
    requires
        0 <= i < monitors.len(),
        0 <= j < monitors.len(),
        holds(monitors[j], centre),
        forall|k: int| 0 <= k < monitors.len() ==> gap_sq(monitors[i], centre) <= gap_sq(#[trigger] monitors[k], centre),
    ensures
        holds(monitors[i], centre),
{
    lemma_gap_measures_distance(monitors[i], centre);
    lemma_gap_measures_distance(monitors[j], centre);
    assert(gap_sq(monitors[i], centre) <= gap_sq(monitors[j], centre));
}

/// The monitor nearest to `centre`, the first of those equally near; `None` when there
/// is none.
pub fn nearest_monitor(monitors: &[(i32, i32, u32, u32)], centre: (i32, i32)) -> (r: Option<usize>)
    requires
        forall|i: int| 0 <= i < monitors.len() ==> measurable(#[trigger] monitors@[i], centre),
    ensures
        monitors.len() == 0 <==> r is None,
        r matches Some(i) ==> {
            &&& i < monitors.len()
            &&& forall|j: int| 0 <= j < monitors.len() ==> gap_sq(monitors@[i as int], centre) <= gap_sq(#[trigger] monitors@[j], centre)
            &&& forall|j: int| 0 <= j < i ==> gap_sq(monitors@[i as int], centre) < gap_sq(#[trigger] monitors@[j], centre)
        },
{
    if monitors.len() == 0 {
        return None;
    }
    let mut best: usize = 0;
    let mut best_gap = gap(monitors[0], centre);
    let mut i: usize = 1;
    while i < monitors.len()
        invariant
            1 <= i <= monitors.len(),
            best < i,
            forall|k: int| 0 <= k < monitors.len() ==> measurable(#[trigger] monitors@[k], centre),
            best_gap == gap_sq(monitors@[best as int], centre),
            forall|j: int| 0 <= j < i ==> best_gap <= gap_sq(#[trigger] monitors@[j], centre),
            forall|j: int| 0 <= j < best ==> best_gap < gap_sq(#[trigger] monitors@[j], centre),
        decreases monitors.len() - i,
    {
        let g = gap(monitors[i], centre);
        if g < best_gap {
            best = i;
            best_gap = g;
        }
        i += 1;
    }
    Some(best)
}


/// The style params some built-in Widgets once had, each with the Style token it became.
pub open spec fn moved_params(widget: Seq<char>) -> Seq<(Seq<char>, Seq<char>)> {
    if widget == "drawer"@ {
        seq![
            ("transparent"@, "transparent"@),
            ("opacity"@, "bg-opacity"@),
            ("blur"@, "blur"@),
            ("tint"@, "tint"@),
        ]
    } else if widget == "clock"@ || widget == "digital_clock"@ {
        seq![("accent"@, "accent"@)]
    } else {
        Seq::empty()
    }
}

fn pair(a: &str, b: &str) -> (r: (String, String))
    ensures
        r.0@ == a@,
        r.1@ == b@,
{
    (String::from_str(a), String::from_str(b))
}

/// The old style params of a Widget's Instances and the Style token each moves to when a
/// version 1 Workspace is read.
pub fn moved_to_style(widget: &str) -> (r: Vec<(String, String)>)
    ensures
        r@.map_values(|p: (String, String)| (p.0@, p.1@)) == moved_params(widget@),
{
    let mut r: Vec<(String, String)> = Vec::new();
    if str_eq(widget, "drawer") {
        r.push(pair("transparent", "transparent"));
        r.push(pair("opacity", "bg-opacity"));
        r.push(pair("blur", "blur"));
        r.push(pair("tint", "tint"));
    } else if str_eq(widget, "clock") || str_eq(widget, "digital_clock") {
        r.push(pair("accent", "accent"));
    }
    assert(r@.map_values(|p: (String, String)| (p.0@, p.1@)) =~= moved_params(widget@));
    r
}

/// The global style after moving a version-1 Workspace: the old overrides join the style
/// (winning over what it held), then `blur` is set to `on` when the old switch was on, and
/// `outlines` to `off` when that switch was off.
pub open spec fn v1_style<V>(
    style: Map<Seq<char>, V>,
    overrides: Map<Seq<char>, V>,
    blur: Option<bool>,
    outlines: Option<bool>,
    on: V,
    off: V,
) -> Map<Seq<char>, V> {
    let m = style.union_prefer_right(overrides);
    let m = if blur == Some(true) {
        m.insert("blur"@, on)
    } else {
        m
    };
    if outlines == Some(false) {
        m.insert("outlines"@, off)
    } else {
        m
    }
}

/// Moves a version-1 Workspace's global style into `style`; see `v1_style`.
pub fn migrate_style<V>(style: &mut Keyed<V>, overrides: Keyed<V>, blur: Option<bool>, outlines: Option<bool>, on: V, off: V)
    requires
        old(style).wf(),
    ensures
        final(style).wf(),
        final(style)@ == v1_style(old(style)@, overrides@, blur, outlines, on, off),
{
    style.extend(overrides);
    if blur == Some(true) {
        style.put(String::from_str("blur"), on);
    }
    if outlines == Some(false) {
        style.put(String::from_str("outlines"), off);
    }
}

/// The params and style of an Instance after `moves` (param, token) in order: each param
/// it has leaves its params and sets that token of its style.
pub open spec fn moved_out<V>(
    params: Map<Seq<char>, V>,
    style: Map<Seq<char>, V>,
    moves: Seq<(Seq<char>, Seq<char>)>,
) -> (Map<Seq<char>, V>, Map<Seq<char>, V>)
    decreases moves.len(),
{
    if moves.len() == 0 {
        (params, style)
    } else {
        let (p, st) = moved_out(params, style, moves.drop_last());
        let (param, token) = moves.last();
        if p.dom().contains(param) {
            (p.remove(param), st.insert(token, p[param]))
        } else {
            (p, st)
        }
    }
}

/// Moves the params of an Instance of `widget` that version 1 kept as params and version
/// 2 keeps as style (`moved_params`) into its style.
pub fn migrate_params<V>(widget: &str, params: &mut Keyed<V>, style: &mut Keyed<V>)
    requires
        old(params).wf(),
        old(style).wf(),
    ensures
        final(params).wf(),
        final(style).wf(),
        (final(params)@, final(style)@) == moved_out(old(params)@, old(style)@, moved_params(widget@)),
{
    let moves = moved_to_style(widget);
    let ghost mv = moved_params(widget@);
    let ghost p0 = params@;
    let ghost s0 = style@;
    let mut i: usize = 0;
    while i < moves.len()
        invariant
            i <= moves.len(),
            moves@.map_values(|p: (String, String)| (p.0@, p.1@)) == mv,
            params.wf(),
            style.wf(),
            (params@, style@) == moved_out(p0, s0, mv.take(i as int)),
        decreases moves.len() - i,
    {
        proof {
            assert(mv.take(i + 1).drop_last() =~= mv.take(i as int));
            assert(mv.take(i + 1).last() == (moves@[i as int].0@, moves@[i as int].1@));
        }
        if let Some(v) = params.take(moves[i].0.as_str()) {
            style.put(moves[i].1.clone(), v);
        }
        i += 1;
    }
    assert(mv.take(moves.len() as int) =~= mv);
}

} // verus!
