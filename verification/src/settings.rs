//! What the settings window decides without a window: its pages, log lines, where a
//! Style change lands, the axes an Instance may pick, and caret moves in a text field.

use vstd::prelude::*;

use crate::paths::{file_stem, lowercase, stem, to_lowercase};
use crate::plugins::PluginRow;
use crate::strs::{
    char_upper, find_from, find_str, chars_of, concat, concat3, has_prefix, has_suffix, push_char, split_by, split_str, starts_with, str_eq,
    string_of_range, to_uppercase, trim, trimmed, upper_char, uppercase, ends_with,
};
use crate::theme::{Selection, ThemePick};
use crate::workspace::{first_free, ids_of, instance_id, next_id, Flag};
use crate::thumbs::{decimal_string, decimal_text};
use vstd::utf8::{encode_utf8, is_char_boundary};

verus! {

broadcast use vstd::string::group_string_axioms, vstd::utf8::group_utf8_lib;

/// Why an Instance has no window.
#[derive(Debug, Clone, PartialEq)]
pub enum Hidden {
    /// Its monitor is missing.
    Parked,
    /// Only this switched-off Plugin provides its Widget.
    PluginOff(String),
}

/// How serious a log line is.
#[derive(Clone, Copy, Debug, PartialEq, Eq, Structural)]
pub enum Level {
    Info,
    Warning,
    Error,
}

/// A level's id in the Log page's filter keys.
pub open spec fn level_id(l: Level) -> Seq<char> {
    match l {
        Level::Info => "info"@,
        Level::Warning => "warning"@,
        Level::Error => "error"@,
    }
}

/// A level's name.
pub open spec fn level_label(l: Level) -> Seq<char> {
    match l {
        Level::Info => "Info"@,
        Level::Warning => "Warning"@,
        Level::Error => "Error"@,
    }
}

/// The Log page's filter for a level.
pub open spec fn level_plural(l: Level) -> Seq<char> {
    match l {
        Level::Info => "Info"@,
        Level::Warning => "Warnings"@,
        Level::Error => "Errors"@,
    }
}

impl Level {
    pub fn id(self) -> (r: &'static str)
        ensures
            r@ == level_id(self),
    {
        proof {
            reveal_strlit("info");
            reveal_strlit("warning");
            reveal_strlit("error");
        }
        match self {
            Level::Info => "info",
            Level::Warning => "warning",
            Level::Error => "error",
        }
    }

    pub fn label(self) -> (r: &'static str)
        ensures
            r@ == level_label(self),
    {
        match self {
            Level::Info => "Info",
            Level::Warning => "Warning",
            Level::Error => "Error",
        }
    }

    /// The Log page's filter for it.
    pub fn plural(self) -> (r: &'static str)
        ensures
            r@ == level_plural(self),
    {
        match self {
            Level::Info => "Info",
            Level::Warning => "Warnings",
            Level::Error => "Errors",
        }
    }
}

/// One line of the Log page.
#[derive(Clone, Debug, PartialEq)]
pub struct LogLine {
    /// Local wall-clock time, `01:29:58`.
    pub time: String,
    pub level: Level,
    /// What wrote it: `core`, `gpu`, `plugins`...
    pub source: String,
    pub text: String,
}

/// `n` in decimal, at least two digits.
pub open spec fn two_digits(n: nat) -> Seq<char> {
    if n < 10 {
        "0"@ + decimal_text(n)
    } else {
        decimal_text(n)
    }
}

/// `hh:mm:ss`.
pub open spec fn clock_text(hour: nat, minute: nat, second: nat) -> Seq<char> {
    two_digits(hour) + ":"@ + two_digits(minute) + ":"@ + two_digits(second)
}

fn two_digit_string(n: u32) -> (r: String)
    ensures
        r@ == two_digits(n as nat),
{
    let d = decimal_string(n as u64);
    if n < 10 {
        concat("0", d.as_str())
    } else {
        d
    }
}

/// A one-word topic: not empty, no whitespace.
pub open spec fn one_word(p: Seq<char>) -> bool {
    p.len() > 0 && forall|i: int| 0 <= i < p.len() ==> !crate::strs::is_white(#[trigger] p[i])
}

/// The topic of a message written `topic: rest`, with a one-word topic; `ready: …`,
/// the start-up summary, is the core's own.
pub open spec fn topic_of(line: Seq<char>) -> Option<Seq<char>> {
    let k = find_from(line, ": "@, 0);
    if k > 0 && one_word(line.take(k)) && line.take(k) != "ready"@ {
        Some(line.take(k))
    } else {
        None
    }
}

/// The source a message is sorted into: its topic; else `plugins` for a Plugin's
/// install or its Code Sources, `gpu` for the GPU, `monitor` for a monitor; else `core`.
pub open spec fn log_source(line: Seq<char>) -> Seq<char> {
    match topic_of(line) {
        Some(t) => t,
        None => if has_prefix(line, "could not install "@) || has_prefix(line, "plugin "@) {
            "plugins"@
        } else if has_prefix(line, "GPU "@) {
            "gpu"@
        } else if has_prefix(line, "monitor "@) {
            "monitor"@
        } else {
            "core"@
        },
    }
}

/// The text the Log page shows: what follows the topic, else the whole message.
pub open spec fn log_text(line: Seq<char>) -> Seq<char> {
    match topic_of(line) {
        Some(t) => line.skip(t.len() as int + 2),
        None => line,
    }
}

/// How serious a message is: what could not be done or failed is an error; the
/// software adapter, a lost GPU and a refused request are warnings; the rest is news.
pub open spec fn log_level(line: Seq<char>) -> Level {
    if has_prefix(line, "could not "@) || contains_text(line, "Error:"@) {
        Level::Error
    } else if contains_text(line, "software adapter"@) || has_prefix(line, "GPU lost"@) || has_prefix(line, "refused "@) {
        Level::Warning
    } else {
        Level::Info
    }
}

/// Where the topic of `line` ends, if it has one (see `topic_of`).
fn topic_end(line: &str) -> (r: Option<usize>)
    ensures
        match r {
            Some(k) => k <= line@.len() && k == find_from(line@, ": "@, 0) && topic_of(line@) == Some(line@.take(k as int)),
            None => topic_of(line@) is None,
        },
{
    let k = match find_str(line, ": ") {
        Some(k) => k,
        None => {
            return None;
        },
    };
    proof {
        crate::strs::lemma_find_from(line@, ": "@, 0);
    }
    if k == 0 {
        return None;
    }
    let cs = chars_of(line);
    let mut i: usize = 0;
    while i < k
        invariant
            i <= k,
            k <= cs.len(),
            cs@ == line@,
            k == find_from(line@, ": "@, 0),
            forall|j: int| 0 <= j < i ==> !crate::strs::is_white(#[trigger] cs@[j]),
        decreases k - i,
    {
        if crate::strs::white(cs[i]) {
            assert(line@.take(k as int)[i as int] == cs@[i as int]);
            return None;
        }
        i += 1;
    }
    let word = string_of_range(&cs, 0, k);
    assert(word@ =~= line@.take(k as int));
    if str_eq(word.as_str(), "ready") {
        return None;
    }
    Some(k)
}

/// Sorts a message into the Log page's level and source; returns (level, source, the
/// text to show): see `log_level`, `log_source` and `log_text`.
pub fn classify(line: &str) -> (r: (Level, String, String))
    ensures
        r.0 == log_level(line@),
        r.1@ == log_source(line@),
        r.2@ == log_text(line@),
{
    proof {
        reveal_strlit(": ");
    }
    let level = if starts_with(line, "could not ") || find_str(line, "Error:").is_some() {
        Level::Error
    } else if find_str(line, "software adapter").is_some() || starts_with(line, "GPU lost") || starts_with(line, "refused ") {
        Level::Warning
    } else {
        Level::Info
    };
    match topic_end(line) {
        Some(k) => {
            let cs = chars_of(line);
            proof {
                reveal_strlit(": ");
                crate::strs::lemma_find_from(line@, ": "@, 0);
                assert(crate::strs::occurs_at(line@, ": "@, k as int));
                assert(k + 2 <= cs.len());
            }
            let topic = string_of_range(&cs, 0, k);
            let text = string_of_range(&cs, k + 2, cs.len());
            proof {
                assert(topic@ =~= line@.take(k as int));
                assert(text@ =~= line@.skip(k + 2));
            }
            (level, topic, text)
        },
        None => {
            let source = if starts_with(line, "could not install ") || starts_with(line, "plugin ") {
                "plugins"
            } else if starts_with(line, "GPU ") {
                "gpu"
            } else if starts_with(line, "monitor ") {
                "monitor"
            } else {
                "core"
            };
            (level, String::from_str(source), String::from_str(line))
        },
    }
}

/// The link a log line carries: a `gpu` warning offers to change the adapter on the
/// General page, as (label, action).
pub fn adapter_link(l: &LogLine) -> (r: Option<(&'static str, &'static str)>)
    ensures
        match r {
            Some((label, action)) => l.level == Level::Warning && l.source@ == "gpu"@
                && label@ == "Change adapter in General \u{2192}"@ && action@ == "nav:general"@,
            None => !(l.level == Level::Warning && l.source@ == "gpu"@),
        },
{
    if l.level == Level::Warning && str_eq(l.source.as_str(), "gpu") {
        Some(("Change adapter in General \u{2192}", "nav:general"))
    } else {
        None
    }
}

impl LogLine {
    /// A message written at `hour:minute:second`, sorted by `classify`.
    pub fn new(hour: u32, minute: u32, second: u32, line: &str) -> (r: LogLine)
        ensures
            r.time@ == clock_text(hour as nat, minute as nat, second as nat),
            r.level == log_level(line@),
            r.source@ == log_source(line@),
            r.text@ == log_text(line@),
    {
        let (level, source, text) = classify(line);
        let h = two_digit_string(hour);
        let m = two_digit_string(minute);
        let s = two_digit_string(second);
        let hm = concat3(h.as_str(), ":", m.as_str());
        let time = concat3(hm.as_str(), ":", s.as_str());
        LogLine { time, level, source, text }
    }
}

/// Where a Style change lands: the Workspace or one Instance (`*` or its id in action keys).
#[derive(Debug, Clone, PartialEq)]
pub enum Scope {
    Global,
    Instance(String),
}

/// The scope an action key names.
pub open spec fn scope_of(s: Seq<char>) -> Option<Seq<char>> {
    if s == "*"@ {
        None
    } else {
        Some(s)
    }
}

impl Scope {
    /// `*` is the Workspace; anything else is the Instance with that id.
    pub fn parse(s: &str) -> (r: Scope)
        ensures
            match r {
                Scope::Global => scope_of(s@) is None,
                Scope::Instance(id) => scope_of(s@) == Some(id@),
            },
    {
        if str_eq(s, "*") {
            Scope::Global
        } else {
            Scope::Instance(String::from_str(s))
        }
    }

    /// The scope as action keys write it.
    pub fn key(&self) -> (r: &str)
        ensures
            r@ == match self {
                Scope::Global => "*"@,
                Scope::Instance(id) => id@,
            },
    {
        match self {
            Scope::Global => "*",
            Scope::Instance(id) => id.as_str(),
        }
    }
}

/// A scope by its Instance id; none for the Workspace.
pub open spec fn scope_view(s: Scope) -> Option<Seq<char>> {
    match s {
        Scope::Global => None,
        Scope::Instance(id) => Some(id@),
    }
}

/// The global choice for an axis: `palette`, `fonts`, `glyphs`, and anything else
/// for the icon pack.
pub open spec fn global_axis(sel: Selection, axis: Seq<char>) -> Seq<char> {
    if axis == "palette"@ {
        sel.palette@
    } else if axis == "fonts"@ {
        sel.fonts@
    } else if axis == "glyphs"@ {
        sel.glyphs@
    } else {
        sel.icon_pack@
    }
}

/// An Instance's own choice for an axis, named as in `global_axis`.
pub open spec fn own_axis(pick: ThemePick, axis: Seq<char>) -> Option<String> {
    if axis == "palette"@ {
        pick.palette
    } else if axis == "fonts"@ {
        pick.fonts
    } else if axis == "glyphs"@ {
        pick.glyphs
    } else {
        pick.icon_pack
    }
}

/// The global choice for an axis.
pub fn axis_of<'a>(sel: &'a Selection, axis: &str) -> (r: &'a str)
    ensures
        r@ == global_axis(*sel, axis@),
{
    if str_eq(axis, "palette") {
        sel.palette.as_str()
    } else if str_eq(axis, "fonts") {
        sel.fonts.as_str()
    } else if str_eq(axis, "glyphs") {
        sel.glyphs.as_str()
    } else {
        sel.icon_pack.as_str()
    }
}

fn copy_pick(p: &Option<String>) -> (r: Option<String>)
    ensures
        match r {
            Some(s) => p matches Some(q) && s@ == q@,
            None => p is None,
        },
{
    match p {
        Some(s) => Some(s.clone()),
        None => None,
    }
}

/// An Instance's own choice for an axis, if it made one.
pub fn picked(pick: &ThemePick, axis: &str) -> (r: Option<String>)
    ensures
        match r {
            Some(s) => own_axis(*pick, axis@) matches Some(q) && s@ == q@,
            None => own_axis(*pick, axis@) is None,
        },
{
    if str_eq(axis, "palette") {
        copy_pick(&pick.palette)
    } else if str_eq(axis, "fonts") {
        copy_pick(&pick.fonts)
    } else if str_eq(axis, "glyphs") {
        copy_pick(&pick.glyphs)
    } else {
        copy_pick(&pick.icon_pack)
    }
}

/// Where ` (` last occurs in `s`, or -1.
pub open spec fn last_open(s: Seq<char>) -> int
    decreases s.len(),
{
    if s.len() < 2 {
        -1
    } else if s[s.len() - 2] == ' ' && s[s.len() - 1] == '(' {
        s.len() - 2
    } else {
        last_open(s.drop_last())
    }
}

/// "Corner roundness (px)" is ("Corner roundness", "px"); a label with no unit is itself
/// and no unit.
pub open spec fn unit_split(label: Seq<char>) -> (Seq<char>, Seq<char>) {
    if has_suffix(label, ")"@) && last_open(label.drop_last()) >= 0 {
        let l = label.drop_last();
        let k = last_open(l);
        (l.take(k), l.skip(k + 2))
    } else {
        (label, Seq::empty())
    }
}

/// A label and the unit in brackets at its end.
pub fn split_unit(label: &str) -> (r: (String, String))
    ensures
        (r.0@, r.1@) == unit_split(label@),
{
    let cs = chars_of(label);
    proof {
        reveal_strlit(")");
    }
    if cs.len() == 0 || cs[cs.len() - 1] != ')' {
        proof {
            if has_suffix(label@, ")"@) {
                assert(label@.skip(label@.len() - 1)[0] == ")"@[0]);
            }
        }
        return (String::from_str(label), String::new());
    }
    assert(label@.skip(label@.len() - 1) =~= ")"@);
    let n = cs.len() - 1;
    let ghost l = cs@.take(n as int);
    assert(l =~= label@.drop_last());
    assert(l.take(n as int) =~= l);
    let mut i = n;
    while i >= 2 && !(cs[i - 2] == ' ' && cs[i - 1] == '(')
        invariant
            i <= n < cs.len(),
            cs@ == label@,
            l == cs@.take(n as int),
            last_open(l) == last_open(l.take(i as int)),
        decreases i,
    {
        assert(l.take(i as int).drop_last() =~= l.take(i - 1));
        i -= 1;
    }
    if i < 2 {
        assert(last_open(l.take(i as int)) == -1);
        return (String::from_str(label), String::new());
    }
    assert(last_open(l.take(i as int)) == i - 2);
    let a = string_of_range(&cs, 0, i - 2);
    let b = string_of_range(&cs, i, n);
    assert(a@ =~= l.take(i - 2));
    assert(b@ =~= l.skip(i as int));
    (a, b)
}


/// A page of the settings window.
#[derive(Clone, Copy, PartialEq, Eq, Debug)]
pub enum Page {
    Widgets,
    Appearance,
    Plugins,
    General,
    Log,
}

/// A page's id in `nav:` actions.
pub open spec fn page_id(p: Page) -> Seq<char> {
    match p {
        Page::Widgets => "widgets"@,
        Page::Appearance => "appearance"@,
        Page::Plugins => "plugins"@,
        Page::General => "general"@,
        Page::Log => "log"@,
    }
}

/// A page's tab name.
pub open spec fn page_title(p: Page) -> Seq<char> {
    match p {
        Page::Widgets => "Widgets"@,
        Page::Appearance => "Appearance"@,
        Page::Plugins => "Plugins"@,
        Page::General => "General"@,
        Page::Log => "Log"@,
    }
}

/// The page whose id `s` is; the Widgets page for any other string.
pub open spec fn page_named(s: Seq<char>) -> Page {
    if s == "widgets"@ {
        Page::Widgets
    } else if s == "appearance"@ {
        Page::Appearance
    } else if s == "plugins"@ {
        Page::Plugins
    } else if s == "general"@ {
        Page::General
    } else if s == "log"@ {
        Page::Log
    } else {
        Page::Widgets
    }
}

impl Page {
    pub fn id(self) -> (r: &'static str)
        ensures
            r@ == page_id(self),
    {
        match self {
            Page::Widgets => "widgets",
            Page::Appearance => "appearance",
            Page::Plugins => "plugins",
            Page::General => "general",
            Page::Log => "log",
        }
    }

    pub fn title(self) -> (r: &'static str)
        ensures
            r@ == page_title(self),
    {
        match self {
            Page::Widgets => "Widgets",
            Page::Appearance => "Appearance",
            Page::Plugins => "Plugins",
            Page::General => "General",
            Page::Log => "Log",
        }
    }

    /// Its heading, where the tab's name is too short.
    pub fn heading(self) -> (r: &'static str)
        ensures
            r@ == match self {
                Page::Log => "Activity log"@,
                _ => page_title(self),
            },
    {
        match self {
            Page::Log => "Activity log",
            p => p.title(),
        }
    }

    /// The line under its heading.
    pub fn subtitle(self) -> (r: &'static str)
        ensures
            r@ == match self {
                Page::Widgets => "Pick a widget to configure it. Changes show on your desktop right away."@,
                Page::Appearance => "Colours, fonts and icons — applied to every widget at once."@,
                Page::Plugins => "Widgets, palettes, fonts and icons made by others."@,
                Page::General => "Graphics, startup and behaviour."@,
                Page::Log => "What Wayfinder has been doing, and anything that went wrong."@,
            },
    {
        match self {
            Page::Widgets => "Pick a widget to configure it. Changes show on your desktop right away.",
            Page::Appearance => "Colours, fonts and icons — applied to every widget at once.",
            Page::Plugins => "Widgets, palettes, fonts and icons made by others.",
            Page::General => "Graphics, startup and behaviour.",
            Page::Log => "What Wayfinder has been doing, and anything that went wrong.",
        }
    }

    /// The glyph on its tab.
    pub fn glyph(self) -> (r: &'static str)
        ensures
            r@ == match self {
                Page::Widgets => "widgets"@,
                Page::Appearance => "palette"@,
                Page::Plugins => "plugin"@,
                Page::General => "sliders"@,
                Page::Log => "list"@,
            },
    {
        match self {
            Page::Widgets => "widgets",
            Page::Appearance => "palette",
            Page::Plugins => "plugin",
            Page::General => "sliders",
            Page::Log => "list",
        }
    }

    /// The page with id `s`; the Widgets page for an unknown id.
    pub fn parse(s: &str) -> (r: Page)
        ensures
            r == page_named(s@),
    {
        if str_eq(s, "widgets") {
            Page::Widgets
        } else if str_eq(s, "appearance") {
            Page::Appearance
        } else if str_eq(s, "plugins") {
            Page::Plugins
        } else if str_eq(s, "general") {
            Page::General
        } else if str_eq(s, "log") {
            Page::Log
        } else {
            Page::Widgets
        }
    }
}

/// A page is found again by its id.
pub proof fn lemma_page_id_round_trip(p: Page)
    ensures
        page_named(page_id(p)) == p,
{
    reveal_strlit("widgets");
    reveal_strlit("appearance");
    reveal_strlit("plugins");
    reveal_strlit("general");
    reveal_strlit("log");
    assert("widgets"@[0] != "appearance"@[0]);
    assert("widgets"@[0] != "plugins"@[0]);
    assert("widgets"@[0] != "general"@[0]);
    assert("appearance"@[0] != "plugins"@[0]);
    assert("appearance"@[0] != "general"@[0]);
    assert("plugins"@[0] != "general"@[0]);
    assert("log"@.len() != "widgets"@.len());
    assert("log"@.len() != "appearance"@.len());
    assert("log"@.len() != "plugins"@.len());
    assert("log"@.len() != "general"@.len());
}


/// The UTF-8 bytes of `s`.
pub open spec fn utf8(s: Seq<char>) -> Seq<u8> {
    encode_utf8(s)
}

/// The UTF-8 bytes of two strings one after the other are those of both strings.
pub proof fn lemma_utf8_concat(x: Seq<char>, y: Seq<char>)
    ensures
        utf8(x + y) == utf8(x) + utf8(y),
    decreases x.len(),
{
    if x.len() == 0 {
        assert(x + y =~= y);
        assert(utf8(x) + utf8(y) =~= utf8(y));
    } else {
        lemma_utf8_concat(x.drop_first(), y);
        assert((x + y).drop_first() =~= x.drop_first() + y);
        assert((x + y)[0] == x[0]);
        assert(utf8(x + y) =~= utf8(x) + utf8(y));
    }
}

/// Two texts with the same UTF-8 bytes are the same text.
pub proof fn lemma_utf8_injective(x: Seq<char>, y: Seq<char>)
    requires
        utf8(x) == utf8(y),
    ensures
        x == y,
{
    vstd::utf8::encode_utf8_decode_utf8(x);
    vstd::utf8::encode_utf8_decode_utf8(y);
}

/// `i` kept within `len`.
pub open spec fn clamped(i: int, len: int) -> int {
    if i < len {
        i
    } else {
        len
    }
}

/// The char boundary before byte `i` (kept within `s`): the start of the char that ends
/// there, or 0 at the start.
pub fn prev_boundary(s: &str, i: usize) -> (r: usize)
    requires
        utf8(s@).len() <= usize::MAX,
        is_char_boundary(utf8(s@), clamped(i as int, utf8(s@).len() as int)),
    ensures
        ({
            let b = utf8(s@);
            let n = clamped(i as int, b.len() as int);
            &&& n == 0 ==> r == 0
            &&& n > 0 ==> r < n && is_char_boundary(b, r as int) && forall|j: int|
                r < j < n ==> !#[trigger] is_char_boundary(b, j)
        }),
{
    let len = s.len();
    let n = if i < len {
        i
    } else {
        len
    };
    if n == 0 {
        return 0;
    }
    let ghost b = utf8(s@);
    let mut j = n - 1;
    while j > 0 && !s.is_char_boundary(j)
        invariant
            j < n <= b.len(),
            b == utf8(s@),
            forall|k: int| j < k < n ==> !#[trigger] is_char_boundary(b, k),
        decreases j,
    {
        j -= 1;
    }
    proof {
        if j == 0 {
            assert(is_char_boundary(b, 0));
        }
    }
    j
}

/// The char boundary after byte `i` (kept within `s`): the end of the char that starts
/// there, or the end of `s`.
pub fn next_boundary(s: &str, i: usize) -> (r: usize)
    requires
        utf8(s@).len() <= usize::MAX,
        is_char_boundary(utf8(s@), clamped(i as int, utf8(s@).len() as int)),
    ensures
        ({
            let b = utf8(s@);
            let n = clamped(i as int, b.len() as int);
            &&& n == b.len() ==> r == b.len()
            &&& n < b.len() ==> n < r <= b.len() && is_char_boundary(b, r as int) && forall|j: int|
                n < j < r ==> !#[trigger] is_char_boundary(b, j)
        }),
{
    let len = s.len();
    if i >= len {
        return len;
    }
    let ghost b = utf8(s@);
    let mut j = i + 1;
    while j < len && !s.is_char_boundary(j)
        invariant
            i < j <= len,
            len == b.len(),
            b == utf8(s@),
            forall|k: int| i < k < j ==> !#[trigger] is_char_boundary(b, k),
        decreases len - j,
    {
        j += 1;
    }
    proof {
        if j == len {
            assert(is_char_boundary(b, b.len() as int));
        }
    }
    j
}

/// Puts `t` into `s` at byte `caret` (kept within `s`); returns the byte after it.
pub fn insert_at(s: &mut String, caret: usize, t: &str) -> (r: usize)
    requires
        utf8(old(s)@).len() <= usize::MAX,
        is_char_boundary(utf8(old(s)@), clamped(caret as int, utf8(old(s)@).len() as int)),
        clamped(caret as int, utf8(old(s)@).len() as int) + utf8(t@).len() <= usize::MAX,
    ensures
        ({
            let b = utf8(old(s)@);
            let c = clamped(caret as int, b.len() as int);
            &&& utf8(final(s)@) == b.take(c) + utf8(t@) + b.skip(c)
            &&& r == c + utf8(t@).len()
        }),
{
    let st = s.as_str();
    let len = st.len();
    let c = if caret < len {
        caret
    } else {
        len
    };
    let (a, z) = st.split_at(c);
    let joined = concat3(a, t, z);
    proof {
        lemma_utf8_concat(a@ + t@, z@);
        lemma_utf8_concat(a@, t@);
        assert(utf8(joined@) == utf8(a@) + utf8(t@) + utf8(z@));
        assert(utf8(a@) =~= utf8(old(s)@).take(c as int));
        assert(utf8(z@) =~= utf8(old(s)@).skip(c as int));
    }
    let r = c + t.len();
    *s = joined;
    r
}


/// `s` with its first char upper-cased.
pub open spec fn capital(s: Seq<char>) -> Seq<char> {
    if s.len() == 0 {
        Seq::empty()
    } else {
        char_upper(s[0]) + s.drop_first()
    }
}

/// `s` with its first char upper-cased.
pub fn capitalized(s: &str) -> (r: String)
    ensures
        r@ == capital(s@),
{
    let cs = chars_of(s);
    if cs.len() == 0 {
        return String::new();
    }
    let first = upper_char(cs[0]);
    let rest = string_of_range(&cs, 1, cs.len());
    assert(rest@ =~= s@.drop_first());
    concat(first.as_str(), rest.as_str())
}

/// How the adapter's device type reads in Settings.
pub open spec fn device_label(d: Seq<char>) -> Seq<char> {
    if d == "Cpu"@ {
        "CPU"@
    } else if d == "IntegratedGpu"@ {
        "Integrated GPU"@
    } else if d == "DiscreteGpu"@ {
        "Dedicated GPU"@
    } else {
        d
    }
}

/// What follows `present ` in the parts that start with it, in order.
pub open spec fn present_modes(ps: Seq<Seq<char>>) -> Seq<Seq<char>>
    decreases ps.len(),
{
    if ps.len() == 0 {
        Seq::empty()
    } else {
        let r = present_modes(ps.drop_last());
        if has_prefix(ps.last(), "present "@) {
            r.push(ps.last().skip(8))
        } else {
            r
        }
    }
}

/// The adapter line as Settings shows it, from `name / backend / device / ... / present
/// mode`: the name, the backend upper-cased, the device type in words, and the present
/// modes.
pub open spec fn gpu_view(info: Seq<char>) -> Seq<Seq<char>> {
    let ps = split_by(info, " / "@);
    ps.take(1) + (if ps.len() > 1 {
        seq![uppercase(ps[1])]
    } else {
        Seq::empty()
    }) + (if ps.len() > 2 {
        seq![device_label(ps[2])]
    } else {
        Seq::empty()
    }) + present_modes(ps)
}

fn device_text(d: &str) -> (r: String)
    ensures
        r@ == device_label(d@),
{
    if str_eq(d, "Cpu") {
        String::from_str("CPU")
    } else if str_eq(d, "IntegratedGpu") {
        String::from_str("Integrated GPU")
    } else if str_eq(d, "DiscreteGpu") {
        String::from_str("Dedicated GPU")
    } else {
        String::from_str(d)
    }
}

/// The adapter line as Settings shows it.
pub fn gpu_parts(info: &str) -> (r: Vec<String>)
    ensures
        r@.map_values(|x: String| x@) == gpu_view(info@),
{
    proof {
        reveal_strlit(" / ");
        reveal_strlit("present ");
    }
    let parts = split_str(info, " / ");
    let ghost ps = parts@.map_values(|x: String| x@);
    let mut out: Vec<String> = Vec::new();
    if parts.len() > 0 {
        out.push(parts[0].clone());
    }
    if parts.len() > 1 {
        out.push(to_uppercase(parts[1].as_str()));
    }
    if parts.len() > 2 {
        out.push(device_text(parts[2].as_str()));
    }
    let ghost head = out@.map_values(|x: String| x@);
    proof {
        assert(head =~= ps.take(1) + (if ps.len() > 1 {
            seq![uppercase(ps[1])]
        } else {
            Seq::empty()
        }) + (if ps.len() > 2 {
            seq![device_label(ps[2])]
        } else {
            Seq::empty()
        }));
    }
    let mut i: usize = 0;
    while i < parts.len()
        invariant
            i <= parts.len(),
            ps == parts@.map_values(|x: String| x@),
            out@.map_values(|x: String| x@) == head + present_modes(ps.take(i as int)),
        decreases parts.len() - i,
    {
        let p = &parts[i];
        proof {
            reveal_strlit("present ");
            assert(ps.take(i + 1).drop_last() =~= ps.take(i as int));
            assert(ps.take(i + 1).last() == p@);
        }
        if starts_with(p.as_str(), "present ") {
            let cs = chars_of(p.as_str());
            let mode = string_of_range(&cs, 8, cs.len());
            assert(mode@ =~= p@.skip(8));
            let ghost before = out@.map_values(|x: String| x@);
            out.push(mode);
            assert(out@.map_values(|x: String| x@) =~= before.push(p@.skip(8)));
        }
        i += 1;
    }
    assert(ps.take(ps.len() as int) =~= ps);
    out
}


/// The level a `lvl:` action names by its id.
pub open spec fn level_named(s: Seq<char>) -> Option<Level> {
    if s == "info"@ {
        Some(Level::Info)
    } else if s == "warning"@ {
        Some(Level::Warning)
    } else if s == "error"@ {
        Some(Level::Error)
    } else {
        None
    }
}

impl Level {
    /// The level whose id `s` is, if any.
    pub fn parse(s: &str) -> (r: Option<Level>)
        ensures
            r == level_named(s@),
    {
        if str_eq(s, "info") {
            Some(Level::Info)
        } else if str_eq(s, "warning") {
            Some(Level::Warning)
        } else if str_eq(s, "error") {
            Some(Level::Error)
        } else {
            None
        }
    }
}

/// `t` occurs in `s`.
pub open spec fn contains_text(s: Seq<char>, t: Seq<char>) -> bool {
    find_from(s, t, 0) >= 0
}

/// A log line the Log page shows: of the level picked (any when none is), and holding the
/// search in its text or its source, ignoring case.
pub open spec fn shown(line: LogLine, level: Option<Level>, query: Seq<char>) -> bool {
    let q = lowercase(query);
    &&& (level matches Some(l) ==> line.level == l)
    &&& (q.len() == 0 || contains_text(lowercase(line.text@), q) || contains_text(lowercase(line.source@), q))
}

/// The lines the Log page shows, by index, in order.
pub open spec fn shown_rows(log: Seq<LogLine>, level: Option<Level>, query: Seq<char>) -> Seq<usize>
    decreases log.len(),
{
    if log.len() == 0 {
        Seq::empty()
    } else {
        let r = shown_rows(log.drop_last(), level, query);
        if shown(log.last(), level, query) {
            r.push((log.len() - 1) as usize)
        } else {
            r
        }
    }
}

/// Whether the Log page shows `line` for the level picked and the search typed.
pub fn log_shows(line: &LogLine, level: Option<Level>, query: &str) -> (r: bool)
    ensures
        r == shown(*line, level, query@),
{
    if let Some(l) = level {
        if line.level != l {
            return false;
        }
    }
    let q = to_lowercase(query);
    if q.as_str().is_empty() {
        return true;
    }
    find_str(to_lowercase(line.text.as_str()).as_str(), q.as_str()).is_some() || find_str(
        to_lowercase(line.source.as_str()).as_str(),
        q.as_str(),
    ).is_some()
}

/// The lines the Log page shows, by index, in order.
pub fn log_rows(log: &[LogLine], level: Option<Level>, query: &str) -> (r: Vec<usize>)
    ensures
        r@ == shown_rows(log@, level, query@),
{
    let mut r: Vec<usize> = Vec::new();
    let mut i: usize = 0;
    while i < log.len()
        invariant
            i <= log.len(),
            r@ == shown_rows(log@.take(i as int), level, query@),
        decreases log.len() - i,
    {
        proof {
            assert(log@.take(i + 1).drop_last() =~= log@.take(i as int));
        }
        if log_shows(&log[i], level, query) {
            r.push(i);
        }
        i += 1;
    }
    assert(log@.take(log.len() as int) =~= log@);
    r
}

/// A dropdown with more items than this opens with a search field.
pub const SEARCH_FROM: usize = 12;

/// Dropdown items (value, label) by their chars.
pub open spec fn items_view(items: Seq<(String, String)>) -> Seq<(Seq<char>, Seq<char>)> {
    items.map_values(|p: (String, String)| (p.0@, p.1@))
}

/// How many lines of `log` are of `level` (all of them when none is picked): the count
/// beside each of the Log page's level filters.
pub open spec fn level_count(log: Seq<LogLine>, level: Option<Level>) -> nat
    decreases log.len(),
{
    if log.len() == 0 {
        0
    } else {
        level_count(log.drop_last(), level) + if (level matches Some(l) ==> log.last().level == l) {
            1nat
        } else {
            0nat
        }
    }
}

/// See `level_count`.
pub fn count_at_level(log: &[LogLine], level: Option<Level>) -> (n: usize)
    ensures
        n == level_count(log@, level),
{
    let mut n: usize = 0;
    let mut i: usize = 0;
    while i < log.len()
        invariant
            i <= log.len(),
            n == level_count(log@.take(i as int), level),
            n <= i,
        decreases log.len() - i,
    {
        proof {
            assert(log@.take(i + 1).drop_last() =~= log@.take(i as int));
            assert(log@.take(i + 1).last() == log@[i as int]);
        }
        let hit = match level {
            Some(l) => log[i].level == l,
            None => true,
        };
        if hit {
            n += 1;
        }
        i += 1;
    }
    assert(log@.take(log.len() as int) =~= log@);
    n
}

/// How many of the lines it shows the Log page lists at most: the latest ones; the log
/// file keeps the rest.
pub const LOG_PAGE_ROWS: usize = 200;

/// The lines the Log page lists: the last `LOG_PAGE_ROWS` of those it shows.
pub open spec fn page_rows(log: Seq<LogLine>, level: Option<Level>, query: Seq<char>) -> Seq<usize> {
    let r = shown_rows(log, level, query);
    if r.len() > LOG_PAGE_ROWS {
        r.skip(r.len() - LOG_PAGE_ROWS)
    } else {
        r
    }
}

/// See `page_rows`.
pub fn log_page_rows(log: &[LogLine], level: Option<Level>, query: &str) -> (r: Vec<usize>)
    ensures
        r@ == page_rows(log@, level, query@),
{
    let all = log_rows(log, level, query);
    let from: usize = if all.len() > LOG_PAGE_ROWS {
        all.len() - LOG_PAGE_ROWS
    } else {
        0
    };
    let mut r: Vec<usize> = Vec::new();
    let mut i = from;
    while i < all.len()
        invariant
            from <= i <= all.len(),
            r@ == all@.subrange(from as int, i as int),
        decreases all.len() - i,
    {
        r.push(all[i]);
        i += 1;
        assert(r@ =~= all@.subrange(from as int, i as int));
    }
    assert(all@.subrange(from as int, all.len() as int) =~= all@.skip(from as int));
    r
}

/// What the Log page says in place of rows when it lists none: nothing logged yet, or
/// nothing that matches.
pub fn log_empty_note(log_len: usize, listed: usize) -> (r: Option<&'static str>)
    ensures
        listed > 0 ==> r is None,
        listed == 0 && log_len == 0 ==> (r matches Some(t) && t@ == "Nothing yet."@),
        listed == 0 && log_len > 0 ==> (r matches Some(t) && t@ == "Nothing matches."@),
{
    if listed > 0 {
        None
    } else if log_len == 0 {
        Some("Nothing yet.")
    } else {
        Some("Nothing matches.")
    }
}

/// `s` followed by spaces up to `w` chars, as `{:<w}` writes it.
pub open spec fn padded(s: Seq<char>, w: nat) -> Seq<char> {
    if s.len() >= w {
        s
    } else {
        s + Seq::new((w - s.len()) as nat, |i: int| ' ')
    }
}

/// A log line as the Log page copies it: the time, the level and the source in columns
/// of seven and eight chars, then the text, a space between each.
pub open spec fn copied_line(l: LogLine) -> Seq<char> {
    l.time@ + " "@ + padded(level_label(l.level), 7) + " "@ + padded(l.source@, 8) + " "@ + l.text@
}

/// The lines the Log page shows, as copied, in order.
pub open spec fn copied_lines(log: Seq<LogLine>, level: Option<Level>, query: Seq<char>) -> Seq<Seq<char>>
    decreases log.len(),
{
    if log.len() == 0 {
        Seq::empty()
    } else {
        let r = copied_lines(log.drop_last(), level, query);
        if shown(log.last(), level, query) {
            r.push(copied_line(log.last()))
        } else {
            r
        }
    }
}

/// See `padded`.
fn pad(s: &str, w: usize) -> (r: String)
    ensures
        r@ == padded(s@, w as nat),
{
    let n = chars_of(s).len();
    let mut r = String::from_str(s);
    if n >= w {
        return r;
    }
    let mut k: usize = n;
    while k < w
        invariant
            n <= k <= w,
            n == s@.len(),
            r@ == s@ + Seq::new((k - n) as nat, |i: int| ' '),
        decreases w - k,
    {
        push_char(&mut r, ' ');
        k += 1;
        assert(r@ =~= s@ + Seq::new((k - n) as nat, |i: int| ' '));
    }
    r
}

/// See `copied_line`.
fn copy_line(l: &LogLine) -> (r: String)
    ensures
        r@ == copied_line(*l),
{
    let mut r = concat(l.time.as_str(), " ");
    r = concat(r.as_str(), pad(l.level.label(), 7).as_str());
    r = concat(r.as_str(), " ");
    r = concat(r.as_str(), pad(l.source.as_str(), 8).as_str());
    r = concat(r.as_str(), " ");
    r = concat(r.as_str(), l.text.as_str());
    r
}

/// What Copy on the Log page puts on the clipboard: the lines it shows, as copied, with
/// `\r\n` between them.
pub fn log_copy(log: &[LogLine], level: Option<Level>, query: &str) -> (r: String)
    ensures
        r@ == crate::plugins::joined_by(copied_lines(log@, level, query@), "\r\n"@),
{
    let mut lines: Vec<String> = Vec::new();
    let mut i: usize = 0;
    while i < log.len()
        invariant
            i <= log.len(),
            strings_view(lines@) == copied_lines(log@.take(i as int), level, query@),
        decreases log.len() - i,
    {
        proof {
            assert(log@.take(i + 1).drop_last() =~= log@.take(i as int));
            assert(log@.take(i + 1).last() == log@[i as int]);
        }
        if log_shows(&log[i], level, query) {
            let ghost before = strings_view(lines@);
            lines.push(copy_line(&log[i]));
            assert(strings_view(lines@) =~= before.push(copied_line(log@[i as int])));
        }
        i += 1;
    }
    assert(log@.take(log.len() as int) =~= log@);
    crate::plugins::join_by(&lines, "\r\n")
}

/// The items whose label holds `q`, ignoring case, in order.
pub open spec fn matching_items(items: Seq<(Seq<char>, Seq<char>)>, q: Seq<char>) -> Seq<(Seq<char>, Seq<char>)>
    decreases items.len(),
{
    if items.len() == 0 {
        Seq::empty()
    } else {
        let r = matching_items(items.drop_last(), q);
        if contains_text(lowercase(items.last().1), q) {
            r.push(items.last())
        } else {
            r
        }
    }
}

/// What an open dropdown lists: every item, or, when it is long enough to have a search
/// and the search holds text, the items whose label holds that text, ignoring case.
pub open spec fn dropdown_list(items: Seq<(Seq<char>, Seq<char>)>, query: Seq<char>) -> Seq<(Seq<char>, Seq<char>)> {
    let q = lowercase(query);
    if items.len() <= SEARCH_FROM || q.len() == 0 {
        items
    } else {
        matching_items(items, q)
    }
}

/// The items an open dropdown lists for the search `query`: see `dropdown_list`.
pub fn dropdown_shown(items: &Vec<(String, String)>, query: &str) -> (r: Vec<(String, String)>)
    ensures
        items_view(r@) == dropdown_list(items_view(items@), query@),
{
    let q = to_lowercase(query);
    let all = items.len() <= SEARCH_FROM || q.as_str().is_empty();
    let mut r: Vec<(String, String)> = Vec::new();
    let mut i: usize = 0;
    while i < items.len()
        invariant
            i <= items.len(),
            q@ == lowercase(query@),
            all ==> items_view(r@) == items_view(items@).take(i as int),
            !all ==> items_view(r@) == matching_items(items_view(items@).take(i as int), q@),
        decreases items.len() - i,
    {
        let ghost before = items_view(items@).take(i as int);
        let ghost after = items_view(items@).take(i + 1);
        assert(after.drop_last() =~= before);
        let keep = all || find_str(to_lowercase(items[i].1.as_str()).as_str(), q.as_str()).is_some();
        if keep {
            r.push((items[i].0.clone(), items[i].1.clone()));
        }
        assert(items_view(r@) =~= (if all {
            after
        } else {
            matching_items(after, q@)
        }));
        i += 1;
    }
    assert(items_view(items@).take(items.len() as int) =~= items_view(items@));
    r
}

/// A colour role of the settings window's palette.
#[derive(Clone, Copy, Debug, PartialEq, Eq, Structural)]
pub enum Tone {
    /// The light blue of information.
    Info,
    Dim,
    Warn,
    Accent,
    Danger,
}

/// The colour of a log level.
pub fn level_tone(l: Level) -> (r: Tone)
    ensures
        r == match l {
            Level::Info => Tone::Info,
            Level::Warning => Tone::Warn,
            Level::Error => Tone::Danger,
        },
{
    match l {
        Level::Info => Tone::Info,
        Level::Warning => Tone::Warn,
        Level::Error => Tone::Danger,
    }
}

/// A Code Source's state on its Plugin's card, and its colour: off with its Plugin, not
/// running, starting, running, or its status as an error.
pub open spec fn code_state(plugin_on: bool, runs: bool, status: Seq<char>) -> (Seq<char>, Tone) {
    if !plugin_on {
        ("Off"@, Tone::Dim)
    } else if !runs {
        ("Not running"@, Tone::Dim)
    } else if status.len() == 0 || status == "Starting"@ {
        ("Starting\u{2026}"@, Tone::Warn)
    } else if status == "Running"@ {
        ("Running"@, Tone::Accent)
    } else {
        (status, Tone::Danger)
    }
}

/// See `code_state`.
pub fn code_status(plugin_on: bool, runs: bool, status: &str) -> (r: (String, Tone))
    ensures
        (r.0@, r.1) == code_state(plugin_on, runs, status@),
{
    if !plugin_on {
        (String::from_str("Off"), Tone::Dim)
    } else if !runs {
        (String::from_str("Not running"), Tone::Dim)
    } else if status.is_empty() || str_eq(status, "Starting") {
        (String::from_str("Starting\u{2026}"), Tone::Warn)
    } else if str_eq(status, "Running") {
        (String::from_str("Running"), Tone::Accent)
    } else {
        (String::from_str(status), Tone::Danger)
    }
}

/// Plugin row `r` is the only provider of Widget `widget`.
pub open spec fn provides(r: PluginRow, widget: Seq<char>) -> bool {
    exists|i: int| 0 <= i < r.sole_widgets@.len() && (#[trigger] r.sole_widgets@[i])@ == widget
}

/// The first of `rows` that alone provides `widget`, or -1.
pub open spec fn badge_row(rows: Seq<PluginRow>, widget: Seq<char>) -> int
    decreases rows.len(),
{
    if rows.len() == 0 {
        -1
    } else {
        let k = badge_row(rows.drop_last(), widget);
        if k >= 0 {
            k
        } else if provides(rows.last(), widget) {
            rows.len() - 1
        } else {
            -1
        }
    }
}

proof fn lemma_badge_row(rows: Seq<PluginRow>, widget: Seq<char>)
    ensures
        -1 <= badge_row(rows, widget) < rows.len(),
        badge_row(rows, widget) >= 0 ==> provides(rows[badge_row(rows, widget)], widget),
        forall|j: int|
            0 <= j < rows.len() && (badge_row(rows, widget) == -1 || j < badge_row(rows, widget)) ==> !provides(
                #[trigger] rows[j],
                widget,
            ),
    decreases rows.len(),
{
    if rows.len() > 0 {
        let p = rows.drop_last();
        lemma_badge_row(p, widget);
        assert forall|j: int|
            0 <= j < rows.len() && (badge_row(rows, widget) == -1 || j < badge_row(rows, widget)) implies !provides(
            #[trigger] rows[j],
            widget,
        ) by {
            if j < p.len() {
                assert(p[j] == rows[j]);
            }
        }
    }
}

/// `s` without a leading `p`, if it has one.
pub open spec fn without_prefix(s: Seq<char>, p: Seq<char>) -> Seq<char> {
    if has_prefix(s, p) {
        s.skip(p.len() as int)
    } else {
        s
    }
}

fn provides_widget(r: &PluginRow, widget: &str) -> (b: bool)
    ensures
        b == provides(*r, widget@),
{
    let mut i: usize = 0;
    while i < r.sole_widgets.len()
        invariant
            i <= r.sole_widgets.len(),
            forall|j: int| 0 <= j < i ==> (#[trigger] r.sole_widgets@[j])@ != widget@,
        decreases r.sole_widgets.len() - i,
    {
        if str_eq(r.sole_widgets[i].as_str(), widget) {
            return true;
        }
        i += 1;
    }
    false
}

/// The badge on a Widget that a Plugin alone provides: the first such Plugin's name,
/// without a leading `Wayfinder `.
pub fn plugin_badge(rows: &Vec<PluginRow>, widget: &str) -> (r: Option<String>)
    ensures
        match r {
            Some(b) => badge_row(rows@, widget@) >= 0 && b@ == without_prefix(
                rows@[badge_row(rows@, widget@)].name@,
                "Wayfinder "@,
            ),
            None => badge_row(rows@, widget@) == -1,
        },
{
    proof {
        lemma_badge_row(rows@, widget@);
        reveal_strlit("Wayfinder ");
    }
    let mut i: usize = 0;
    while i < rows.len()
        invariant
            i <= rows.len(),
            forall|j: int| 0 <= j < i ==> !provides(#[trigger] rows@[j], widget@),
        decreases rows.len() - i,
    {
        if provides_widget(&rows[i], widget) {
            proof {
                lemma_badge_row(rows@, widget@);
                let k = badge_row(rows@, widget@);
                if k >= 0 && k < i {
                    assert(provides(rows@[k], widget@));
                }
            }
            let name = rows[i].name.as_str();
            proof {
                reveal_strlit("Wayfinder ");
            }
            if starts_with(name, "Wayfinder ") {
                return Some(after(name, 10));
            }
            return Some(String::from_str(name));
        }
        i += 1;
    }
    proof {
        let k = badge_row(rows@, widget@);
        if k >= 0 {
            assert(provides(rows@[k], widget@));
        }
    }
    None
}

/// One part of a layout list names Module item `id`: the item itself, its Module (the
/// part of `id` before a `:`), or, ending in `*`, every id that starts with the rest.
pub open spec fn part_names(p: Seq<char>, id: Seq<char>) -> bool {
    p == id || crate::modules::entry_module(id) == p || (has_suffix(p, "*"@) && has_prefix(id, p.drop_last()))
}

/// A comma-separated list names Module item `id`: one of its parts, trimmed, does.
pub open spec fn list_names(list: Seq<char>, id: Seq<char>) -> bool {
    exists|k: int| 0 <= k < split_by(list, ","@).len() && part_names(trimmed(#[trigger] split_by(list, ","@)[k]), id)
}

/// Whether the comma-separated `list` names Module item `id`: see `list_names`.
pub fn names_module(list: &str, id: &str) -> (r: bool)
    ensures
        r == list_names(list@, id@),
{
    proof {
        reveal_strlit(",");
        reveal_strlit("*");
    }
    let parts = split_str(list, ",");
    let module = match split_at_char(id, ':') {
        Some((m, _)) => m,
        None => String::from_str(id),
    };
    let mut k: usize = 0;
    while k < parts.len()
        invariant
            k <= parts.len(),
            parts@.map_values(|x: String| x@) == split_by(list@, ","@),
            module@ == crate::modules::entry_module(id@),
            forall|j: int| 0 <= j < k ==> !part_names(trimmed(#[trigger] split_by(list@, ","@)[j]), id@),
        decreases parts.len() - k,
    {
        assert(split_by(list@, ","@)[k as int] == parts@[k as int]@);
        let p = trim(parts[k].as_str());
        let ps = p.as_str();
        let mut hit = str_eq(ps, id) || str_eq(module.as_str(), ps);
        if !hit && ends_with(ps, "*") {
            proof {
                reveal_strlit("*");
            }
            let cs = chars_of(ps);
            let stem = string_of_range(&cs, 0, cs.len() - 1);
            assert(stem@ =~= p@.drop_last());
            hit = starts_with(id, stem.as_str());
        }
        if hit {
            return true;
        }
        k += 1;
    }
    false
}

/// What a confirmed removal removes.
#[derive(Debug, Clone, PartialEq)]
pub enum Removal {
    /// An Instance, by id.
    Widget(String),
    /// A Plugin, by id.
    Plugin(String),
}

/// Removing needs a second click on the same thing: the first only arms it, and any
/// other action disarms it.
pub struct Confirm {
    armed: Option<String>,
}

/// An action split at its first `:` into verb and rest (no rest when there is no `:`).
pub open spec fn action_parts(a: Seq<char>) -> (Seq<char>, Seq<char>) {
    let k = crate::strs::first_index(a, ':');
    if k < 0 {
        (a, Seq::empty())
    } else {
        (a.take(k), a.skip(k + 1))
    }
}

/// What a removal action arms: the Instance id, or `plugin/` and the Plugin id.
pub open spec fn armed_key(verb: Seq<char>, rest: Seq<char>) -> Seq<char> {
    if verb == "prm"@ {
        "plugin/"@ + rest
    } else {
        rest
    }
}

/// A removal action: `del:` or `prm:`.
pub open spec fn removal_action(action: Seq<char>) -> bool {
    let (verb, rest) = action_parts(action);
    verb == "del"@ || verb == "prm"@
}

/// `action` is the second click on what `armed` waits for, so it removes.
pub open spec fn confirms(armed: Option<Seq<char>>, action: Seq<char>) -> bool {
    let (verb, rest) = action_parts(action);
    removal_action(action) && armed == Some(armed_key(verb, rest))
}

/// What is armed after `action`: a removal that does not confirm arms itself; anything
/// else leaves nothing armed.
pub open spec fn armed_after(armed: Option<Seq<char>>, action: Seq<char>) -> Option<Seq<char>> {
    let (verb, rest) = action_parts(action);
    if removal_action(action) && !confirms(armed, action) {
        Some(armed_key(verb, rest))
    } else {
        None
    }
}

/// A removal takes a second click in a row on the same thing: a click that does not
/// remove arms it, so the same click next removes; a confirmed removal leaves nothing
/// armed; and any other action in between disarms it.
pub proof fn lemma_second_click_confirms(armed: Option<Seq<char>>, action: Seq<char>, other: Seq<char>)
    requires
        removal_action(action),
    ensures
        !confirms(armed, action) ==> confirms(armed_after(armed, action), action),
        confirms(armed, action) ==> armed_after(armed, action) is None,
        !removal_action(other) ==> !confirms(armed_after(armed_after(armed, action), other), action),
{
}

/// What a removal action arms: its removal key.
pub open spec fn removal_key(action: Seq<char>) -> Seq<char> {
    armed_key(action_parts(action).0, action_parts(action).1)
}

/// A removal removes exactly when the action just before it was a removal of the same
/// thing that did not remove (it armed it); whatever came earlier does not count.
pub proof fn lemma_removal_needs_the_same_click_just_before(armed: Option<Seq<char>>, prev: Seq<char>, action: Seq<char>)
    requires
        removal_action(action),
    ensures
        confirms(armed_after(armed, prev), action) <==> (removal_action(prev) && !confirms(armed, prev)
            && removal_key(prev) == removal_key(action)),
{
}

impl Confirm {
    /// What the next click on it would confirm.
    pub closed spec fn armed_key(&self) -> Option<Seq<char>> {
        match self.armed {
            Some(k) => Some(k@),
            None => None,
        }
    }

    /// Nothing armed.
    pub fn new() -> (r: Confirm)
        ensures
            r.armed_key() is None,
    {
        Confirm { armed: None }
    }

    /// Takes an action (`del:<instance>`, `prm:<plugin>`, or any other): returns what it
    /// removes, when it is the second click in a row on the same thing.
    pub fn act(&mut self, action: &str) -> (r: Option<Removal>)
        ensures
            ({
                let (verb, rest) = action_parts(action@);
                let removing = verb == "del"@ || verb == "prm"@;
                let key = armed_key(verb, rest);
                &&& !removing ==> r is None && final(self).armed_key() is None
                &&& removing && old(self).armed_key() == Some(key) ==> final(self).armed_key() is None && match r {
                    Some(Removal::Widget(id)) => verb == "del"@ && id@ == rest,
                    Some(Removal::Plugin(id)) => verb == "prm"@ && id@ == rest,
                    None => false,
                }
                &&& removing && old(self).armed_key() != Some(key) ==> r is None && final(self).armed_key() == Some(key)
            }),
            final(self).armed_key() == armed_after(old(self).armed_key(), action@),
            r is Some <==> confirms(old(self).armed_key(), action@),
    {
        let cs = chars_of(action);
        let mut k: usize = 0;
        while k < cs.len() && cs[k] != ':'
            invariant
                k <= cs.len(),
                forall|j: int| 0 <= j < k ==> cs@[j] != ':',
            decreases cs.len() - k,
        {
            k += 1;
        }
        proof {
            crate::strs::lemma_first_index_at(cs@, ':', k as int);
        }
        let (verb, rest) = if k == cs.len() {
            (string_of_range(&cs, 0, cs.len()), String::new())
        } else {
            (string_of_range(&cs, 0, k), string_of_range(&cs, k + 1, cs.len()))
        };
        proof {
            if k == cs.len() {
                assert(verb@ =~= action@);
            } else {
                assert(verb@ =~= action@.take(k as int));
                assert(rest@ =~= action@.skip(k + 1));
            }
        }
        let is_del = str_eq(verb.as_str(), "del");
        let is_prm = str_eq(verb.as_str(), "prm");
        if !is_del && !is_prm {
            self.armed = None;
            return None;
        }
        let key = if is_prm {
            concat("plugin/", rest.as_str())
        } else {
            String::from_str(rest.as_str())
        };
        let same = match &self.armed {
            Some(a) => str_eq(a.as_str(), key.as_str()),
            None => false,
        };
        if same {
            self.armed = None;
            if is_del {
                Some(Removal::Widget(rest))
            } else {
                Some(Removal::Plugin(rest))
            }
        } else {
            self.armed = Some(key);
            None
        }
    }
}


/// A control char (Unicode general category Cc), which typing never inserts.
pub open spec fn is_control(c: char) -> bool {
    c <= '\u{1f}' || ('\u{7f}' <= c && c <= '\u{9f}')
}

/// `char::is_control`.
pub fn control(c: char) -> (r: bool)
    ensures
        r == is_control(c),
{
    c <= '\u{1f}' || ('\u{7f}' <= c && c <= '\u{9f}')
}

/// Whether `t` holds a control char.
pub fn has_control(t: &str) -> (r: bool)
    ensures
        r == exists|i: int| 0 <= i < t@.len() && is_control(#[trigger] t@[i]),
{
    let cs = chars_of(t);
    let mut i: usize = 0;
    while i < cs.len()
        invariant
            i <= cs.len(),
            cs@ == t@,
            forall|j: int| 0 <= j < i ==> !is_control(#[trigger] t@[j]),
        decreases cs.len() - i,
    {
        if control(cs[i]) {
            assert(is_control(t@[i as int]));
            return true;
        }
        i += 1;
    }
    false
}

/// What a key does to a focused text field.
pub enum EditKey {
    Backspace,
    Delete,
    Left,
    Right,
    Home,
    End,
    /// Ctrl+V, with the clipboard's text if it has any.
    Paste(Option<String>),
    /// Ctrl+X: the text goes to the clipboard and the field empties.
    Cut,
    /// Ctrl+C: the text goes to the clipboard.
    Copy,
    /// Typed text.
    Type(String),
}

/// What a key does to a field with UTF-8 bytes `b` and the caret at `at`: it leaves bytes
/// `nb` and the caret at `na`, and `changed` says whether the text changed.
pub open spec fn edits_to(b: Seq<u8>, at: int, key: EditKey, nb: Seq<u8>, na: int, changed: bool) -> bool {
    &&& (key is Backspace ==> if at > 0 {
        &&& changed
        &&& na < at && is_char_boundary(b, na)
        &&& forall|j: int| na < j < at ==> !#[trigger] is_char_boundary(b, j)
        &&& nb == b.take(na) + b.skip(at)
    } else {
        !changed && nb == b && na == at
    })
    &&& (key is Delete ==> if at < b.len() {
        changed && na == at && exists|n: int| #![trigger is_char_boundary(b, n)] {
            &&& at < n <= b.len() && is_char_boundary(b, n)
            &&& (forall|j: int| at < j < n ==> !#[trigger] is_char_boundary(b, j))
            &&& nb == b.take(at) + b.skip(n)
        }
    } else {
        !changed && nb == b && na == at
    })
    &&& (key is Left ==> {
        &&& !changed && nb == b
        &&& at == 0 ==> na == 0
        &&& at > 0 ==> na < at && is_char_boundary(b, na)
            && forall|j: int| na < j < at ==> !#[trigger] is_char_boundary(b, j)
    })
    &&& (key is Right ==> {
        &&& !changed && nb == b
        &&& at == b.len() ==> na == at
        &&& at < b.len() ==> at < na <= b.len()
            && is_char_boundary(b, na) && forall|j: int|
            at < j < na ==> !#[trigger] is_char_boundary(b, j)
    })
    &&& (key is Home ==> !changed && nb == b && na == 0)
    &&& (key is End ==> !changed && nb == b && na == b.len())
    &&& (key matches EditKey::Paste(None) ==> !changed && nb == b && na == at)
    &&& (key matches EditKey::Paste(Some(t)) ==> changed && nb == b.take(at) + utf8(t@)
        + b.skip(at) && na == at + utf8(t@).len())
    &&& (key is Cut ==> changed && nb.len() == 0 && na == 0)
    &&& (key is Copy ==> !changed && nb == b && na == at)
    &&& (key matches EditKey::Type(t) ==> if exists|i: int| 0 <= i < t@.len() && is_control(#[trigger] t@[i]) {
        !changed && nb == b && na == at
    } else {
        changed && nb == b.take(at) + utf8(t@) + b.skip(at)
            && na == at + utf8(t@).len()
    })
}

/// The text of a focused field and the caret in it, a byte offset on a char boundary.
pub struct TextField {
    text: String,
    caret: usize,
}

impl TextField {
    /// The text's UTF-8 bytes.
    pub closed spec fn bytes(&self) -> Seq<u8> {
        utf8(self.text@)
    }

    /// The text.
    pub closed spec fn chars(&self) -> Seq<char> {
        self.text@
    }

    /// The caret, in bytes.
    pub closed spec fn at(&self) -> int {
        self.caret as int
    }

    /// The bytes are the text's UTF-8 encoding, so the bytes decide the text.
    pub proof fn lemma_text(&self)
        ensures
            self.bytes() == utf8(self.chars()),
            forall|t: Seq<char>| #[trigger] utf8(t) == self.bytes() ==> t == self.chars(),
    {
        assert forall|t: Seq<char>| #[trigger] utf8(t) == self.bytes() implies t == self.chars() by {
            lemma_utf8_injective(t, self.chars());
        }
    }

    /// The caret sits on a char boundary of the text.
    #[verifier::type_invariant]
    spec fn inv(self) -> bool {
        &&& utf8(self.text@).len() <= usize::MAX
        &&& self.caret <= utf8(self.text@).len()
        &&& is_char_boundary(utf8(self.text@), self.caret as int)
    }

    /// A field with `text`, the caret at its end.
    pub fn new(text: String) -> (r: TextField)
        requires
            utf8(text@).len() <= usize::MAX,
        ensures
            r.chars() == text@,
            r.at() == utf8(text@).len(),
    {
        let caret = text.as_str().len();
        TextField { text, caret }
    }

    /// A field with `text`, the caret at byte `caret`, a char boundary.
    pub fn with_caret(text: String, caret: usize) -> (r: TextField)
        requires
            utf8(text@).len() <= usize::MAX,
            caret <= utf8(text@).len(),
            is_char_boundary(utf8(text@), caret as int),
        ensures
            r.chars() == text@,
            r.at() == caret,
    {
        TextField { text, caret }
    }

    pub fn text(&self) -> (r: &str)
        ensures
            r@ == self.chars(),
    {
        self.text.as_str()
    }

    /// The caret, always on a char boundary of the text.
    pub fn caret(&self) -> (r: usize)
        ensures
            r == self.at(),
            r <= self.bytes().len(),
            is_char_boundary(self.bytes(), r as int),
    {
        proof {
            use_type_invariant(self);
        }
        self.caret
    }

    /// Applies a key; returns whether the text changed. Backspace and Delete take the
    /// char before or after the caret; arrows, Home and End move the caret by chars or
    /// to either end; pasted or typed text goes in at the caret unless it holds a control
    /// char; cutting empties the field; copying changes nothing.
    pub fn edit(&mut self, key: EditKey) -> (changed: bool)
        requires
            match key {
                EditKey::Paste(Some(t)) => utf8(old(self).chars()).len() + utf8(t@).len() <= usize::MAX,
                EditKey::Type(t) => utf8(old(self).chars()).len() + utf8(t@).len() <= usize::MAX,
                _ => true,
            },
        ensures
            edits_to(old(self).bytes(), old(self).at(), key, final(self).bytes(), final(self).at(), changed),
    {
        proof {
            use_type_invariant(&*self);
        }
        let ghost b = utf8(self.text@);
        match key {
            EditKey::Backspace => {
                if self.caret == 0 {
                    return false;
                }
                let c = self.caret;
                let p = prev_boundary(self.text.as_str(), c);
                assert(clamped(c as int, b.len() as int) == c);
                assert(p < c && is_char_boundary(b, p as int));
                let text = cut_bytes(self.text.as_str(), p, c);
                *self = TextField { text, caret: p };
                true
            },
            EditKey::Delete => {
                if self.caret >= self.text.as_str().len() {
                    return false;
                }
                let c = self.caret;
                let n = next_boundary(self.text.as_str(), c);
                assert(clamped(c as int, b.len() as int) == c);
                let text = cut_bytes(self.text.as_str(), c, n);
                *self = TextField { text, caret: c };
                assert(old(self).bytes() == b);
                assert({
                    &&& c < n <= old(self).bytes().len() && is_char_boundary(old(self).bytes(), n as int)
                    &&& (forall|j: int| c < j < n ==> !#[trigger] is_char_boundary(old(self).bytes(), j))
                    &&& self.bytes() == old(self).bytes().take(c as int) + old(self).bytes().skip(n as int)
                });
                true
            },
            EditKey::Left => {
                self.caret = prev_boundary(self.text.as_str(), self.caret);
                false
            },
            EditKey::Right => {
                self.caret = next_boundary(self.text.as_str(), self.caret);
                false
            },
            EditKey::Home => {
                self.caret = 0;
                false
            },
            EditKey::End => {
                self.caret = self.text.as_str().len();
                false
            },
            EditKey::Paste(None) => false,
            EditKey::Paste(Some(t)) => {
                self.put(t.as_str());
                true
            },
            EditKey::Cut => {
                *self = TextField { text: String::new(), caret: 0 };
                true
            },
            EditKey::Copy => false,
            EditKey::Type(t) => {
                if has_control(t.as_str()) {
                    return false;
                }
                self.put(t.as_str());
                true
            },
        }
    }

    /// Puts `t` in at the caret and moves the caret past it.
    fn put(&mut self, t: &str)
        requires
            utf8(old(self).text@).len() + utf8(t@).len() <= usize::MAX,
        ensures
            utf8(final(self).text@) == utf8(old(self).text@).take(old(self).caret as int) + utf8(t@) + utf8(
                old(self).text@,
            ).skip(old(self).caret as int),
            final(self).caret == old(self).caret + utf8(t@).len(),
    {
        proof {
            use_type_invariant(&*self);
        }
        let ghost b = utf8(self.text@);
        let c = self.caret;
        let mut text = self.text.clone();
        let r = insert_at(&mut text, c, t);
        proof {
            let nb = utf8(text@);
            assert(nb.len() == b.len() + utf8(t@).len());
            if r < nb.len() {
                assert(nb[r as int] == b[c as int]);
                vstd::utf8::is_char_boundary_iff_not_is_continuation_byte(b, c as int);
                vstd::utf8::is_char_boundary_iff_not_is_continuation_byte(nb, r as int);
            }
        }
        *self = TextField { text, caret: r };
    }
}

/// `s` without its bytes from `from` to `to`, both char boundaries.
fn cut_bytes(s: &str, from: usize, to: usize) -> (r: String)
    requires
        utf8(s@).len() <= usize::MAX,
        from <= to <= utf8(s@).len(),
        is_char_boundary(utf8(s@), from as int),
        is_char_boundary(utf8(s@), to as int),
    ensures
        utf8(r@) == utf8(s@).take(from as int) + utf8(s@).skip(to as int),
        utf8(r@).len() <= usize::MAX,
        is_char_boundary(utf8(r@), from as int),
{
    let ghost b = utf8(s@);
    let (a, _) = s.split_at(from);
    let (_, z) = s.split_at(to);
    let joined = concat(a, z);
    proof {
        lemma_utf8_concat(a@, z@);
        assert(utf8(joined@) =~= b.take(from as int) + b.skip(to as int));
        let nb = utf8(joined@);
        if from < nb.len() {
            assert(nb[from as int] == b[to as int]);
            vstd::utf8::is_char_boundary_iff_not_is_continuation_byte(b, to as int);
            vstd::utf8::is_char_boundary_iff_not_is_continuation_byte(nb, from as int);
        }
    }
    joined
}

/// `s` split at its first `c`: what is before it and what is after it.
pub open spec fn split_once(s: Seq<char>, c: char) -> Option<(Seq<char>, Seq<char>)> {
    let k = crate::strs::first_index(s, c);
    if k < 0 {
        None
    } else {
        Some((s.take(k), s.skip(k + 1)))
    }
}

/// `str::split_once` at a char.
pub fn split_at_char(s: &str, c: char) -> (r: Option<(String, String)>)
    ensures
        match r {
            Some((a, b)) => split_once(s@, c) == Some((a@, b@)),
            None => split_once(s@, c) is None,
        },
{
    let cs = chars_of(s);
    let mut k: usize = 0;
    while k < cs.len() && cs[k] != c
        invariant
            k <= cs.len(),
            forall|j: int| 0 <= j < k ==> cs@[j] != c,
        decreases cs.len() - k,
    {
        k += 1;
    }
    proof {
        crate::strs::lemma_first_index_at(cs@, c, k as int);
    }
    if k == cs.len() {
        return None;
    }
    let a = string_of_range(&cs, 0, k);
    let b = string_of_range(&cs, k + 1, cs.len());
    assert(a@ =~= s@.take(k as int));
    assert(b@ =~= s@.skip(k + 1));
    Some((a, b))
}

/// How many steps the first-run setup has.
pub const SETUP_STEPS: usize = 4;

/// A popup of the settings window: a dropdown list or the colour picker, by key.
pub enum Popup {
    Dropdown(String),
    Color(String),
}

/// A row of a shortcut list: what it shows, what it opens, and its icon.
#[derive(Clone, Debug, PartialEq)]
pub struct Shortcut {
    pub name: String,
    pub target: String,
    pub icon: String,
}

/// Shortcut rows as (name, target, icon).
pub open spec fn rows_view(v: Seq<Shortcut>) -> Seq<(Seq<char>, Seq<char>, Seq<char>)> {
    v.map_values(|r: Shortcut| (r.name@, r.target@, r.icon@))
}

/// Where key `k` first occurs in `es`, or -1.
pub open spec fn key_at<T>(es: Seq<(String, T)>, k: Seq<char>) -> int
    decreases es.len(),
{
    if es.len() == 0 {
        -1
    } else {
        let i = key_at(es.drop_last(), k);
        if i >= 0 {
            i
        } else if es.last().0@ == k {
            es.len() - 1
        } else {
            -1
        }
    }
}

/// The value under key `k`, first of that key.
pub open spec fn value_of<T>(es: Seq<(String, T)>, k: Seq<char>) -> Option<T> {
    let i = key_at(es, k);
    if i >= 0 {
        Some(es[i].1)
    } else {
        None
    }
}

pub(crate) proof fn lemma_key_at<T>(es: Seq<(String, T)>, k: Seq<char>)
    ensures
        -1 <= key_at(es, k) < es.len(),
        key_at(es, k) >= 0 ==> es[key_at(es, k)].0@ == k,
        forall|j: int| 0 <= j < es.len() && (key_at(es, k) == -1 || j < key_at(es, k)) ==> es[j].0@ != k,
    decreases es.len(),
{
    if es.len() > 0 {
        let p = es.drop_last();
        lemma_key_at(p, k);
        assert forall|j: int| 0 <= j < es.len() && (key_at(es, k) == -1 || j < key_at(es, k)) implies es[j].0@ != k by {
            if j < p.len() {
                assert(p[j] == es[j]);
            }
        }
    }
}

/// Where key `k` first occurs in `es`.
pub(crate) fn find_key<T>(es: &Vec<(String, T)>, k: &str) -> (r: Option<usize>)
    ensures
        match r {
            Some(i) => i == key_at(es@, k@) && i < es.len(),
            None => key_at(es@, k@) == -1,
        },
{
    proof {
        lemma_key_at(es@, k@);
    }
    let mut i: usize = 0;
    while i < es.len()
        invariant
            i <= es.len(),
            forall|j: int| 0 <= j < i ==> es@[j].0@ != k@,
        decreases es.len() - i,
    {
        if str_eq(es[i].0.as_str(), k) {
            proof {
                lemma_key_at(es@, k@);
                let f = key_at(es@, k@);
                if f >= 0 && f < i {
                    assert(es@[f].0@ == k@);
                }
            }
            return Some(i);
        }
        i += 1;
    }
    proof {
        let f = key_at(es@, k@);
        if f >= 0 {
            assert(es@[f].0@ == k@);
        }
    }
    None
}

/// The value under key `k`, first of that key.
fn find_value<T: Copy>(es: &Vec<(String, T)>, k: &str) -> (r: Option<T>)
    ensures
        r == value_of(es@, k@),
{
    proof {
        lemma_key_at(es@, k@);
    }
    let mut i: usize = 0;
    while i < es.len()
        invariant
            i <= es.len(),
            forall|j: int| 0 <= j < i ==> es@[j].0@ != k@,
        decreases es.len() - i,
    {
        if str_eq(es[i].0.as_str(), k) {
            proof {
                lemma_key_at(es@, k@);
                let f = key_at(es@, k@);
                if f >= 0 && f < i {
                    assert(es@[f].0@ == k@);
                }
            }
            return Some(es[i].1);
        }
        i += 1;
    }
    proof {
        let f = key_at(es@, k@);
        if f >= 0 {
            assert(es@[f].0@ == k@);
        }
    }
    None
}

/// The row a shortcut field's index text names among `n` rows: an optional `+`, then
/// decimal digits only, less than `n`.
pub open spec fn row_of(idx: Seq<char>, n: nat) -> Option<nat> {
    let d = crate::thumbs::unsigned_part(idx);
    if d.len() > 0 && crate::thumbs::digits_only(d) && crate::plugins::decimal(d) < n {
        Some(crate::plugins::decimal(d))
    } else {
        None
    }
}

/// See `row_of`.
fn row_index(idx: &str, n: usize) -> (r: Option<usize>)
    ensures
        match r {
            Some(i) => row_of(idx@, n as nat) == Some(i as nat),
            None => row_of(idx@, n as nat) is None,
        },
{
    let s = chars_of(idx);
    let start: usize = if s.len() > 0 && s[0] == '+' {
        1
    } else {
        0
    };
    let ghost d = crate::thumbs::unsigned_part(idx@);
    assert(d =~= s@.skip(start as int));
    if start == s.len() || n == 0 {
        return None;
    }
    let mut acc: u128 = 0;
    let mut i = start;
    while i < s.len()
        invariant
            start <= i <= s.len(),
            start < s.len(),
            d == s@.skip(start as int),
            d == crate::thumbs::unsigned_part(idx@),
            forall|k: int| 0 <= k < i - start ==> crate::strs::is_ascii_digit(#[trigger] d[k]),
            acc as nat == crate::plugins::decimal(d.take(i - start)),
            acc < n,
        decreases s.len() - i,
    {
        let c = s[i];
        assert(d[i - start] == c);
        if !('0' <= c && c <= '9') {
            proof {
                let k = i - start;
                assert(!crate::strs::is_ascii_digit(d[k]));
            }
            return None;
        }
        proof {
            assert(d.take(i - start + 1).drop_last() =~= d.take(i - start));
            assert(d.take(i - start + 1).last() == c);
        }
        acc = acc * 10 + (c as u32 - '0' as u32) as u128;
        assert(acc as nat == crate::plugins::decimal(d.take(i - start + 1)));
        i += 1;
        if acc >= n as u128 {
            proof {
                crate::thumbs::lemma_decimal_prefix_le(d, i - start);
            }
            return None;
        }
    }
    assert(d.take(d.len() as int) =~= d);
    Some(acc as usize)
}

/// A command for the app, from an action that decides on plain values.
#[derive(Debug, Clone, PartialEq)]
pub enum Cmd {
    Add(String),
    Remove(String),
    /// An Instance's arrangement of one tier goes back to the Widget's default.
    LayoutReset(String, String),
    ClickThrough(String, bool),
    SizeLimit(String, bool),
    ResetPos(String),
    Edit(bool),
    Autostart(bool),
    Flag(Flag, bool),
    /// An Instance's param set to text.
    Param(String, String, String),
    /// An Instance's on/off param set.
    ParamFlag(String, String, bool),
    /// An Instance's shortcut rows, all of them, after an edit.
    Items(String, Vec<Shortcut>),
    /// An Instance's layer (`desktop`, `bottom`, `normal`, `topmost`).
    Z(String, String),
    /// The global palette, font set, glyph set and icon pack.
    Theme(Selection),
    /// A Style token set to text (`Some`) or back to what it inherits (`None`).
    Style(Scope, String, Option<String>),
    /// An on/off Style token set.
    StyleFlag(Scope, String, bool),
    /// An Instance's own palette/fonts/glyphs/pack (`palette|fonts|glyphs|pack`); `None` = global.
    ThemePick(String, String, Option<String>),
    PluginEnabled(String, bool),
    RemovePlugin(String),
    OpenPluginsFolder,
    OpenFolder,
    /// A folder or file under the data folder (`iconpacks`, `wayfinder.log`).
    OpenData(&'static str),
    ClaimPluginFiles,
    /// A Plugin file or folder, by path, to install.
    InstallPlugin(String),
    Reload,
    Quit,
    Restart,
    Gpu(String),
    Onboarded,
    Close,
    Minimize,
}

/// A command by its plain values.
pub enum CmdView {
    Add(Seq<char>),
    Remove(Seq<char>),
    LayoutReset(Seq<char>, Seq<char>),
    ClickThrough(Seq<char>, bool),
    SizeLimit(Seq<char>, bool),
    ResetPos(Seq<char>),
    Edit(bool),
    Autostart(bool),
    Flag(Flag, bool),
    Param(Seq<char>, Seq<char>, Seq<char>),
    ParamFlag(Seq<char>, Seq<char>, bool),
    /// The Instance's id and its rows as (name, target, icon).
    Items(Seq<char>, Seq<(Seq<char>, Seq<char>, Seq<char>)>),
    Z(Seq<char>, Seq<char>),
    /// Palette, font set, glyph set, icon pack.
    Theme(Seq<char>, Seq<char>, Seq<char>, Seq<char>),
    /// The Instance's id, or none for the Workspace; the token; the text it is set to.
    Style(Option<Seq<char>>, Seq<char>, Option<Seq<char>>),
    StyleFlag(Option<Seq<char>>, Seq<char>, bool),
    ThemePick(Seq<char>, Seq<char>, Option<Seq<char>>),
    PluginEnabled(Seq<char>, bool),
    RemovePlugin(Seq<char>),
    OpenPluginsFolder,
    OpenFolder,
    OpenData(Seq<char>),
    ClaimPluginFiles,
    InstallPlugin(Seq<char>),
    Reload,
    Quit,
    Restart,
    Gpu(Seq<char>),
    Onboarded,
    Close,
    Minimize,
}

impl View for Cmd {
    type V = CmdView;

    open spec fn view(&self) -> CmdView {
        match self {
            Cmd::Add(a) => CmdView::Add(a@),
            Cmd::Remove(a) => CmdView::Remove(a@),
            Cmd::LayoutReset(a, b) => CmdView::LayoutReset(a@, b@),
            Cmd::ClickThrough(a, b) => CmdView::ClickThrough(a@, *b),
            Cmd::SizeLimit(a, b) => CmdView::SizeLimit(a@, *b),
            Cmd::ResetPos(a) => CmdView::ResetPos(a@),
            Cmd::Edit(b) => CmdView::Edit(*b),
            Cmd::Autostart(b) => CmdView::Autostart(*b),
            Cmd::Flag(f, b) => CmdView::Flag(*f, *b),
            Cmd::Param(a, b, v) => CmdView::Param(a@, b@, v@),
            Cmd::Z(a, b) => CmdView::Z(a@, b@),
            Cmd::Theme(t) => CmdView::Theme(t.palette@, t.fonts@, t.glyphs@, t.icon_pack@),
            Cmd::Style(sc, t, v) => CmdView::Style(scope_view(*sc), t@, opt_view(*v)),
            Cmd::ThemePick(a, b, v) => CmdView::ThemePick(a@, b@, opt_view(*v)),
            Cmd::ParamFlag(a, b, f) => CmdView::ParamFlag(a@, b@, *f),
            Cmd::Items(a, items) => CmdView::Items(a@, rows_view(items@)),
            Cmd::StyleFlag(sc, t, f) => CmdView::StyleFlag(scope_view(*sc), t@, *f),
            Cmd::PluginEnabled(a, b) => CmdView::PluginEnabled(a@, *b),
            Cmd::RemovePlugin(a) => CmdView::RemovePlugin(a@),
            Cmd::OpenPluginsFolder => CmdView::OpenPluginsFolder,
            Cmd::OpenFolder => CmdView::OpenFolder,
            Cmd::OpenData(d) => CmdView::OpenData(d@),
            Cmd::ClaimPluginFiles => CmdView::ClaimPluginFiles,
            Cmd::InstallPlugin(p) => CmdView::InstallPlugin(p@),
            Cmd::Reload => CmdView::Reload,
            Cmd::Quit => CmdView::Quit,
            Cmd::Restart => CmdView::Restart,
            Cmd::Gpu(g) => CmdView::Gpu(g@),
            Cmd::Onboarded => CmdView::Onboarded,
            Cmd::Close => CmdView::Close,
            Cmd::Minimize => CmdView::Minimize,
        }
    }
}

/// Commands by their plain values; `None` stays `None`.
pub open spec fn cmds(r: Option<Vec<Cmd>>) -> Option<Seq<CmdView>> {
    match r {
        Some(v) => Some(v@.map_values(|c: Cmd| c@)),
        None => None,
    }
}

/// Resetting every saved tier of Instance `id`.
pub open spec fn reset_all(id: Seq<char>, tiers: Seq<Seq<char>>) -> Seq<CmdView> {
    tiers.map_values(|t: Seq<char>| CmdView::LayoutReset(id, t))
}

/// What the window knows of one Instance when an action needs it.
pub struct InstanceFacts {
    pub id: String,
    pub click_through: bool,
    pub size_limit: bool,
    /// The tiers it has a saved arrangement for.
    pub tiers: Vec<String>,
    /// The Style tokens it sets itself, in order.
    pub style: Vec<String>,
    /// Its own palette, fonts, glyphs and pack.
    pub theme: ThemePick,
    /// Its shortcut rows.
    pub items: Vec<Shortcut>,
    /// Each param its Widget declares, with whether the value it has (or else the
    /// default) is on.
    pub flags: Vec<(String, bool)>,
    /// The Style tokens that are on in its composed Style (the Workspace's with its own
    /// over them).
    pub style_on: Vec<String>,
}

/// What an action may need to know of the app.
pub struct Facts {
    pub edit: bool,
    pub autostart: bool,
    pub header_drag: bool,
    pub instances: Vec<InstanceFacts>,
    /// Each Plugin's id and whether it is on.
    pub plugins: Vec<(String, bool)>,
    /// The global palette, fonts, glyphs and pack.
    pub theme: Selection,
    /// The Style tokens the Workspace sets, in order.
    pub style: Vec<String>,
    /// The Style tokens that are on in the Workspace's composed Style.
    pub style_on: Vec<String>,
    /// How many items each dropdown lists, by its key.
    pub dropdowns: Vec<(String, usize)>,
}

/// The settings window's state that actions change: the page, what is selected or open,
/// the confirmation of a removal, and the first-run setup's step.
pub struct Flow {
    pub page: Page,
    pub selected: Option<String>,
    /// The size tier the preview shows; none = the one the Instance's own size falls in.
    pub tier_tab: Option<String>,
    pub sel_module: Option<String>,
    pub advanced: bool,
    /// The Widgets page shows Add a widget instead of the selected Instance.
    pub adding: bool,
    /// Add a widget's category; none = all.
    pub category: Option<String>,
    /// The Log page's level; none = all.
    pub log_level: Option<Level>,
    /// The first-run setup's step, from 0.
    pub step: usize,
    pub popup: Option<Popup>,
    /// The focused text field, by key.
    pub focus: Option<(String, TextField)>,
    /// A removal waiting for its second click.
    pub confirm: Confirm,
    /// A file is being dragged over the window.
    pub drop_hover: bool,
    /// The adapter was changed here, so it waits for a restart.
    pub gpu_picked: bool,
    /// Search fields' text (`q:widgets`, `q:log`, `q:dd`), by key.
    pub queries: Vec<(String, String)>,
}

/// A key pressed while the settings window has the keyboard.
pub enum Key {
    Enter,
    Escape,
    Tab,
    /// Any other key, by what it does to a focused field.
    Edit(EditKey),
}

/// Where the text of search field `k` is kept: the first entry for it, or -1.
pub open spec fn query_at(qs: Seq<(String, String)>, k: Seq<char>) -> int
    decreases qs.len(),
{
    if qs.len() == 0 {
        -1
    } else {
        let i = query_at(qs.drop_last(), k);
        if i >= 0 {
            i
        } else if qs.last().0@ == k {
            qs.len() - 1
        } else {
            -1
        }
    }
}

/// The text of search field `k`; empty before anything is typed in it.
pub open spec fn query_of(qs: Seq<(String, String)>, k: Seq<char>) -> Seq<char> {
    let i = query_at(qs, k);
    if i >= 0 {
        qs[i].1@
    } else {
        Seq::empty()
    }
}

proof fn lemma_query_at(qs: Seq<(String, String)>, k: Seq<char>)
    ensures
        -1 <= query_at(qs, k) < qs.len(),
        query_at(qs, k) >= 0 ==> qs[query_at(qs, k)].0@ == k,
        forall|j: int| 0 <= j < qs.len() && (query_at(qs, k) == -1 || j < query_at(qs, k)) ==> qs[j].0@ != k,
    decreases qs.len(),
{
    if qs.len() > 0 {
        let p = qs.drop_last();
        lemma_query_at(p, k);
        assert forall|j: int| 0 <= j < qs.len() && (query_at(qs, k) == -1 || j < query_at(qs, k)) implies qs[j].0@ != k by {
            if j < p.len() {
                assert(p[j] == qs[j]);
            }
        }
    }
}

/// The first entry of `k` is at `i` (or there is none, at -1) exactly when the entries
/// say so.
proof fn lemma_query_at_is(qs: Seq<(String, String)>, k: Seq<char>, i: int)
    requires
        -1 <= i < qs.len(),
        i >= 0 ==> qs[i].0@ == k,
        forall|j: int| 0 <= j < qs.len() && (i == -1 || j < i) ==> qs[j].0@ != k,
    ensures
        query_at(qs, k) == i,
{
    lemma_query_at(qs, k);
    let q = query_at(qs, k);
    if q != i {
        if q == -1 {
            assert(qs[i].0@ != k);
        } else if i == -1 || q < i {
            assert(qs[q].0@ != k);
        } else {
            assert(qs[i].0@ != k);
        }
    }
}

/// Sets the text of search field `k` to `t`, leaving the others as they are.
fn set_query(qs: &mut Vec<(String, String)>, k: String, t: String)
    ensures
        forall|k2: Seq<char>| #[trigger]
            query_of(final(qs)@, k2) == if k2 == k@ {
                t@
            } else {
                query_of(old(qs)@, k2)
            },
{
    let ghost old_qs = qs@;
    proof {
        lemma_query_at(old_qs, k@);
    }
    let mut i: usize = 0;
    while i < qs.len()
        invariant
            i <= qs.len(),
            qs@ == old_qs,
            old_qs == old(qs)@,
            forall|j: int| 0 <= j < i ==> qs@[j].0@ != k@,
        decreases qs.len() - i,
    {
        if str_eq(qs[i].0.as_str(), k.as_str()) {
            let ghost kv = k@;
            let ghost tv = t@;
            qs.set(i, (k, t));
            proof {
                assert forall|j: int| 0 <= j < qs@.len() && j != i implies qs@[j] == old_qs[j] by {}
                assert(qs@[i as int].0@ == kv && qs@[i as int].1@ == tv);
                lemma_query_at_is(old_qs, kv, i as int);
                lemma_query_at_is(qs@, kv, i as int);
                assert(query_of(qs@, kv) == tv);
                assert forall|k2: Seq<char>| #[trigger] query_of(qs@, k2) == if k2 == kv {
                    tv
                } else {
                    query_of(old_qs, k2)
                } by {
                    if k2 != kv {
                        lemma_query_at(old_qs, k2);
                        let q = query_at(old_qs, k2);
                        assert forall|j: int| 0 <= j < qs@.len() && (q == -1 || j < q) implies qs@[j].0@ != k2 by {
                            if j != i {
                                assert(qs@[j] == old_qs[j]);
                            }
                        }
                        if q >= 0 {
                            assert(q != i);
                            assert(qs@[q] == old_qs[q]);
                        }
                        lemma_query_at_is(qs@, k2, q);
                    }
                }
            }
            return;
        }
        i += 1;
    }
    let ghost kv = k@;
    let ghost tv = t@;
    qs.push((k, t));
    proof {
        lemma_query_at_is(old_qs, kv, -1);
        lemma_query_at_is(qs@, kv, old_qs.len() as int);
        assert forall|k2: Seq<char>| #[trigger] query_of(qs@, k2) == if k2 == kv {
            tv
        } else {
            query_of(old_qs, k2)
        } by {
            if k2 != kv {
                lemma_query_at(old_qs, k2);
                let q = query_at(old_qs, k2);
                assert forall|j: int| 0 <= j < qs@.len() && (q == -1 || j < q) implies qs@[j].0@ != k2 by {
                    if j < old_qs.len() {
                        assert(qs@[j] == old_qs[j]);
                    }
                }
                if q >= 0 {
                    assert(qs@[q] == old_qs[q]);
                }
                lemma_query_at_is(qs@, k2, q);
            }
        }
    }
}

/// The verb of an action, the part before its first `:`.
#[derive(Clone, Copy, Debug, PartialEq, Eq, Structural)]
pub enum Verb {
    Delete,
    PluginRemove,
    Nav,
    Select,
    Tier,
    Advanced,
    LayoutReset,
    LayoutResetAll,
    Add,
    ClickThrough,
    SizeLimit,
    ResetPos,
    Edit,
    Autostart,
    Flag,
    PopupClose,
    Clear,
    PluginOn,
    PluginsFolder,
    OpenFolder,
    ClaimFiles,
    Reload,
    Quit,
    Restart,
    GpuFix,
    Gallery,
    Category,
    LogLevel,
    OpenLog,
    OpenPacks,
    Setup,
    Close,
    Minimize,
    Input,
    Slider,
    Drag,
    Toggle,
    Dropdown,
    Pick,
    ColorPicker,
    ColorSv,
    ColorHue,
    ColorSet,
    Folder,
    File,
    ShortcutAdd,
    ShortcutBrowse,
    ShortcutDelete,
    Style,
    StyleReset,
    SetColor,
    LogCopy,
    PluginInstall,
    /// A verb no node uses.
    Other,
}

/// The verb a word names.
pub open spec fn verb_named(s: Seq<char>) -> Verb {
    if s == "del"@ {
        Verb::Delete
    } else if s == "prm"@ {
        Verb::PluginRemove
    } else if s == "nav"@ {
        Verb::Nav
    } else if s == "sel"@ {
        Verb::Select
    } else if s == "tier"@ {
        Verb::Tier
    } else if s == "adv"@ {
        Verb::Advanced
    } else if s == "layreset"@ {
        Verb::LayoutReset
    } else if s == "layresetall"@ {
        Verb::LayoutResetAll
    } else if s == "add"@ {
        Verb::Add
    } else if s == "ct"@ {
        Verb::ClickThrough
    } else if s == "lim"@ {
        Verb::SizeLimit
    } else if s == "reset"@ {
        Verb::ResetPos
    } else if s == "edit"@ {
        Verb::Edit
    } else if s == "autostart"@ {
        Verb::Autostart
    } else if s == "flag"@ {
        Verb::Flag
    } else if s == "popup-close"@ {
        Verb::PopupClose
    } else if s == "clear"@ {
        Verb::Clear
    } else if s == "pon"@ {
        Verb::PluginOn
    } else if s == "pfolder"@ {
        Verb::PluginsFolder
    } else if s == "openfolder"@ {
        Verb::OpenFolder
    } else if s == "claimfiles"@ {
        Verb::ClaimFiles
    } else if s == "reload"@ {
        Verb::Reload
    } else if s == "quit"@ {
        Verb::Quit
    } else if s == "restart"@ {
        Verb::Restart
    } else if s == "gpufix"@ {
        Verb::GpuFix
    } else if s == "gallery"@ {
        Verb::Gallery
    } else if s == "cat"@ {
        Verb::Category
    } else if s == "lvl"@ {
        Verb::LogLevel
    } else if s == "openlog"@ {
        Verb::OpenLog
    } else if s == "openpacks"@ {
        Verb::OpenPacks
    } else if s == "ob"@ {
        Verb::Setup
    } else if s == "close"@ {
        Verb::Close
    } else if s == "min"@ {
        Verb::Minimize
    } else if s == "in"@ {
        Verb::Input
    } else if s == "sl"@ {
        Verb::Slider
    } else if s == "drag"@ {
        Verb::Drag
    } else if s == "tog"@ {
        Verb::Toggle
    } else if s == "dd"@ {
        Verb::Dropdown
    } else if s == "pick"@ {
        Verb::Pick
    } else if s == "cp"@ {
        Verb::ColorPicker
    } else if s == "cpsv"@ {
        Verb::ColorSv
    } else if s == "cph"@ {
        Verb::ColorHue
    } else if s == "cpset"@ {
        Verb::ColorSet
    } else if s == "folder"@ {
        Verb::Folder
    } else if s == "file"@ {
        Verb::File
    } else if s == "scadd"@ {
        Verb::ShortcutAdd
    } else if s == "scbrowse"@ {
        Verb::ShortcutBrowse
    } else if s == "scdel"@ {
        Verb::ShortcutDelete
    } else if s == "sy"@ {
        Verb::Style
    } else if s == "syreset"@ {
        Verb::StyleReset
    } else if s == "setc"@ {
        Verb::SetColor
    } else if s == "logcopy"@ {
        Verb::LogCopy
    } else if s == "pinstall"@ {
        Verb::PluginInstall
    } else {
        Verb::Other
    }
}

impl Verb {
    /// The verb a word names.
    pub fn parse(s: &str) -> (r: Verb)
        ensures
            r == verb_named(s@),
    {
        if str_eq(s, "del") {
            Verb::Delete
        } else if str_eq(s, "prm") {
            Verb::PluginRemove
        } else if str_eq(s, "nav") {
            Verb::Nav
        } else if str_eq(s, "sel") {
            Verb::Select
        } else if str_eq(s, "tier") {
            Verb::Tier
        } else if str_eq(s, "adv") {
            Verb::Advanced
        } else if str_eq(s, "layreset") {
            Verb::LayoutReset
        } else if str_eq(s, "layresetall") {
            Verb::LayoutResetAll
        } else if str_eq(s, "add") {
            Verb::Add
        } else if str_eq(s, "ct") {
            Verb::ClickThrough
        } else if str_eq(s, "lim") {
            Verb::SizeLimit
        } else if str_eq(s, "reset") {
            Verb::ResetPos
        } else if str_eq(s, "edit") {
            Verb::Edit
        } else if str_eq(s, "autostart") {
            Verb::Autostart
        } else if str_eq(s, "flag") {
            Verb::Flag
        } else if str_eq(s, "popup-close") {
            Verb::PopupClose
        } else if str_eq(s, "clear") {
            Verb::Clear
        } else if str_eq(s, "pon") {
            Verb::PluginOn
        } else if str_eq(s, "pfolder") {
            Verb::PluginsFolder
        } else if str_eq(s, "openfolder") {
            Verb::OpenFolder
        } else if str_eq(s, "claimfiles") {
            Verb::ClaimFiles
        } else if str_eq(s, "reload") {
            Verb::Reload
        } else if str_eq(s, "quit") {
            Verb::Quit
        } else if str_eq(s, "restart") {
            Verb::Restart
        } else if str_eq(s, "gpufix") {
            Verb::GpuFix
        } else if str_eq(s, "gallery") {
            Verb::Gallery
        } else if str_eq(s, "cat") {
            Verb::Category
        } else if str_eq(s, "lvl") {
            Verb::LogLevel
        } else if str_eq(s, "openlog") {
            Verb::OpenLog
        } else if str_eq(s, "openpacks") {
            Verb::OpenPacks
        } else if str_eq(s, "ob") {
            Verb::Setup
        } else if str_eq(s, "close") {
            Verb::Close
        } else if str_eq(s, "min") {
            Verb::Minimize
        } else if str_eq(s, "in") {
            Verb::Input
        } else if str_eq(s, "sl") {
            Verb::Slider
        } else if str_eq(s, "drag") {
            Verb::Drag
        } else if str_eq(s, "tog") {
            Verb::Toggle
        } else if str_eq(s, "dd") {
            Verb::Dropdown
        } else if str_eq(s, "pick") {
            Verb::Pick
        } else if str_eq(s, "cp") {
            Verb::ColorPicker
        } else if str_eq(s, "cpsv") {
            Verb::ColorSv
        } else if str_eq(s, "cph") {
            Verb::ColorHue
        } else if str_eq(s, "cpset") {
            Verb::ColorSet
        } else if str_eq(s, "folder") {
            Verb::Folder
        } else if str_eq(s, "file") {
            Verb::File
        } else if str_eq(s, "scadd") {
            Verb::ShortcutAdd
        } else if str_eq(s, "scbrowse") {
            Verb::ShortcutBrowse
        } else if str_eq(s, "scdel") {
            Verb::ShortcutDelete
        } else if str_eq(s, "sy") {
            Verb::Style
        } else if str_eq(s, "syreset") {
            Verb::StyleReset
        } else if str_eq(s, "setc") {
            Verb::SetColor
        } else if str_eq(s, "logcopy") {
            Verb::LogCopy
        } else if str_eq(s, "pinstall") {
            Verb::PluginInstall
        } else {
            Verb::Other
        }
    }
}


/// What a committed text field changes: a search field keeps its text, a param field
/// sets the param, a colour or shortcut field is the app's, anything else nothing.
pub enum Commit {
    Query,
    /// A colour for the target after `hx:`.
    Colour(Seq<char>),
    Param(Seq<char>, Seq<char>),
    /// A shortcut row's name (`true`) or target: the Instance's id and the row's index.
    Row(Seq<char>, Seq<char>, bool),
    Nothing,
}

/// A hex digit.
pub open spec fn is_hex_digit(c: char) -> bool {
    ('0' <= c <= '9') || ('a' <= c <= 'f') || ('A' <= c <= 'F')
}

/// Every char of `d` is a hex digit.
pub open spec fn all_hex(d: Seq<char>) -> bool {
    forall|i: int| 0 <= i < d.len() ==> is_hex_digit(#[trigger] d[i])
}

/// The colour a hex field holds: an optional `#`, then six hex digits; written back as
/// `#` and the digits in lower case.
pub open spec fn hex_colour(text: Seq<char>) -> Option<Seq<char>> {
    let d = if has_prefix(text, "#"@) {
        text.skip(1)
    } else {
        text
    };
    if d.len() == 6 && all_hex(d) {
        Some("#"@ + crate::strs::ascii_lower_seq(d))
    } else {
        None
    }
}

/// Colour `hex` for `target`: a Style token (`sy:<scope>:<token>`) or a param
/// (`p:<id>:<name>`); anything else takes none.
pub open spec fn colour_cmds(target: Seq<char>, hex: Seq<char>) -> Seq<CmdView> {
    if has_prefix(target, "sy:"@) && split_once(target.skip(3), ':') is Some {
        match split_once(target.skip(3), ':') {
            Some((sc, tok)) => seq![CmdView::Style(scope_of(sc), tok, Some(hex))],
            None => Seq::empty(),
        }
    } else if has_prefix(target, "p:"@) && split_once(target.skip(2), ':') is Some {
        match split_once(target.skip(2), ':') {
            Some((id, name)) => seq![CmdView::Param(id, name, hex)],
            None => Seq::empty(),
        }
    } else {
        Seq::empty()
    }
}

/// What committing the field with key `k` does.
pub open spec fn commit_of(k: Seq<char>) -> Commit {
    if has_prefix(k, "q:"@) {
        Commit::Query
    } else if has_prefix(k, "hx:"@) {
        Commit::Colour(k.skip(3))
    } else if has_prefix(k, "n:"@) && split_once(k.skip(2), ':') is Some {
        match split_once(k.skip(2), ':') {
            Some((id, name)) => Commit::Param(id, name),
            None => Commit::Nothing,
        }
    } else if (has_prefix(k, "sn:"@) || has_prefix(k, "st:"@)) && split_once(k.skip(3), ':') is Some {
        match split_once(k.skip(3), ':') {
            Some((id, idx)) => Commit::Row(id, idx, has_prefix(k, "sn:"@)),
            None => Commit::Nothing,
        }
    } else {
        Commit::Nothing
    }
}

/// The focused field's key, text, UTF-8 bytes and caret; nothing when none has the focus.
pub open spec fn focus_key(f: Flow) -> Seq<char> {
    match f.focus {
        Some((k, _)) => k@,
        None => Seq::empty(),
    }
}

pub open spec fn focus_chars(f: Flow) -> Seq<char> {
    match f.focus {
        Some((_, t)) => t.chars(),
        None => Seq::empty(),
    }
}

pub open spec fn focus_bytes(f: Flow) -> Seq<u8> {
    match f.focus {
        Some((_, t)) => t.bytes(),
        None => Seq::empty(),
    }
}

pub open spec fn focus_at(f: Flow) -> int {
    match f.focus {
        Some((_, t)) => t.at(),
        None => 0,
    }
}

/// The key of the open dropdown, if a dropdown is open.
pub open spec fn dropdown_open(f: Flow) -> Option<Seq<char>> {
    match f.popup {
        Some(Popup::Dropdown(k)) => Some(k@),
        _ => None,
    }
}

/// The focused field can take the text a key would put in it.
pub open spec fn key_fits(f: Flow, key: Key) -> bool {
    match key {
        Key::Edit(EditKey::Paste(Some(t))) => utf8(focus_chars(f)).len() + utf8(t@).len() <= usize::MAX,
        Key::Edit(EditKey::Type(t)) => utf8(focus_chars(f)).len() + utf8(t@).len() <= usize::MAX,
        _ => true,
    }
}

/// After a field with key `k` changed (or not) to `text`: the search texts go from `qs`
/// to `nqs`, and the commands are `r`.
pub open spec fn committed(
    k: Seq<char>,
    text: Seq<char>,
    changed: bool,
    qs: Seq<(String, String)>,
    nqs: Seq<(String, String)>,
    facts: Facts,
    r: Option<Seq<CmdView>>,
) -> bool {
    if !changed {
        nqs == qs && r == Some(Seq::<CmdView>::empty())
    } else {
        match commit_of(k) {
            Commit::Query => r == Some(Seq::<CmdView>::empty()) && forall|k2: Seq<char>| #[trigger]
                query_of(nqs, k2) == if k2 == k {
                    text
                } else {
                    query_of(qs, k2)
                },
            Commit::Colour(target) => nqs == qs && r == Some(
                match hex_colour(text) {
                    Some(hex) => colour_cmds(target, hex),
                    None => Seq::<CmdView>::empty(),
                },
            ),
            Commit::Param(id, name) => nqs == qs && r == Some(seq![CmdView::Param(id, name, text)]),
            Commit::Row(id, idx, name) => nqs == qs && r == Some(
                {
                    let rows = rows_view(rows_of(facts, id));
                    match row_of(idx, rows.len()) {
                        Some(i) => seq![CmdView::Items(id, row_edit(rows, i as int, name, text))],
                        None => Seq::<CmdView>::empty(),
                    }
                },
            ),
            Commit::Nothing => nqs == qs && r == Some(Seq::<CmdView>::empty()),
        }
    }
}

/// A key `e` went to the focused field of `old`, leaving `new`: the field keeps its key
/// and is edited as `edits_to` says, and the change is committed as `committed` says.
pub open spec fn typed(old: Flow, e: EditKey, new: Flow, facts: Facts, r: Option<Seq<CmdView>>) -> bool {
    &&& old.focus is Some && new.focus is Some
    &&& focus_key(new) == focus_key(old)
    &&& new.popup == old.popup
    &&& {
        ||| edits_to(focus_bytes(old), focus_at(old), e, focus_bytes(new), focus_at(new), true)
            && committed(focus_key(old), focus_chars(new), true, old.queries@, new.queries@, facts, r)
        ||| edits_to(focus_bytes(old), focus_at(old), e, focus_bytes(new), focus_at(new), false)
            && committed(focus_key(old), focus_chars(new), false, old.queries@, new.queries@, facts, r)
    }
}

/// An optional string by its chars.
pub open spec fn opt_view(o: Option<String>) -> Option<Seq<char>> {
    match o {
        Some(s) => Some(s@),
        None => None,
    }
}

/// Verbs whose actions leave the focused field focused.
pub open spec fn keeps_focus(v: Verb) -> bool {
    v == Verb::Input || v == Verb::Slider || v == Verb::ColorSv || v == Verb::ColorHue || v == Verb::ColorSet
        || v == Verb::Pick || v == Verb::PopupClose || v == Verb::Drag
}

/// Verbs the app decides itself: they need a file dialog, the clipboard or the colour
/// picker's colours.
pub open spec fn app_verb(v: Verb) -> bool {
    v == Verb::ColorPicker || v == Verb::ColorSv || v == Verb::ColorHue || v == Verb::ColorSet || v == Verb::Folder
        || v == Verb::File || v == Verb::ShortcutAdd || v == Verb::ShortcutBrowse || v == Verb::LogCopy
        || v == Verb::PluginInstall
}

/// The Instance facts of `id`, first of that id.
pub open spec fn instance_of(fs: Seq<InstanceFacts>, id: Seq<char>) -> int
    decreases fs.len(),
{
    if fs.len() == 0 {
        -1
    } else {
        let k = instance_of(fs.drop_last(), id);
        if k >= 0 {
            k
        } else if fs.last().id@ == id {
            fs.len() - 1
        } else {
            -1
        }
    }
}

proof fn lemma_instance_of(fs: Seq<InstanceFacts>, id: Seq<char>)
    ensures
        -1 <= instance_of(fs, id) < fs.len(),
        instance_of(fs, id) >= 0 ==> fs[instance_of(fs, id)].id@ == id,
        forall|j: int| 0 <= j < fs.len() && (instance_of(fs, id) == -1 || j < instance_of(fs, id)) ==> fs[j].id@ != id,
    decreases fs.len(),
{
    if fs.len() > 0 {
        let p = fs.drop_last();
        lemma_instance_of(p, id);
        assert forall|j: int| 0 <= j < fs.len() && (instance_of(fs, id) == -1 || j < instance_of(fs, id)) implies fs[j].id@ != id by {
            if j < p.len() {
                assert(p[j] == fs[j]);
            }
        }
    }
}

fn find_instance(fs: &Vec<InstanceFacts>, id: &str) -> (r: Option<usize>)
    ensures
        match r {
            Some(i) => i == instance_of(fs@, id@) && i < fs.len(),
            None => instance_of(fs@, id@) == -1,
        },
{
    proof {
        lemma_instance_of(fs@, id@);
    }
    let mut i: usize = 0;
    while i < fs.len()
        invariant
            i <= fs.len(),
            forall|j: int| 0 <= j < i ==> fs@[j].id@ != id@,
        decreases fs.len() - i,
    {
        if str_eq(fs[i].id.as_str(), id) {
            proof {
                lemma_instance_of(fs@, id@);
                let f = instance_of(fs@, id@);
                if f >= 0 && f < i {
                    assert(fs@[f].id@ == id@);
                }
            }
            return Some(i);
        }
        i += 1;
    }
    proof {
        let f = instance_of(fs@, id@);
        if f >= 0 {
            assert(fs@[f].id@ == id@);
        }
    }
    None
}

/// Where Plugin `id` first is in the list, or -1.
pub open spec fn plugin_of(ps: Seq<(String, bool)>, id: Seq<char>) -> int
    decreases ps.len(),
{
    if ps.len() == 0 {
        -1
    } else {
        let k = plugin_of(ps.drop_last(), id);
        if k >= 0 {
            k
        } else if ps.last().0@ == id {
            ps.len() - 1
        } else {
            -1
        }
    }
}

proof fn lemma_plugin_of(ps: Seq<(String, bool)>, id: Seq<char>)
    ensures
        -1 <= plugin_of(ps, id) < ps.len(),
        plugin_of(ps, id) >= 0 ==> ps[plugin_of(ps, id)].0@ == id,
        forall|j: int| 0 <= j < ps.len() && (plugin_of(ps, id) == -1 || j < plugin_of(ps, id)) ==> ps[j].0@ != id,
    decreases ps.len(),
{
    if ps.len() > 0 {
        let p = ps.drop_last();
        lemma_plugin_of(p, id);
        assert forall|j: int| 0 <= j < ps.len() && (plugin_of(ps, id) == -1 || j < plugin_of(ps, id)) implies ps[j].0@ != id by {
            if j < p.len() {
                assert(p[j] == ps[j]);
            }
        }
    }
}

fn find_plugin(ps: &Vec<(String, bool)>, id: &str) -> (r: Option<usize>)
    ensures
        match r {
            Some(i) => i == plugin_of(ps@, id@) && i < ps.len(),
            None => plugin_of(ps@, id@) == -1,
        },
{
    proof {
        lemma_plugin_of(ps@, id@);
    }
    let mut i: usize = 0;
    while i < ps.len()
        invariant
            i <= ps.len(),
            forall|j: int| 0 <= j < i ==> ps@[j].0@ != id@,
        decreases ps.len() - i,
    {
        if str_eq(ps[i].0.as_str(), id) {
            proof {
                lemma_plugin_of(ps@, id@);
                let f = plugin_of(ps@, id@);
                if f >= 0 && f < i {
                    assert(ps@[f].0@ == id@);
                }
            }
            return Some(i);
        }
        i += 1;
    }
    proof {
        let f = plugin_of(ps@, id@);
        if f >= 0 {
            assert(ps@[f].0@ == id@);
        }
    }
    None
}

/// Some strings by their chars.
pub open spec fn strings_view(v: Seq<String>) -> Seq<Seq<char>> {
    v.map_values(|s: String| s@)
}

/// The ids of the Instances.
pub open spec fn instance_ids(fs: Seq<InstanceFacts>) -> Seq<Seq<char>> {
    fs.map_values(|f: InstanceFacts| f.id@)
}

/// See `hex_colour`.
fn hex_of(text: &str) -> (r: Option<String>)
    ensures
        match r {
            Some(h) => hex_colour(text@) == Some(h@),
            None => hex_colour(text@) is None,
        },
{
    proof {
        reveal_strlit("#");
    }
    let d = if starts_with(text, "#") {
        after(text, 1)
    } else {
        String::from_str(text)
    };
    let cs = chars_of(d.as_str());
    if cs.len() != 6 {
        return None;
    }
    let ghost dd = if has_prefix(text@, "#"@) {
        text@.skip(1)
    } else {
        text@
    };
    assert(cs@ == dd);
    let mut i: usize = 0;
    while i < 6
        invariant
            i <= 6,
            cs.len() == 6,
            cs@ == dd,
            dd == (if has_prefix(text@, "#"@) {
                text@.skip(1)
            } else {
                text@
            }),
            forall|j: int| 0 <= j < i ==> is_hex_digit(#[trigger] cs@[j]),
        decreases 6 - i,
    {
        let c = cs[i];
        if !(('0' <= c && c <= '9') || ('a' <= c && c <= 'f') || ('A' <= c && c <= 'F')) {
            assert(!is_hex_digit(dd[i as int]));
            assert(!all_hex(dd));
            return None;
        }
        i += 1;
    }
    let lower = crate::strs::lower_ascii(d.as_str());
    Some(concat("#", lower.as_str()))
}

/// See `colour_cmds`.
fn colour(target: &str, hex: String) -> (r: Vec<Cmd>)
    ensures
        r@.map_values(|c: Cmd| c@) == colour_cmds(target@, hex@),
{
    proof {
        reveal_strlit("sy:");
        reveal_strlit("p:");
    }
    if starts_with(target, "sy:") {
        if let Some((sc, tok)) = split_at_char(after(target, 3).as_str(), ':') {
            let r = vec![Cmd::Style(Scope::parse(sc.as_str()), tok, Some(hex))];
            assert(r@.map_values(|c: Cmd| c@) =~= colour_cmds(target@, hex@));
            return r;
        }
    }
    if starts_with(target, "p:") {
        if let Some((id, name)) = split_at_char(after(target, 2).as_str(), ':') {
            let r = vec![Cmd::Param(id, name, hex)];
            assert(r@.map_values(|c: Cmd| c@) =~= colour_cmds(target@, hex@));
            return r;
        }
    }
    let r: Vec<Cmd> = Vec::new();
    assert(r@.map_values(|c: Cmd| c@) =~= colour_cmds(target@, hex@));
    r
}

/// `<target>|<hex>` sets the colour of a Style token or a param as given.
pub open spec fn set_colour_cmds(rest: Seq<char>) -> Seq<CmdView> {
    match split_once(rest, '|') {
        Some((target, hex)) => colour_cmds(target, hex),
        None => Seq::empty(),
    }
}

/// See `set_colour_cmds`.
fn set_colour(rest: &str) -> (r: Vec<Cmd>)
    ensures
        r@.map_values(|c: Cmd| c@) == set_colour_cmds(rest@),
{
    match split_at_char(rest, '|') {
        Some((target, hex)) => colour(target.as_str(), hex),
        None => no_cmds(),
    }
}

/// No commands.
fn no_cmds() -> (r: Vec<Cmd>)
    ensures
        r@.map_values(|c: Cmd| c@) == Seq::<CmdView>::empty(),
{
    let r: Vec<Cmd> = Vec::new();
    assert(r@.map_values(|c: Cmd| c@) =~= Seq::<CmdView>::empty());
    r
}

/// One `LayoutReset` of Instance `id` for each tier.
fn reset_cmds(id: &str, tiers: &Vec<String>) -> (r: Vec<Cmd>)
    ensures
        r@.map_values(|c: Cmd| c@) == reset_all(id@, strings_view(tiers@)),
{
    let mut r: Vec<Cmd> = Vec::new();
    let mut j: usize = 0;
    while j < tiers.len()
        invariant
            j <= tiers.len(),
            r.len() == j,
            forall|i: int| 0 <= i < j ==> (#[trigger] r@[i])@ == CmdView::LayoutReset(id@, tiers@[i]@),
        decreases tiers.len() - j,
    {
        r.push(Cmd::LayoutReset(String::from_str(id), tiers[j].clone()));
        j += 1;
    }
    assert(r@.map_values(|c: Cmd| c@) =~= reset_all(id@, strings_view(tiers@)));
    r
}

/// The Instances' ids, in order.
fn ids_in(fs: &Vec<InstanceFacts>) -> (r: Vec<String>)
    ensures
        r.len() == fs.len(),
        ids_of(r@) == instance_ids(fs@),
{
    let mut r: Vec<String> = Vec::new();
    let mut j: usize = 0;
    while j < fs.len()
        invariant
            j <= fs.len(),
            r.len() == j,
            forall|i: int| 0 <= i < j ==> (#[trigger] r@[i])@ == fs@[i].id@,
        decreases fs.len() - j,
    {
        r.push(fs[j].id.clone());
        j += 1;
    }
    assert(ids_of(r@) =~= instance_ids(fs@));
    r
}

/// What a dropdown's key picks a value for.
pub enum PickTarget {
    /// `z:<id>`: an Instance's layer.
    Layer(Seq<char>),
    /// `gpu`: the adapter.
    Gpu,
    /// `th:<axis>`: a global theme axis.
    Theme(Seq<char>),
    /// `sy:<scope>:<token>`: a Style token.
    Style(Seq<char>, Seq<char>),
    /// `tp:<id>:<axis>`: an Instance's own theme axis.
    Own(Seq<char>, Seq<char>),
    /// `p:<id>:<name>`: an Instance's param.
    Param(Seq<char>, Seq<char>),
    Nothing,
}

/// What the dropdown with key `key` picks for.
pub open spec fn pick_target(key: Seq<char>) -> PickTarget {
    if has_prefix(key, "z:"@) {
        PickTarget::Layer(key.skip(2))
    } else if key == "gpu"@ {
        PickTarget::Gpu
    } else if has_prefix(key, "th:"@) {
        PickTarget::Theme(key.skip(3))
    } else if has_prefix(key, "sy:"@) && split_once(key.skip(3), ':') is Some {
        match split_once(key.skip(3), ':') {
            Some((sc, tok)) => PickTarget::Style(sc, tok),
            None => PickTarget::Nothing,
        }
    } else if has_prefix(key, "tp:"@) && split_once(key.skip(3), ':') is Some {
        match split_once(key.skip(3), ':') {
            Some((id, axis)) => PickTarget::Own(id, axis),
            None => PickTarget::Nothing,
        }
    } else if has_prefix(key, "p:"@) && split_once(key.skip(2), ':') is Some {
        match split_once(key.skip(2), ':') {
            Some((id, name)) => PickTarget::Param(id, name),
            None => PickTarget::Nothing,
        }
    } else {
        PickTarget::Nothing
    }
}

/// Empty text is no choice: what the scope inherits.
pub open spec fn text_or_none(v: Seq<char>) -> Option<Seq<char>> {
    if v.len() == 0 {
        None
    } else {
        Some(v)
    }
}

/// The commands of picking `value` in the dropdown with key `key`.
pub open spec fn pick_cmds(key: Seq<char>, value: Seq<char>, theme: Selection) -> Seq<CmdView> {
    match pick_target(key) {
        PickTarget::Layer(id) => seq![CmdView::Z(id, value)],
        PickTarget::Gpu => seq![CmdView::Gpu(value)],
        PickTarget::Theme(axis) => if axis == "palette"@ {
            seq![CmdView::Theme(value, theme.fonts@, theme.glyphs@, theme.icon_pack@)]
        } else if axis == "fonts"@ {
            seq![CmdView::Theme(theme.palette@, value, theme.glyphs@, theme.icon_pack@)]
        } else if axis == "glyphs"@ {
            seq![CmdView::Theme(theme.palette@, theme.fonts@, value, theme.icon_pack@)]
        } else if axis == "pack"@ {
            seq![CmdView::Theme(theme.palette@, theme.fonts@, theme.glyphs@, value)]
        } else {
            Seq::empty()
        },
        PickTarget::Style(sc, tok) => seq![CmdView::Style(scope_of(sc), tok, text_or_none(value))],
        PickTarget::Own(id, axis) => seq![CmdView::ThemePick(id, axis, text_or_none(value))],
        PickTarget::Param(id, name) => seq![CmdView::Param(id, name, value)],
        PickTarget::Nothing => Seq::empty(),
    }
}

/// The axes an Instance picks itself, in the order palette, fonts, glyphs, pack.
pub open spec fn picked_axes(p: ThemePick) -> Seq<Seq<char>> {
    (if p.palette is Some {
        seq!["palette"@]
    } else {
        Seq::empty()
    }) + (if p.fonts is Some {
        seq!["fonts"@]
    } else {
        Seq::empty()
    }) + (if p.glyphs is Some {
        seq!["glyphs"@]
    } else {
        Seq::empty()
    }) + (if p.icon_pack is Some {
        seq!["pack"@]
    } else {
        Seq::empty()
    })
}

/// Resetting each of `tokens` in `scope`.
pub open spec fn style_resets(scope: Option<Seq<char>>, tokens: Seq<Seq<char>>) -> Seq<CmdView> {
    tokens.map_values(|t: Seq<char>| CmdView::Style(scope, t, None))
}

/// The shortcut rows of Instance `id`; none when there is no such Instance.
pub open spec fn rows_of(facts: Facts, id: Seq<char>) -> Seq<Shortcut> {
    let k = instance_of(facts.instances@, id);
    if k >= 0 {
        facts.instances@[k].items@
    } else {
        Seq::empty()
    }
}

/// `<id>|<param>` toggled: the param set to the opposite of whether it is on, when the
/// Instance's Widget declares it.
pub open spec fn toggle_cmds(rest: Seq<char>, facts: Facts) -> Seq<CmdView> {
    match split_once(rest, '|') {
        None => Seq::empty(),
        Some((id, name)) => {
            let k = instance_of(facts.instances@, id);
            if k >= 0 {
                match value_of(facts.instances@[k].flags@, name) {
                    Some(on) => seq![CmdView::ParamFlag(id, name, !on)],
                    None => Seq::empty(),
                }
            } else {
                Seq::empty()
            }
        },
    }
}

/// Whether Style token `t` is on in the composed Style of a scope: the Instance's when
/// there is one with that id, else the Workspace's.
pub open spec fn style_is_on(facts: Facts, scope: Option<Seq<char>>, t: Seq<char>) -> bool {
    let k = match scope {
        Some(id) => instance_of(facts.instances@, id),
        None => -1,
    };
    if k >= 0 {
        strings_view(facts.instances@[k].style_on@).contains(t)
    } else {
        strings_view(facts.style_on@).contains(t)
    }
}

/// `<scope>|<token>` toggled: the token set to the opposite of whether it is on there.
pub open spec fn style_flip_cmds(rest: Seq<char>, facts: Facts) -> Seq<CmdView> {
    match split_once(rest, '|') {
        None => Seq::empty(),
        Some((sc, t)) => seq![CmdView::StyleFlag(scope_of(sc), t, !style_is_on(facts, scope_of(sc), t))],
    }
}

/// `<id>|<row>` deleted: the Instance's rows without that one, when it has such a row.
pub open spec fn row_delete_cmds(rest: Seq<char>, facts: Facts) -> Seq<CmdView> {
    match split_once(rest, '|') {
        None => Seq::empty(),
        Some((id, idx)) => {
            let rows = rows_view(rows_of(facts, id));
            match row_of(idx, rows.len()) {
                Some(i) => seq![CmdView::Items(id, rows.remove(i as int))],
                None => Seq::empty(),
            }
        },
    }
}

/// The rows with row `i`'s name (or target) set to `text`.
pub open spec fn row_edit(rows: Seq<(Seq<char>, Seq<char>, Seq<char>)>, i: int, name: bool, text: Seq<char>) -> Seq<(Seq<char>, Seq<char>, Seq<char>)> {
    rows.update(
        i,
        if name {
            (text, rows[i].1, rows[i].2)
        } else {
            (rows[i].0, text, rows[i].2)
        },
    )
}

/// How many items the dropdown with key `key` lists; none when it is not listed.
pub open spec fn dropdown_len(facts: Facts, key: Seq<char>) -> nat {
    match value_of(facts.dropdowns@, key) {
        Some(n) => n as nat,
        None => 0,
    }
}

fn copy_row(r: &Shortcut) -> (c: Shortcut)
    ensures
        c.name@ == r.name@ && c.target@ == r.target@ && c.icon@ == r.icon@,
{
    Shortcut { name: r.name.clone(), target: r.target.clone(), icon: r.icon.clone() }
}

/// The shortcut rows of Instance `id`, copied.
fn rows_for(facts: &Facts, id: &str) -> (r: Vec<Shortcut>)
    ensures
        rows_view(r@) == rows_view(rows_of(*facts, id@)),
{
    match find_instance(&facts.instances, id) {
        None => {
            let r: Vec<Shortcut> = Vec::new();
            assert(rows_view(r@) =~= rows_view(rows_of(*facts, id@)));
            r
        },
        Some(k) => {
            let src = &facts.instances[k].items;
            let mut r: Vec<Shortcut> = Vec::new();
            let mut j: usize = 0;
            while j < src.len()
                invariant
                    j <= src.len(),
                    r.len() == j,
                    forall|x: int| 0 <= x < j ==> rows_view(r@)[x] == rows_view(src@)[x],
                decreases src.len() - j,
            {
                r.push(copy_row(&src[j]));
                j += 1;
            }
            assert(rows_view(r@) =~= rows_view(src@));
            r
        },
    }
}

/// The commands of a `tog:` action: see `toggle_cmds`.
fn toggle(rest: &str, facts: &Facts) -> (r: Vec<Cmd>)
    ensures
        r@.map_values(|c: Cmd| c@) == toggle_cmds(rest@, *facts),
{
    if let Some((id, name)) = split_at_char(rest, '|') {
        if let Some(k) = find_instance(&facts.instances, id.as_str()) {
            if let Some(on) = find_value(&facts.instances[k].flags, name.as_str()) {
                let r = vec![Cmd::ParamFlag(id, name, !on)];
                assert(r@.map_values(|c: Cmd| c@) =~= toggle_cmds(rest@, *facts));
                return r;
            }
        }
    }
    let r: Vec<Cmd> = Vec::new();
    assert(r@.map_values(|c: Cmd| c@) =~= toggle_cmds(rest@, *facts));
    r
}

fn contains_str(v: &Vec<String>, x: &str) -> (b: bool)
    ensures
        b == strings_view(v@).contains(x@),
{
    let mut i: usize = 0;
    while i < v.len()
        invariant
            i <= v.len(),
            forall|j: int| 0 <= j < i ==> v@[j]@ != x@,
        decreases v.len() - i,
    {
        if str_eq(v[i].as_str(), x) {
            assert(strings_view(v@)[i as int] == x@);
            return true;
        }
        i += 1;
    }
    proof {
        if strings_view(v@).contains(x@) {
            let j = choose|j: int| 0 <= j < strings_view(v@).len() && strings_view(v@)[j] == x@;
            assert(v@[j]@ == x@);
        }
    }
    false
}

/// The commands of a `sy:` action: see `style_flip_cmds`.
fn flip_style(rest: &str, facts: &Facts) -> (r: Vec<Cmd>)
    ensures
        r@.map_values(|c: Cmd| c@) == style_flip_cmds(rest@, *facts),
{
    match split_at_char(rest, '|') {
        None => {
            let r: Vec<Cmd> = Vec::new();
            assert(r@.map_values(|c: Cmd| c@) =~= style_flip_cmds(rest@, *facts));
            r
        },
        Some((sc, t)) => {
            let scope = Scope::parse(sc.as_str());
            let k = match &scope {
                Scope::Instance(id) => find_instance(&facts.instances, id.as_str()),
                Scope::Global => None,
            };
            let on = match k {
                Some(k) => contains_str(&facts.instances[k].style_on, t.as_str()),
                None => contains_str(&facts.style_on, t.as_str()),
            };
            let r = vec![Cmd::StyleFlag(scope, t, !on)];
            assert(r@.map_values(|c: Cmd| c@) =~= style_flip_cmds(rest@, *facts));
            r
        },
    }
}

/// The commands of a `scdel:` action: see `row_delete_cmds`.
fn delete_row(rest: &str, facts: &Facts) -> (r: Vec<Cmd>)
    ensures
        r@.map_values(|c: Cmd| c@) == row_delete_cmds(rest@, *facts),
{
    if let Some((id, idx)) = split_at_char(rest, '|') {
        let mut rows = rows_for(facts, id.as_str());
        if let Some(i) = row_index(idx.as_str(), rows.len()) {
            let ghost before = rows_view(rows@);
            rows.remove(i);
            assert(rows_view(rows@) =~= before.remove(i as int));
            let r = vec![Cmd::Items(id, rows)];
            assert(r@.map_values(|c: Cmd| c@) =~= row_delete_cmds(rest@, *facts));
            return r;
        }
    }
    let r: Vec<Cmd> = Vec::new();
    assert(r@.map_values(|c: Cmd| c@) =~= row_delete_cmds(rest@, *facts));
    r
}

/// A folder or file picked for param `<id>|<name>`: the param set to its path; nothing
/// when the dialog was cancelled.
pub open spec fn picked_path_cmds(rest: Seq<char>, path: Option<Seq<char>>) -> Seq<CmdView> {
    match (split_once(rest, '|'), path) {
        (Some((id, name)), Some(p)) => seq![CmdView::Param(id, name, p)],
        _ => Seq::empty(),
    }
}

/// What a folder or file dialog opened for `<id>|<name>` sets, given what was picked.
pub fn picked_path(rest: &str, path: Option<&str>) -> (r: Vec<Cmd>)
    ensures
        r@.map_values(|c: Cmd| c@) == picked_path_cmds(rest@, opt_str(path)),
{
    match (split_at_char(rest, '|'), path) {
        (Some((id, name)), Some(p)) => {
            let r = vec![Cmd::Param(id, name, String::from_str(p))];
            assert(r@.map_values(|c: Cmd| c@) =~= picked_path_cmds(rest@, opt_str(path)));
            r
        },
        _ => no_cmds(),
    }
}

/// An optional text by its chars.
pub open spec fn opt_str(o: Option<&str>) -> Option<Seq<char>> {
    match o {
        Some(s) => Some(s@),
        None => None,
    }
}

/// A file picked to add to Instance `id`'s shortcuts: a row after the others, named by
/// the file's stem, aimed at its path, with no icon.
pub open spec fn shortcut_added_cmds(id: Seq<char>, path: Option<Seq<char>>, facts: Facts) -> Seq<CmdView> {
    match path {
        Some(p) => seq![CmdView::Items(id, rows_view(rows_of(facts, id)).push((stem(p), p, Seq::empty())))],
        None => Seq::empty(),
    }
}

/// What adding a shortcut to Instance `id` does, given the file picked.
pub fn shortcut_added(id: &str, path: Option<&str>, facts: &Facts) -> (r: Vec<Cmd>)
    ensures
        r@.map_values(|c: Cmd| c@) == shortcut_added_cmds(id@, opt_str(path), *facts),
{
    match path {
        Some(p) => {
            let mut rows = rows_for(facts, id);
            let ghost before = rows_view(rows@);
            rows.push(Shortcut { name: file_stem(p), target: String::from_str(p), icon: String::new() });
            assert(rows_view(rows@) =~= before.push((stem(p@), p@, Seq::empty())));
            let r = vec![Cmd::Items(String::from_str(id), rows)];
            assert(r@.map_values(|c: Cmd| c@) =~= shortcut_added_cmds(id@, opt_str(path), *facts));
            r
        },
        None => no_cmds(),
    }
}

/// A file picked as the target of shortcut row `<id>|<index>`: the row aims at its path,
/// and takes the path's stem as its name when it has none.
pub open spec fn shortcut_browsed_cmds(rest: Seq<char>, path: Option<Seq<char>>, facts: Facts) -> Seq<CmdView> {
    match (split_once(rest, '|'), path) {
        (Some((id, idx)), Some(p)) => {
            let rows = rows_view(rows_of(facts, id));
            match row_of(idx, rows.len()) {
                Some(i) => {
                    let row = rows[i as int];
                    let name = if row.0.len() == 0 {
                        stem(p)
                    } else {
                        row.0
                    };
                    seq![CmdView::Items(id, rows.update(i as int, (name, p, row.2)))]
                },
                None => Seq::empty(),
            }
        },
        _ => Seq::empty(),
    }
}

/// What picking a target for shortcut row `<id>|<index>` does, given the file picked.
pub fn shortcut_browsed(rest: &str, path: Option<&str>, facts: &Facts) -> (r: Vec<Cmd>)
    ensures
        r@.map_values(|c: Cmd| c@) == shortcut_browsed_cmds(rest@, opt_str(path), *facts),
{
    if let (Some((id, idx)), Some(p)) = (split_at_char(rest, '|'), path) {
        let mut rows = rows_for(facts, id.as_str());
        if let Some(i) = row_index(idx.as_str(), rows.len()) {
            let ghost before = rows_view(rows@);
            let name = if rows[i].name.as_str().is_empty() {
                file_stem(p)
            } else {
                rows[i].name.clone()
            };
            let icon = rows[i].icon.clone();
            rows.set(i, Shortcut { name, target: String::from_str(p), icon });
            proof {
                let row = before[i as int];
                assert(rows_view(rows@) =~= before.update(
                    i as int,
                    (
                        if row.0.len() == 0 {
                            stem(p@)
                        } else {
                            row.0
                        },
                        p@,
                        row.2,
                    ),
                ));
            }
            let r = vec![Cmd::Items(id, rows)];
            assert(r@.map_values(|c: Cmd| c@) =~= shortcut_browsed_cmds(rest@, opt_str(path), *facts));
            return r;
        }
    }
    let r: Vec<Cmd> = Vec::new();
    assert(r@.map_values(|c: Cmd| c@) =~= shortcut_browsed_cmds(rest@, opt_str(path), *facts));
    r
}

/// A Plugin file picked to install; nothing when the dialog was cancelled.
pub fn plugin_picked(path: Option<&str>) -> (r: Vec<Cmd>)
    ensures
        r@.map_values(|c: Cmd| c@) == match path {
            Some(p) => seq![CmdView::InstallPlugin(p@)],
            None => Seq::<CmdView>::empty(),
        },
{
    match path {
        Some(p) => {
            let r = vec![Cmd::InstallPlugin(String::from_str(p))];
            assert(r@.map_values(|c: Cmd| c@) =~= seq![CmdView::InstallPlugin(p@)]);
            r
        },
        None => no_cmds(),
    }
}

/// `<scope>|<token>` reset: that token, or with `*` every token the scope sets and, for an
/// Instance, each axis it picks itself.
pub open spec fn reset_style_cmds(rest: Seq<char>, facts: Facts) -> Seq<CmdView> {
    match split_once(rest, '|') {
        None => Seq::empty(),
        Some((sc, tok)) => if tok != "*"@ {
            seq![CmdView::Style(scope_of(sc), tok, None)]
        } else {
            match scope_of(sc) {
                None => style_resets(None, strings_view(facts.style@)),
                Some(id) => {
                    let k = instance_of(facts.instances@, id);
                    if k >= 0 {
                        style_resets(Some(id), strings_view(facts.instances@[k].style@)) + picked_axes(
                            facts.instances@[k].theme,
                        ).map_values(|a: Seq<char>| CmdView::ThemePick(id, a, None))
                    } else {
                        Seq::empty()
                    }
                },
            }
        },
    }
}

/// `s` from its `n`-th char on.
fn after(s: &str, n: usize) -> (r: String)
    requires
        n <= s@.len(),
    ensures
        r@ == s@.skip(n as int),
{
    let cs = chars_of(s);
    let r = string_of_range(&cs, n, cs.len());
    assert(cs@.subrange(n as int, cs.len() as int) =~= s@.skip(n as int));
    r
}

fn copy_scope(s: &Scope) -> (r: Scope)
    ensures
        scope_view(r) == scope_view(*s),
{
    match s {
        Scope::Global => Scope::Global,
        Scope::Instance(id) => Scope::Instance(id.clone()),
    }
}

/// A reset of each token in `scope`.
fn style_reset_cmds(scope: &Scope, tokens: &Vec<String>) -> (r: Vec<Cmd>)
    ensures
        r@.map_values(|c: Cmd| c@) == style_resets(scope_view(*scope), strings_view(tokens@)),
{
    let mut r: Vec<Cmd> = Vec::new();
    let mut j: usize = 0;
    while j < tokens.len()
        invariant
            j <= tokens.len(),
            r.len() == j,
            forall|i: int| 0 <= i < j ==> (#[trigger] r@[i])@ == CmdView::Style(scope_view(*scope), tokens@[i]@, None),
        decreases tokens.len() - j,
    {
        r.push(Cmd::Style(copy_scope(scope), tokens[j].clone(), None));
        j += 1;
    }
    assert(r@.map_values(|c: Cmd| c@) =~= style_resets(scope_view(*scope), strings_view(tokens@)));
    r
}

/// The commands of a `syreset:` action: see `reset_style_cmds`.
pub fn reset_style(rest: &str, facts: &Facts) -> (r: Vec<Cmd>)
    ensures
        r@.map_values(|c: Cmd| c@) == reset_style_cmds(rest@, *facts),
{
    let (sc, tok) = match split_at_char(rest, '|') {
        Some(p) => p,
        None => {
            return Vec::new();
        },
    };
    let scope = Scope::parse(sc.as_str());
    if !str_eq(tok.as_str(), "*") {
        let r = vec![Cmd::Style(scope, tok, None)];
        assert(r@.map_values(|c: Cmd| c@) =~= reset_style_cmds(rest@, *facts));
        return r;
    }
    match scope {
        Scope::Global => style_reset_cmds(&Scope::Global, &facts.style),
        Scope::Instance(id) => {
            match find_instance(&facts.instances, id.as_str()) {
                None => Vec::new(),
                Some(k) => {
                    let f = &facts.instances[k];
                    let mut r = style_reset_cmds(&Scope::Instance(id.clone()), &f.style);
                    let ghost resets = r@.map_values(|c: Cmd| c@);
                    let ghost axes = picked_axes(f.theme).map_values(|a: Seq<char>| CmdView::ThemePick(id@, a, None));
                    let mut picks: Vec<Cmd> = Vec::new();
                    if f.theme.palette.is_some() {
                        picks.push(Cmd::ThemePick(id.clone(), String::from_str("palette"), None));
                    }
                    if f.theme.fonts.is_some() {
                        picks.push(Cmd::ThemePick(id.clone(), String::from_str("fonts"), None));
                    }
                    if f.theme.glyphs.is_some() {
                        picks.push(Cmd::ThemePick(id.clone(), String::from_str("glyphs"), None));
                    }
                    if f.theme.icon_pack.is_some() {
                        picks.push(Cmd::ThemePick(id.clone(), String::from_str("pack"), None));
                    }
                    assert(picks@.map_values(|c: Cmd| c@) =~= axes);
                    r.append(&mut picks);
                    assert(r@.map_values(|c: Cmd| c@) =~= resets + axes);
                    r
                },
            }
        },
    }
}

impl Flow {
    /// The window as it opens: the Widgets page, nothing selected or open.
    pub fn new() -> (r: Flow)
        ensures
            r.page == Page::Widgets,
            r.selected is None && r.tier_tab is None && r.sel_module is None && r.category is None,
            !r.advanced && !r.adding,
            r.log_level is None,
            r.step == 0,
            r.popup is None && r.focus is None,
            r.armed() is None,
            !r.drop_hover && !r.gpu_picked,
            r.queries@.len() == 0,
    {
        Flow {
            page: Page::Widgets,
            selected: None,
            tier_tab: None,
            sel_module: None,
            advanced: false,
            adding: false,
            category: None,
            log_level: None,
            step: 0,
            popup: None,
            focus: None,
            confirm: Confirm::new(),
            drop_hover: false,
            gpu_picked: false,
            queries: Vec::new(),
        }
    }

    /// A text field has the focus, so the caret blinks.
    pub fn wants_caret(&self) -> (r: bool)
        ensures
            r == self.focus is Some,
    {
        self.focus.is_some()
    }

    /// A click on nothing takes the focus, but an open dropdown keeps its search.
    pub fn blur(&mut self)
        ensures
            old(self).is_searching() ==> final(self).focus == old(self).focus,
            !old(self).is_searching() ==> final(self).focus is None,
            final(self).popup == old(self).popup,
            final(self).page == old(self).page,
            final(self).armed() == old(self).armed(),
    {
        if !self.searching() {
            self.focus = None;
        }
    }

    /// A popup is open.
    pub fn has_popup(&self) -> (r: bool)
        ensures
            r == self.popup is Some,
    {
        self.popup.is_some()
    }

    /// The key of the node the open popup hangs from: the dropdown's own key, `cp:` and
    /// the colour's target, or nothing.
    pub fn anchor_key(&self) -> (r: String)
        ensures
            r@ == match self.popup {
                Some(Popup::Dropdown(k)) => k@,
                Some(Popup::Color(t)) => "cp:"@ + t@,
                None => Seq::<char>::empty(),
            },
    {
        match &self.popup {
            Some(Popup::Dropdown(k)) => k.clone(),
            Some(Popup::Color(t)) => concat("cp:", t.as_str()),
            None => String::new(),
        }
    }

    /// A file or folder dropped on the window is a Plugin to install: the Plugins page
    /// shows, with no popup over it.
    pub fn dropped(&mut self, path: &str) -> (r: Vec<Cmd>)
        ensures
            r@.map_values(|c: Cmd| c@) == seq![CmdView::InstallPlugin(path@)],
            !final(self).drop_hover,
            final(self).page == Page::Plugins,
            final(self).popup is None,
            final(self).selected == old(self).selected,
            final(self).step == old(self).step,
            final(self).armed() == old(self).armed(),
    {
        self.drop_hover = false;
        self.page = Page::Plugins;
        self.popup = None;
        let r = vec![Cmd::InstallPlugin(String::from_str(path))];
        assert(r@.map_values(|c: Cmd| c@) =~= seq![CmdView::InstallPlugin(path@)]);
        r
    }

    /// What a second click would remove.
    pub closed spec fn armed(&self) -> Option<Seq<char>> {
        self.confirm.armed_key()
    }

    /// A dropdown's search field has the focus.
    pub open spec fn is_searching(&self) -> bool {
        self.popup matches Some(Popup::Dropdown(_)) && self.focus matches Some((k, _)) && k@ == "q:dd"@
    }

    fn searching(&self) -> (r: bool)
        ensures
            r == self.is_searching(),
    {
        match (&self.popup, &self.focus) {
            (Some(Popup::Dropdown(_)), Some((k, _))) => str_eq(k.as_str(), "q:dd"),
            _ => false,
        }
    }

    /// Closes the open popup, and the dropdown search that goes with it.
    pub fn close_popup(&mut self)
        ensures
            final(self).popup is None,
            old(self).is_searching() ==> final(self).focus is None,
            !old(self).is_searching() ==> final(self).focus == old(self).focus,
            final(self).page == old(self).page,
            final(self).selected == old(self).selected,
            final(self).step == old(self).step,
            final(self).armed() == old(self).armed(),
            final(self).gpu_picked == old(self).gpu_picked,
    {
        if self.searching() {
            self.focus = None;
        }
        self.popup = None;
    }

    /// The text of search field `key`.
    pub fn query(&self, key: &str) -> (r: String)
        ensures
            r@ == query_of(self.queries@, key@),
    {
        proof {
            lemma_query_at(self.queries@, key@);
        }
        let mut i: usize = 0;
        while i < self.queries.len()
            invariant
                i <= self.queries.len(),
                forall|j: int| 0 <= j < i ==> self.queries@[j].0@ != key@,
            decreases self.queries.len() - i,
        {
            if str_eq(self.queries[i].0.as_str(), key) {
                proof {
                    lemma_query_at_is(self.queries@, key@, i as int);
                }
                return self.queries[i].1.clone();
            }
            i += 1;
        }
        proof {
            lemma_query_at_is(self.queries@, key@, -1);
        }
        String::new()
    }

    /// Opens the dropdown with key `key` over `n_items` items, or closes it when it is
    /// the one open; its search starts empty, and a list long enough to have a search
    /// opens with the search focused.
    pub fn open_dropdown(&mut self, key: &str, n_items: usize)
        ensures
            ({
                let opening = dropdown_open(*old(self)) != Some(key@);
                &&& opening ==> dropdown_open(*final(self)) == Some(key@)
                &&& !opening ==> final(self).popup is None
                &&& forall|k2: Seq<char>| #[trigger]
                    query_of(final(self).queries@, k2) == if k2 == "q:dd"@ {
                        Seq::<char>::empty()
                    } else {
                        query_of(old(self).queries@, k2)
                    }
                &&& opening && n_items > SEARCH_FROM ==> focus_key(*final(self)) == "q:dd"@ && final(self).focus is Some
                    && focus_chars(*final(self)).len() == 0 && focus_at(*final(self)) == 0
                &&& !(opening && n_items > SEARCH_FROM) ==> final(self).focus == old(self).focus
                &&& final(self).page == old(self).page && final(self).armed() == old(self).armed()
            }),
    {
        let opening = match &self.popup {
            Some(Popup::Dropdown(k)) => !str_eq(k.as_str(), key),
            _ => true,
        };
        self.popup = if opening {
            Some(Popup::Dropdown(String::from_str(key)))
        } else {
            None
        };
        set_query(&mut self.queries, String::from_str("q:dd"), String::new());
        if opening && n_items > SEARCH_FROM {
            self.focus = Some((String::from_str("q:dd"), TextField::new(String::new())));
        }
    }

    /// Gives the focus to the field with key `key` showing `text`, the caret at `caret`
    /// (kept within the text) or at the end; any popup but the dropdown's own search
    /// closes.
    pub fn focus_input(&mut self, key: String, text: String, caret: Option<usize>)
        requires
            utf8(text@).len() <= usize::MAX,
            caret is Some ==> is_char_boundary(utf8(text@), clamped(caret->0 as int, utf8(text@).len() as int)),
        ensures
            final(self).focus is Some,
            focus_key(*final(self)) == key@,
            focus_chars(*final(self)) == text@,
            focus_at(*final(self)) == match caret {
                Some(c) => clamped(c as int, utf8(text@).len() as int),
                None => utf8(text@).len() as int,
            },
            key@ != "q:dd"@ ==> final(self).popup is None,
            key@ == "q:dd"@ ==> final(self).popup == old(self).popup,
            final(self).page == old(self).page && final(self).armed() == old(self).armed(),
    {
        let len = text.as_str().len();
        let at = match caret {
            Some(c) => if c < len {
                c
            } else {
                len
            },
            None => len,
        };
        let dd = str_eq(key.as_str(), "q:dd");
        self.focus = Some((key, TextField::with_caret(text, at)));
        if !dd {
            self.popup = None;
        }
    }

    /// Commits the text of the field with key `k`: see `committed`.
    fn commit(&mut self, k: String, text: String, facts: &Facts) -> (r: Vec<Cmd>)
        ensures
            committed(k@, text@, true, old(self).queries@, final(self).queries@, *facts, cmds(Some(r))),
            final(self).page == old(self).page && final(self).popup == old(self).popup,
            final(self).focus == old(self).focus && final(self).armed() == old(self).armed(),
            final(self).gpu_picked == old(self).gpu_picked,
    {
        proof {
            reveal_strlit("q:");
            reveal_strlit("hx:");
            reveal_strlit("n:");
            reveal_strlit("sn:");
            reveal_strlit("st:");
        }
        let ks = k.as_str();
        if starts_with(ks, "q:") {
            set_query(&mut self.queries, k, text);
            return no_cmds();
        }
        if starts_with(ks, "hx:") {
            let target = after(ks, 3);
            return match hex_of(text.as_str()) {
                Some(hex) => colour(target.as_str(), hex),
                None => no_cmds(),
            };
        }
        if starts_with(ks, "n:") {
            if let Some((id, name)) = split_at_char(after(ks, 2).as_str(), ':') {
                let r = vec![Cmd::Param(id, name, text)];
                assert(r@.map_values(|c: Cmd| c@) =~= seq![r@[0]@]);
                return r;
            }
        }
        let name_field = starts_with(ks, "sn:");
        if name_field || starts_with(ks, "st:") {
            if let Some((id, idx)) = split_at_char(after(ks, 3).as_str(), ':') {
                let mut rows = rows_for(facts, id.as_str());
                return match row_index(idx.as_str(), rows.len()) {
                    Some(i) => {
                        let ghost before = rows_view(rows@);
                        let old_row = copy_row(&rows[i]);
                        let row = if name_field {
                            Shortcut { name: text, target: old_row.target, icon: old_row.icon }
                        } else {
                            Shortcut { name: old_row.name, target: text, icon: old_row.icon }
                        };
                        rows.set(i, row);
                        assert(rows_view(rows@) =~= row_edit(before, i as int, name_field, text@));
                        let r = vec![Cmd::Items(id, rows)];
                        assert(r@.map_values(|c: Cmd| c@) =~= seq![r@[0]@]);
                        r
                    },
                    None => no_cmds(),
                };
            }
        }
        no_cmds()
    }

    /// Takes a key: an open dropdown's search picks its first match on Enter or closes on
    /// Escape; without a focused field Escape closes the popup; Enter, Escape and Tab
    /// take the focus away; any other key edits the focused field (`edits_to`), and a
    /// change is committed (`committed`). The dropdown's items are `items`.
    pub fn on_key(&mut self, key: Key, items: &Vec<(String, String)>, facts: &Facts) -> (r: Vec<Cmd>)
        requires
            key_fits(*old(self), key),
        ensures
            ({
                let closing = old(self).is_searching() && (key is Enter || key is Escape);
                let shown = dropdown_list(items_view(items@), focus_chars(*old(self)));
                let picks = key is Enter && shown.len() > 0;
                let dk = match dropdown_open(*old(self)) {
                    Some(k) => k,
                    None => Seq::empty(),
                };
                &&& closing ==> final(self).popup is None && final(self).focus is None
                &&& closing && picks ==> cmds(Some(r)) == Some(pick_cmds(dk, shown[0].0, facts.theme)) && final(self).armed() is None
                    && final(self).gpu_picked == (old(self).gpu_picked || pick_target(dk) is Gpu)
                &&& closing && !picks ==> cmds(Some(r)) == Some(Seq::<CmdView>::empty()) && final(self).armed() == old(self).armed()
                    && final(self).gpu_picked == old(self).gpu_picked
                &&& !closing ==> final(self).armed() == old(self).armed() && final(self).gpu_picked == old(self).gpu_picked
                &&& !closing && old(self).focus is None ==> cmds(Some(r)) == Some(Seq::<CmdView>::empty()) && final(self).focus is None
                    && final(self).popup == (if key is Escape {
                    None
                } else {
                    old(self).popup
                })
                &&& !closing && old(self).focus is Some && (key is Enter || key is Escape || key is Tab) ==> final(self).focus is None
                    && cmds(Some(r)) == Some(Seq::<CmdView>::empty()) && final(self).popup == old(self).popup
                &&& !closing && old(self).focus is Some && key is Edit ==> typed(*old(self), key->0, *final(self), *facts, cmds(Some(r)))
                &&& final(self).page == old(self).page
            }),
    {
        let searching = self.searching();
        let closing = searching && (matches!(key, Key::Enter) || matches!(key, Key::Escape));
        if closing {
            let first: Option<(String, String)> = if matches!(key, Key::Enter) {
                match (&self.popup, &self.focus) {
                    (Some(Popup::Dropdown(dk)), Some((_, f))) => {
                        let shown = dropdown_shown(items, f.text());
                        if shown.len() > 0 {
                            Some((dk.clone(), shown[0].0.clone()))
                        } else {
                            None
                        }
                    },
                    _ => None,
                }
            } else {
                None
            };
            self.close_popup();
            return match first {
                Some((dk, v)) => {
                    self.confirm = Confirm::new();
                    self.apply_pick(dk.as_str(), v.as_str(), &facts.theme)
                },
                None => no_cmds(),
            };
        }
        let mut cur: Option<(String, TextField)> = None;
        std::mem::swap(&mut cur, &mut self.focus);
        match cur {
            None => {
                if matches!(key, Key::Escape) {
                    self.popup = None;
                }
                no_cmds()
            },
            Some((k, mut f)) => match key {
                Key::Enter | Key::Escape | Key::Tab => no_cmds(),
                Key::Edit(e) => {
                    let changed = f.edit(e);
                    let r = if changed {
                        self.commit(k.clone(), String::from_str(f.text()), facts)
                    } else {
                        no_cmds()
                    };
                    self.focus = Some((k, f));
                    r
                },
            },
        }
    }

    /// Picks `value` in the dropdown with key `key`: see `pick_cmds`. Picking an adapter
    /// marks it as waiting for a restart.
    pub fn apply_pick(&mut self, key: &str, value: &str, theme: &Selection) -> (r: Vec<Cmd>)
        ensures
            r@.map_values(|c: Cmd| c@) == pick_cmds(key@, value@, *theme),
            final(self).gpu_picked == (old(self).gpu_picked || pick_target(key@) is Gpu),
            final(self).page == old(self).page,
            final(self).selected == old(self).selected,
            final(self).popup == old(self).popup,
            final(self).focus == old(self).focus,
            final(self).step == old(self).step,
            final(self).armed() == old(self).armed(),
    {
        proof {
            reveal_strlit("z:");
            reveal_strlit("th:");
            reveal_strlit("sy:");
            reveal_strlit("tp:");
            reveal_strlit("p:");
        }
        let v = String::from_str(value);
        let mut r: Vec<Cmd> = Vec::new();
        if starts_with(key, "z:") {
            r.push(Cmd::Z(after(key, 2), v));
        } else if str_eq(key, "gpu") {
            self.gpu_picked = true;
            r.push(Cmd::Gpu(v));
        } else if starts_with(key, "th:") {
            let axis = after(key, 3);
            let a = axis.as_str();
            let (mut palette, mut fonts, mut glyphs, mut icon_pack) = (
                theme.palette.clone(),
                theme.fonts.clone(),
                theme.glyphs.clone(),
                theme.icon_pack.clone(),
            );
            let known = if str_eq(a, "palette") {
                palette = v;
                true
            } else if str_eq(a, "fonts") {
                fonts = v;
                true
            } else if str_eq(a, "glyphs") {
                glyphs = v;
                true
            } else if str_eq(a, "pack") {
                icon_pack = v;
                true
            } else {
                false
            };
            if known {
                r.push(Cmd::Theme(Selection { palette, fonts, glyphs, icon_pack }));
            }
        } else if starts_with(key, "sy:") && split_at_char(after(key, 3).as_str(), ':').is_some() {
            if let Some((sc, tok)) = split_at_char(after(key, 3).as_str(), ':') {
                let t = if value.is_empty() {
                    None
                } else {
                    Some(v)
                };
                r.push(Cmd::Style(Scope::parse(sc.as_str()), tok, t));
            }
        } else if starts_with(key, "tp:") && split_at_char(after(key, 3).as_str(), ':').is_some() {
            if let Some((id, axis)) = split_at_char(after(key, 3).as_str(), ':') {
                let t = if value.is_empty() {
                    None
                } else {
                    Some(v)
                };
                r.push(Cmd::ThemePick(id, axis, t));
            }
        } else if starts_with(key, "p:") && split_at_char(after(key, 2).as_str(), ':').is_some() {
            if let Some((id, name)) = split_at_char(after(key, 2).as_str(), ':') {
                r.push(Cmd::Param(id, name, v));
            }
        }
        assert(r@.map_values(|c: Cmd| c@) =~= pick_cmds(key@, value@, *theme));
        r
    }

    /// Takes an action from a node of the window: a verb, `:`, and what it is about.
    /// Returns the commands for the app, or `None` for the verbs the app decides itself
    /// (`app_verb`); either way, any action but a removal disarms a pending removal, and
    /// most take the focus from the focused field.
    #[verifier::rlimit(80)]
    pub fn act(&mut self, a: &str, facts: &Facts) -> (r: Option<Vec<Cmd>>)
        requires
            facts.instances.len() < u64::MAX,
        ensures
            ({
                let (verb, rest) = action_parts(a@);
                let vb = verb_named(verb);
                let removing = vb == Verb::Delete || vb == Verb::PluginRemove;
                let key = armed_key(verb, rest);
                let none = Some(Seq::<CmdView>::empty());
                &&& !removing ==> final(self).armed() is None
                &&& removing && old(self).armed() == Some(key) ==> final(self).armed() is None
                &&& removing && old(self).armed() != Some(key) ==> final(self).armed() == Some(key)
                &&& final(self).armed() == armed_after(old(self).armed(), a@)
                &&& !keeps_focus(vb) && vb != Verb::Dropdown ==> final(self).focus is None
                &&& vb == Verb::Toggle ==> cmds(r) == Some(toggle_cmds(rest, *facts))
                &&& vb == Verb::Style ==> cmds(r) == Some(style_flip_cmds(rest, *facts))
                &&& vb == Verb::ShortcutDelete ==> cmds(r) == Some(row_delete_cmds(rest, *facts))
                &&& vb == Verb::SetColor ==> cmds(r) == Some(set_colour_cmds(rest))
                &&& vb == Verb::Dropdown ==> {
                    let opening = dropdown_open(*old(self)) != Some(rest);
                    let long = opening && dropdown_len(*facts, rest) > SEARCH_FROM;
                    &&& cmds(r) == none
                    &&& opening ==> dropdown_open(*final(self)) == Some(rest)
                    &&& !opening ==> final(self).popup is None
                    &&& forall|k2: Seq<char>| #[trigger]
                        query_of(final(self).queries@, k2) == if k2 == "q:dd"@ {
                            Seq::<char>::empty()
                        } else {
                            query_of(old(self).queries@, k2)
                        }
                    &&& long ==> focus_key(*final(self)) == "q:dd"@ && final(self).focus is Some
                        && focus_chars(*final(self)).len() == 0 && focus_at(*final(self)) == 0
                    &&& !long ==> final(self).focus is None
                }
                &&& app_verb(vb) <==> r is None
                &&& vb == Verb::Nav ==> final(self).page == page_named(rest) && final(self).popup is None && cmds(r) == none
                &&& vb == Verb::Select ==> opt_view(final(self).selected) == Some(rest) && !final(self).adding
                    && final(self).popup is None && final(self).tier_tab is None && final(self).sel_module is None
                    && cmds(r) == none
                &&& vb == Verb::Tier ==> opt_view(final(self).tier_tab) == Some(rest) && cmds(r) == none
                &&& vb == Verb::Advanced ==> final(self).advanced == !old(self).advanced && cmds(r) == none
                &&& vb == Verb::Add ==> final(self).page == Page::Widgets && !final(self).adding
                    && final(self).tier_tab is None && final(self).sel_module is None
                    && cmds(r) == Some(seq![CmdView::Add(rest)])
                    && (exists|n: nat| #![trigger instance_id(rest, n)]
                        first_free(instance_ids(facts.instances@), rest, n)
                        && opt_view(final(self).selected) == Some(instance_id(rest, n)))
                &&& vb == Verb::Delete && old(self).armed() == Some(key) ==> cmds(r) == Some(seq![CmdView::Remove(rest)])
                    && final(self).selected is None
                &&& vb == Verb::Delete && old(self).armed() != Some(key) ==> cmds(r) == none
                &&& vb == Verb::PluginRemove && old(self).armed() == Some(key) ==> cmds(r) == Some(
                    seq![CmdView::RemovePlugin(rest)],
                )
                &&& vb == Verb::PluginRemove && old(self).armed() != Some(key) ==> cmds(r) == none
                &&& vb == Verb::LayoutReset ==> cmds(r) == Some(match split_once(rest, '|') {
                    Some((id, tier)) => seq![CmdView::LayoutReset(id, tier)],
                    None => Seq::<CmdView>::empty(),
                })
                &&& vb == Verb::LayoutResetAll ==> cmds(r) == Some({
                    let k = instance_of(facts.instances@, rest);
                    if k >= 0 {
                        reset_all(rest, strings_view(facts.instances@[k].tiers@))
                    } else {
                        Seq::<CmdView>::empty()
                    }
                })
                &&& vb == Verb::ClickThrough ==> cmds(r) == Some({
                    let k = instance_of(facts.instances@, rest);
                    if k >= 0 {
                        seq![CmdView::ClickThrough(rest, !facts.instances@[k].click_through)]
                    } else {
                        Seq::<CmdView>::empty()
                    }
                })
                &&& vb == Verb::SizeLimit ==> cmds(r) == Some({
                    let k = instance_of(facts.instances@, rest);
                    if k >= 0 {
                        seq![CmdView::SizeLimit(rest, !facts.instances@[k].size_limit)]
                    } else {
                        Seq::<CmdView>::empty()
                    }
                })
                &&& vb == Verb::ResetPos ==> cmds(r) == Some(seq![CmdView::ResetPos(rest)])
                &&& vb == Verb::Edit ==> cmds(r) == Some(seq![CmdView::Edit(!facts.edit)])
                &&& vb == Verb::Autostart ==> cmds(r) == Some(seq![CmdView::Autostart(!facts.autostart)])
                &&& vb == Verb::Flag ==> cmds(r) == Some(
                    if rest == "header_drag"@ {
                        seq![CmdView::Flag(Flag::HeaderDrag, !facts.header_drag)]
                    } else {
                        Seq::<CmdView>::empty()
                    },
                )
                &&& vb == Verb::PopupClose ==> final(self).popup is None
                    && (old(self).is_searching() ==> final(self).focus is None)
                    && (!old(self).is_searching() ==> final(self).focus == old(self).focus) && cmds(r) == none
                &&& vb == Verb::Clear ==> cmds(r) == Some(match split_once(rest, '|') {
                    Some((id, name)) => seq![CmdView::Param(id, name, Seq::<char>::empty())],
                    None => Seq::<CmdView>::empty(),
                })
                &&& vb == Verb::PluginOn ==> cmds(r) == Some({
                    let k = plugin_of(facts.plugins@, rest);
                    if k >= 0 {
                        seq![CmdView::PluginEnabled(rest, !facts.plugins@[k].1)]
                    } else {
                        Seq::<CmdView>::empty()
                    }
                })
                &&& vb == Verb::PluginsFolder ==> cmds(r) == Some(seq![CmdView::OpenPluginsFolder])
                &&& vb == Verb::OpenFolder ==> cmds(r) == Some(seq![CmdView::OpenFolder])
                &&& vb == Verb::ClaimFiles ==> cmds(r) == Some(seq![CmdView::ClaimPluginFiles])
                &&& vb == Verb::Reload ==> cmds(r) == Some(seq![CmdView::Reload])
                &&& vb == Verb::Quit ==> cmds(r) == Some(seq![CmdView::Quit])
                &&& vb == Verb::Restart ==> cmds(r) == Some(seq![CmdView::Restart])
                &&& vb == Verb::GpuFix ==> cmds(r) == Some(seq![CmdView::Gpu("low"@), CmdView::Restart])
                &&& vb == Verb::Gallery ==> final(self).adding == (rest == "open"@) && cmds(r) == none
                &&& vb == Verb::Category ==> opt_view(final(self).category) == (if rest.len() == 0 {
                    None
                } else {
                    Some(rest)
                }) && cmds(r) == none
                &&& vb == Verb::LogLevel ==> final(self).log_level == level_named(rest) && cmds(r) == none
                &&& vb == Verb::OpenLog ==> cmds(r) == Some(seq![CmdView::OpenData("wayfinder.log"@)])
                &&& vb == Verb::OpenPacks ==> cmds(r) == Some(seq![CmdView::OpenData("iconpacks"@)])
                &&& vb == Verb::Setup ==> if rest == "next"@ {
                    final(self).step == (if old(self).step + 1 < SETUP_STEPS - 1 {
                        old(self).step + 1
                    } else {
                        SETUP_STEPS - 1
                    }) && cmds(r) == none
                } else if rest == "back"@ {
                    final(self).step == (if old(self).step > 0 {
                        old(self).step - 1
                    } else {
                        0
                    }) && cmds(r) == none
                } else {
                    final(self).step == 0 && final(self).page == Page::Widgets && cmds(r) == Some(
                        seq![CmdView::Onboarded],
                    )
                }
                &&& vb == Verb::Pick ==> match split_once(rest, '|') {
                    Some((k, v)) => cmds(r) == Some(pick_cmds(k, v, facts.theme)) && final(self).popup is None
                        && (old(self).is_searching() ==> final(self).focus is None)
                        && (!old(self).is_searching() ==> final(self).focus == old(self).focus)
                        && final(self).gpu_picked == (old(self).gpu_picked || pick_target(k) is Gpu),
                    None => cmds(r) == none,
                }
                &&& vb == Verb::StyleReset ==> cmds(r) == Some(reset_style_cmds(rest, *facts))
                &&& vb == Verb::Close ==> cmds(r) == Some(seq![CmdView::Close])
                &&& vb == Verb::Minimize ==> cmds(r) == Some(seq![CmdView::Minimize])
                &&& (vb == Verb::Input || vb == Verb::Slider || vb == Verb::Drag || vb == Verb::Other) ==> cmds(r) == none
            }),
    {
        let (verb, rest) = match split_at_char(a, ':') {
            Some(p) => p,
            None => (String::from_str(a), String::new()),
        };
        proof {
            if split_once(a@, ':') is None {
                assert(action_parts(a@) == (a@, Seq::<char>::empty()));
            }
        }
        let rest_s = rest.as_str();
        let vb = Verb::parse(verb.as_str());
        if !matches!(vb, Verb::Delete | Verb::PluginRemove) {
            self.confirm = Confirm::new();
        }
        if !matches!(
            vb,
            Verb::Input | Verb::Slider | Verb::ColorSv | Verb::ColorHue | Verb::ColorSet | Verb::Pick | Verb::PopupClose
                | Verb::Drag
        ) {
            self.focus = None;
        }
        let mut out: Vec<Cmd> = Vec::new();
        match vb {
            Verb::ColorPicker | Verb::ColorSv | Verb::ColorHue | Verb::ColorSet | Verb::Folder | Verb::File
            | Verb::ShortcutAdd | Verb::ShortcutBrowse | Verb::LogCopy | Verb::PluginInstall => {
                return None;
            },
            Verb::SetColor => {
                out = set_colour(rest_s);
            },
            Verb::Toggle => {
                out = toggle(rest_s, facts);
            },
            Verb::Style => {
                out = flip_style(rest_s, facts);
            },
            Verb::ShortcutDelete => {
                out = delete_row(rest_s, facts);
            },
            Verb::Dropdown => {
                let n = match find_value(&facts.dropdowns, rest_s) {
                    Some(n) => n,
                    None => 0,
                };
                self.open_dropdown(rest_s, n);
            },
            Verb::Pick => {
                if let Some((key, value)) = split_at_char(rest_s, '|') {
                    self.close_popup();
                    out = self.apply_pick(key.as_str(), value.as_str(), &facts.theme);
                }
            },
            Verb::StyleReset => {
                out = reset_style(rest_s, facts);
            },
            Verb::Nav => {
                self.page = Page::parse(rest_s);
                self.popup = None;
            },
            Verb::Select => {
                self.selected = Some(String::from_str(rest_s));
                self.adding = false;
                self.popup = None;
                self.tier_tab = None;
                self.sel_module = None;
            },
            Verb::Tier => {
                self.tier_tab = Some(String::from_str(rest_s));
            },
            Verb::Advanced => {
                self.advanced = !self.advanced;
            },
            Verb::LayoutReset => {
                if let Some((id, tier)) = split_at_char(rest_s, '|') {
                    out.push(Cmd::LayoutReset(id, tier));
                }
            },
            Verb::LayoutResetAll => {
                if let Some(k) = find_instance(&facts.instances, rest_s) {
                    out = reset_cmds(rest_s, &facts.instances[k].tiers);
                }
            },
            Verb::Add => {
                self.tier_tab = None;
                self.sel_module = None;
                self.adding = false;
                let ids = ids_in(&facts.instances);
                let id = next_id(ids.as_slice(), rest_s);
                self.selected = Some(id);
                self.page = Page::Widgets;
                out.push(Cmd::Add(String::from_str(rest_s)));
            },
            Verb::Delete => {
                proof {
                    reveal_strlit("del");
                    reveal_strlit("prm");
                    assert("del"@[0] != "prm"@[0]);
                }
                if let Some(Removal::Widget(id)) = self.confirm.act(a) {
                    self.selected = None;
                    let ghost gone = id@;
                    out.push(Cmd::Remove(id));
                    assert(out@.map_values(|c: Cmd| c@) =~= seq![CmdView::Remove(gone)]);
                }
            },
            Verb::PluginRemove => {
                if let Some(Removal::Plugin(id)) = self.confirm.act(a) {
                    out.push(Cmd::RemovePlugin(id));
                }
            },
            Verb::ClickThrough => {
                if let Some(k) = find_instance(&facts.instances, rest_s) {
                    out.push(Cmd::ClickThrough(String::from_str(rest_s), !facts.instances[k].click_through));
                }
            },
            Verb::SizeLimit => {
                if let Some(k) = find_instance(&facts.instances, rest_s) {
                    out.push(Cmd::SizeLimit(String::from_str(rest_s), !facts.instances[k].size_limit));
                }
            },
            Verb::ResetPos => {
                out.push(Cmd::ResetPos(String::from_str(rest_s)));
            },
            Verb::Edit => {
                out.push(Cmd::Edit(!facts.edit));
            },
            Verb::Autostart => {
                out.push(Cmd::Autostart(!facts.autostart));
            },
            Verb::Flag => {
                if let Some(f) = Flag::parse(rest_s) {
                    out.push(Cmd::Flag(f, !facts.header_drag));
                }
            },
            Verb::PopupClose => {
                self.close_popup();
            },
            Verb::Clear => {
                if let Some((id, name)) = split_at_char(rest_s, '|') {
                    out.push(Cmd::Param(id, name, String::new()));
                }
            },
            Verb::PluginOn => {
                if let Some(k) = find_plugin(&facts.plugins, rest_s) {
                    out.push(Cmd::PluginEnabled(String::from_str(rest_s), !facts.plugins[k].1));
                }
            },
            Verb::PluginsFolder => {
                out.push(Cmd::OpenPluginsFolder);
            },
            Verb::OpenFolder => {
                out.push(Cmd::OpenFolder);
            },
            Verb::ClaimFiles => {
                out.push(Cmd::ClaimPluginFiles);
            },
            Verb::Reload => {
                out.push(Cmd::Reload);
            },
            Verb::Quit => {
                out.push(Cmd::Quit);
            },
            Verb::Restart => {
                out.push(Cmd::Restart);
            },
            Verb::GpuFix => {
                out.push(Cmd::Gpu(String::from_str("low")));
                out.push(Cmd::Restart);
            },
            Verb::Gallery => {
                self.adding = str_eq(rest_s, "open");
            },
            Verb::Category => {
                self.category = if rest_s.is_empty() {
                    None
                } else {
                    Some(String::from_str(rest_s))
                };
            },
            Verb::LogLevel => {
                self.log_level = Level::parse(rest_s);
            },
            Verb::OpenLog => {
                out.push(Cmd::OpenData("wayfinder.log"));
            },
            Verb::OpenPacks => {
                out.push(Cmd::OpenData("iconpacks"));
            },
            Verb::Setup => {
                if str_eq(rest_s, "next") {
                    self.step = if self.step < SETUP_STEPS - 1 {
                        self.step + 1
                    } else {
                        SETUP_STEPS - 1
                    };
                } else if str_eq(rest_s, "back") {
                    self.step = if self.step > 0 {
                        self.step - 1
                    } else {
                        0
                    };
                } else {
                    self.step = 0;
                    self.page = Page::Widgets;
                    out.push(Cmd::Onboarded);
                }
            },
            Verb::Close => {
                out.push(Cmd::Close);
            },
            Verb::Minimize => {
                out.push(Cmd::Minimize);
            },
            Verb::Input | Verb::Slider | Verb::Drag | Verb::Other => {},
        }
        Some(out)
    }
}

} // verus!
