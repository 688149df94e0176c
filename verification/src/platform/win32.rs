//! Win32 decisions: z-order modes, the blur attributes, whether Show Desktop is on, and
//! which exe opens `.wfplugin` files. The calls into Windows themselves are the app's.

use vstd::prelude::*;

use crate::paths::{backslash, backslashed, lowercase, to_lowercase};
use crate::strs::{chars_of, concat3, split_chars, split_on, str_eq, string_of, string_of_range, trim, trimmed, white, is_white};

verus! {

broadcast use vstd::string::group_string_axioms;

/// Where a widget window sits in the z-order.
#[derive(Clone, Copy, PartialEq, Eq, Debug)]
pub enum ZMode {
    Desktop,
    Bottom,
    Normal,
    Topmost,
}

impl ZMode {
    /// `desktop`, `bottom`, `normal` or `topmost`; anything else is no mode.
    pub fn parse(s: &str) -> (r: Option<ZMode>)
        ensures
            r == if s@ == "desktop"@ {
                Some(ZMode::Desktop)
            } else if s@ == "bottom"@ {
                Some(ZMode::Bottom)
            } else if s@ == "normal"@ {
                Some(ZMode::Normal)
            } else if s@ == "topmost"@ {
                Some(ZMode::Topmost)
            } else {
                None
            },
    {
        if str_eq(s, "desktop") {
            Some(ZMode::Desktop)
        } else if str_eq(s, "bottom") {
            Some(ZMode::Bottom)
        } else if str_eq(s, "normal") {
            Some(ZMode::Normal)
        } else if str_eq(s, "topmost") {
            Some(ZMode::Topmost)
        } else {
            None
        }
    }
}

/// One top-level window, as the z-order lists it.
pub struct ZEntry {
    pub hwnd: isize,
    pub class: String,
    pub visible: bool,
    pub topmost: bool,
    pub pid: u32,
}

/// The DWM corner preference and accent state for a window: with blur on, the card's
/// corners and blur-behind (3); off, the default corners (0) and no accent (0).
pub fn blur_window_attributes(on: bool, corners: i32) -> (r: (i32, u32))
    ensures
        r == if on {
            (corners, 3u32)
        } else {
            (0i32, 0u32)
        },
{
    if on {
        (corners, 3)
    } else {
        (0, 0)
    }
}

/// Where `w` first occurs in `order`, or -1.
pub open spec fn position(order: Seq<isize>, w: isize) -> int
    decreases order.len(),
{
    if order.len() == 0 {
        -1
    } else if order[0] == w {
        0
    } else {
        let r = position(order.drop_first(), w);
        if r < 0 {
            -1
        } else {
            r + 1
        }
    }
}

proof fn lemma_position_at(order: Seq<isize>, w: isize, i: int)
    requires
        0 <= i <= order.len(),
        forall|k: int| 0 <= k < i ==> order[k] != w,
        i == order.len() || order[i] == w,
    ensures
        position(order, w) == if i == order.len() {
            -1
        } else {
            i
        },
    decreases i,
{
    if i > 0 {
        lemma_position_at(order.drop_first(), w, i - 1);
    }
}

fn position_of(order: &[isize], w: isize) -> (r: Option<usize>)
    ensures
        match r {
            Some(i) => position(order@, w) == i,
            None => position(order@, w) == -1,
        },
{
    let mut i: usize = 0;
    while i < order.len()
        invariant
            i <= order.len(),
            forall|k: int| 0 <= k < i ==> order@[k] != w,
        decreases order.len() - i,
    {
        if order[i] == w {
            proof {
                lemma_position_at(order@, w, i as int);
            }
            return Some(i);
        }
        i += 1;
    }
    proof {
        lemma_position_at(order@, w, order.len() as int);
    }
    None
}

/// Whether Show Desktop is on, from the z-order (topmost first): it is exactly when the
/// desktop icon host sits above our sentinel window. Unknown when either is missing.
pub fn is_desktop_shown(order: &[isize], host: isize, sentinel: isize) -> (r: Option<bool>)
    ensures
        r == if position(order@, host) < 0 || position(order@, sentinel) < 0 {
            None
        } else {
            Some(position(order@, sentinel) > position(order@, host))
        },
{
    let h = position_of(order, host)?;
    let s = position_of(order, sentinel)?;
    Some(s > h)
}

/// The Explorer "open" command for `.wfplugin` files: the exe and the file, quoted.
pub open spec fn open_command(exe: Seq<char>) -> Seq<char> {
    "\""@ + exe + "\" --install \"%1\""@
}

/// The Explorer "open" command for `.wfplugin` files.
pub fn association_command(exe: &str) -> (r: String)
    ensures
        r@ == open_command(exe@),
{
    concat3("\"", exe, "\" --install \"%1\"")
}

/// Where the first white space of `s` is, or its end.
pub open spec fn word_end(s: Seq<char>) -> int
    decreases s.len(),
{
    if s.len() == 0 || is_white(s[0]) {
        0
    } else {
        1 + word_end(s.drop_first())
    }
}

proof fn lemma_word_end(s: Seq<char>, i: int)
    requires
        0 <= i <= s.len(),
        forall|k: int| 0 <= k < i ==> !is_white(#[trigger] s[k]),
        i == s.len() || is_white(s[i]),
    ensures
        word_end(s) == i,
    decreases i,
{
    if i > 0 {
        lemma_word_end(s.drop_first(), i - 1);
    }
}

/// The exe an association command starts: its first quoted path, or its first word;
/// none when that is empty.
pub open spec fn command_exe(command: Seq<char>) -> Option<Seq<char>> {
    let c = trimmed(command);
    let e = if c.len() > 0 && c[0] == '"' {
        split_on(c.skip(1), '"')[0]
    } else {
        c.take(word_end(c))
    };
    if e.len() == 0 {
        None
    } else {
        Some(e)
    }
}

/// The exe an association command names is the exe it was made for, when that path is
/// not empty and holds no `"`.
pub proof fn lemma_command_names_its_exe(exe: Seq<char>)
    requires
        exe.len() > 0,
        forall|i: int| 0 <= i < exe.len() ==> exe[i] != '"',
    ensures
        command_exe(open_command(exe)) == Some(exe),
{
    reveal_strlit("\"");
    reveal_strlit("\" --install \"%1\"");
    let c = open_command(exe);
    assert(c[0] == '"');
    assert(!is_white(c[0]));
    assert(c.last() == '"');
    assert(!is_white(c.last()));
    assert(crate::strs::trim_start_at(c) == 0);
    assert(crate::strs::trim_end_at(c) == c.len());
    assert(trimmed(c) =~= c);
    let rest = c.skip(1);
    assert(forall|k: int| 0 <= k < exe.len() ==> rest[k] == exe[k]);
    assert(rest[exe.len() as int] == '"');
    crate::strs::lemma_first_index_at(rest, '"', exe.len() as int);
    assert(rest.take(exe.len() as int) =~= exe);
}

/// The exe an association command starts: its first quoted path, or its first word.
pub fn association_exe(command: &str) -> (r: Option<String>)
    ensures
        match r {
            Some(e) => command_exe(command@) == Some(e@),
            None => command_exe(command@) is None,
        },
{
    let c = trim(command);
    let cs = chars_of(c.as_str());
    let e = if cs.len() > 0 && cs[0] == '"' {
        let rest = string_of_range(&cs, 1, cs.len());
        assert(rest@ =~= c@.skip(1));
        let pieces = split_chars(&chars_of(rest.as_str()), '"');
        proof {
            crate::strs::lemma_split_on_not_empty(rest@, '"');
        }
        string_of(&pieces[0])
    } else {
        let mut i: usize = 0;
        while i < cs.len() && !white(cs[i])
            invariant
                i <= cs.len(),
                forall|k: int| 0 <= k < i ==> !is_white(#[trigger] cs@[k]),
            decreases cs.len() - i,
        {
            i += 1;
        }
        proof {
            lemma_word_end(cs@, i as int);
        }
        let w = string_of_range(&cs, 0, i);
        assert(w@ =~= cs@.take(i as int));
        w
    };
    if e.as_str().is_empty() {
        None
    } else {
        Some(e)
    }
}

/// Two paths name the same file when they are equal with `/` as `\`, ignoring case.
pub open spec fn same_path(a: Seq<char>, b: Seq<char>) -> bool {
    lowercase(backslashed(a)) == lowercase(backslashed(b))
}

/// Whether two paths name the same file, compared as the shell compares them.
pub fn same_file(a: &str, b: &str) -> (r: bool)
    ensures
        r == same_path(a@, b@),
{
    let x = string_of(&backslash(&chars_of(a)));
    let y = string_of(&backslash(&chars_of(b)));
    let lx = to_lowercase(x.as_str());
    let ly = to_lowercase(y.as_str());
    str_eq(lx.as_str(), ly.as_str())
}

/// Which exe opens `.wfplugin` files, seen from this one.
pub enum FileOwner {
    Me,
    Nobody,
    Other(String),
}

/// `FileOwner` with the path as chars.
pub enum OwnerView {
    Me,
    Nobody,
    Other(Seq<char>),
}

impl View for FileOwner {
    type V = OwnerView;

    open spec fn view(&self) -> OwnerView {
        match self {
            FileOwner::Me => OwnerView::Me,
            FileOwner::Nobody => OwnerView::Nobody,
            FileOwner::Other(p) => OwnerView::Other(p@),
        }
    }
}

/// The exe the registered command starts, when the extension's class is ours.
pub open spec fn registered_exe(class: Option<&str>, command: Option<&str>) -> Option<Seq<char>> {
    match (class, command) {
        (Some(c), Some(cmd)) => if c@ == "Wayfinder.Plugin"@ {
            command_exe(cmd@)
        } else {
            None
        },
        _ => None,
    }
}

/// The registered command is exactly ours.
pub open spec fn is_our_command(command: Option<&str>, me: Seq<char>) -> bool {
    command matches Some(cmd) && cmd@ == open_command(me)
}

/// Who opens `.wfplugin` files, given whether the exe the command names exists:
/// this exe when the command is exactly ours; another build when it names another exe
/// that still exists; else nobody (a moved or deleted build holds nothing, and our own
/// exe with an outdated command is ours to rewrite, never someone else's).
pub open spec fn owner(class: Option<&str>, command: Option<&str>, me: Seq<char>, found: bool) -> OwnerView {
    match registered_exe(class, command) {
        None => OwnerView::Nobody,
        Some(e) => if same_path(e, me) && is_our_command(command, me) {
            OwnerView::Me
        } else if found && !same_path(e, me) {
            OwnerView::Other(e)
        } else {
            OwnerView::Nobody
        },
    }
}

/// Whether the answer needs to know if the named exe exists.
pub open spec fn asks_exists(class: Option<&str>, command: Option<&str>, me: Seq<char>) -> bool {
    registered_exe(class, command) matches Some(e) && !(same_path(e, me) && is_our_command(command, me))
}

/// Who opens `.wfplugin` files, from the extension's class and its open command. A
/// command naming an exe that is gone (a moved or deleted build) counts as nobody's.
/// `is_file` is asked about the named exe only when the answer depends on it.
pub fn file_owner_of(
    class: Option<&str>,
    command: Option<&str>,
    me: &str,
    is_file: impl Fn(&str) -> bool,
) -> (r: FileOwner)
    requires
        forall|p: &str| is_file.requires((p,)),
    ensures
        !asks_exists(class, command, me@) ==> r@ == owner(class, command, me@, false),
        asks_exists(class, command, me@) ==> exists|p: &str, b: bool|
            p@ == registered_exe(class, command)->0 && is_file.ensures((p,), b) && r@ == owner(
                class,
                command,
                me@,
                b,
            ),
{
    let ours = match class {
        Some(c) => str_eq(c, "Wayfinder.Plugin"),
        None => false,
    };
    if !ours {
        return FileOwner::Nobody;
    }
    let cmd = match command {
        Some(c) => c,
        None => {
            return FileOwner::Nobody;
        },
    };
    let exe = match association_exe(cmd) {
        Some(e) => e,
        None => {
            return FileOwner::Nobody;
        },
    };
    let same = same_file(exe.as_str(), me);
    let mine = association_command(me);
    if same && str_eq(cmd, mine.as_str()) {
        return FileOwner::Me;
    }
    let p = exe.as_str();
    let found = is_file(p);
    if found && !same {
        FileOwner::Other(exe)
    } else {
        FileOwner::Nobody
    }
}


/// The registry key of the `.wfplugin` file class, under the current user.
pub const PLUGIN_CLASS: &'static str = "Software\\Classes\\Wayfinder.Plugin";

/// The key that holds the class's open command.
pub fn open_command_key() -> (r: String)
    ensures
        r@ == PLUGIN_CLASS@ + "\\shell\\open\\command"@,
{
    crate::strs::concat(PLUGIN_CLASS, "\\shell\\open\\command")
}

/// Whether registering the file type must write the registry, given who opens the files
/// now and whether the user asks to take them: `None` when it must (this exe opens them
/// afterwards, and something changed), else who keeps opening them and that nothing
/// changed. This exe keeps them; another build that still exists keeps them unless taken.
pub fn registration(owner: FileOwner, take: bool) -> (r: Option<(FileOwner, bool)>)
    ensures
        match owner@ {
            OwnerView::Me => r matches Some((o, changed)) && o@ == OwnerView::Me && !changed,
            OwnerView::Other(p) => if take {
                r is None
            } else {
                r matches Some((o, changed)) && o@ == OwnerView::Other(p) && !changed
            },
            OwnerView::Nobody => r is None,
        },
{
    match owner {
        FileOwner::Me => Some((FileOwner::Me, false)),
        FileOwner::Other(p) => if take {
            None
        } else {
            Some((FileOwner::Other(p), false))
        },
        FileOwner::Nobody => None,
    }
}

} // verus!
