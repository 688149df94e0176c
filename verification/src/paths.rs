//! Windows paths as the app sees them: separated by `\` or `/`, with `.` parts dropped.
//! Comparisons go part by part, as `Path::starts_with` and `Path::strip_prefix` do.

use vstd::prelude::*;

use crate::strs::{chars_of, push_char, split_chars, split_on};

verus! {

broadcast use vstd::string::group_string_axioms;

/// A path separator.
pub open spec fn is_sep(c: char) -> bool {
    c == '\\' || c == '/'
}

/// `s` with every `/` written as `\`.
pub open spec fn backslashed(s: Seq<char>) -> Seq<char> {
    s.map_values(|c: char| if c == '/' { '\\' } else { c })
}

/// The part that stands for the root of a path that starts with a separator.
pub open spec fn root_part() -> Seq<char> {
    seq!['\\']
}

/// A part worth keeping: not empty (from doubled separators) and not `.`.
pub open spec fn kept(p: Seq<char>) -> bool {
    p.len() > 0 && p != seq!['.']
}

/// The kept parts of `ps`, in order.
pub open spec fn clean(ps: Seq<Seq<char>>) -> Seq<Seq<char>>
    decreases ps.len(),
{
    if ps.len() == 0 {
        Seq::empty()
    } else if kept(ps.last()) {
        clean(ps.drop_last()).push(ps.last())
    } else {
        clean(ps.drop_last())
    }
}

/// The parts of path `s`: the root first when it starts with a separator, then the
/// names between separators.
pub open spec fn components(s: Seq<char>) -> Seq<Seq<char>> {
    let root = if s.len() > 0 && is_sep(s[0]) {
        seq![root_part()]
    } else {
        Seq::empty()
    };
    root + clean(split_on(backslashed(s), '\\'))
}

/// `\` followed by `/` written as `\`.
pub fn backslash(s: &Vec<char>) -> (r: Vec<char>)
    ensures
        r@ == backslashed(s@),
{
    let mut r: Vec<char> = Vec::new();
    let mut i: usize = 0;
    while i < s.len()
        invariant
            i <= s.len(),
            r@ == backslashed(s@.take(i as int)),
        decreases s.len() - i,
    {
        let c = if s[i] == '/' {
            '\\'
        } else {
            s[i]
        };
        r.push(c);
        i += 1;
        assert(backslashed(s@.take(i as int)) =~= backslashed(s@.take(i - 1)).push(c));
    }
    assert(s@.take(s.len() as int) =~= s@);
    r
}

/// The parts of path `s`.
pub fn components_of(s: &str) -> (r: Vec<Vec<char>>)
    ensures
        r.len() == components(s@).len(),
        forall|k: int| 0 <= k < r.len() ==> #[trigger] r@[k]@ == components(s@)[k],
{
    let cs = chars_of(s);
    let b = backslash(&cs);
    let pieces = split_chars(&b, '\\');
    let mut r: Vec<Vec<char>> = Vec::new();
    let ghost root: Seq<Seq<char>> = if cs@.len() > 0 && is_sep(cs@[0]) {
        seq![root_part()]
    } else {
        Seq::empty()
    };
    if cs.len() > 0 && (cs[0] == '\\' || cs[0] == '/') {
        let mut rp = Vec::new();
        rp.push('\\');
        r.push(rp);
    }
    let ghost ps = split_on(backslashed(cs@), '\\');
    let mut i: usize = 0;
    while i < pieces.len()
        invariant
            i <= pieces.len(),
            cs@ == s@,
            ps == split_on(backslashed(cs@), '\\'),
            pieces.len() == ps.len(),
            forall|k: int| 0 <= k < pieces.len() ==> #[trigger] pieces@[k]@ == ps[k],
            root == (if cs@.len() > 0 && is_sep(cs@[0]) {
                seq![root_part()]
            } else {
                Seq::empty()
            }),
            r.len() == (root + clean(ps.take(i as int))).len(),
            forall|k: int| 0 <= k < r.len() ==> #[trigger] r@[k]@ == (root + clean(ps.take(i as int)))[k],
        decreases pieces.len() - i,
    {
        let p = &pieces[i];
        let keep = p.len() > 0 && !(p.len() == 1 && p[0] == '.');
        proof {
            assert(ps.take(i + 1).drop_last() =~= ps.take(i as int));
            assert(ps.take(i + 1).last() == p@);
            if p@ == seq!['.'] {
                assert(p@.len() == 1 && p@[0] == '.');
            }
            if p@.len() == 1 && p@[0] == '.' {
                assert(p@ =~= seq!['.']);
            }
        }
        if keep {
            r.push(pieces[i].clone());
        }
        i += 1;
    }
    assert(ps.take(pieces.len() as int) =~= ps);
    r
}

/// A list of parts as chars.
pub open spec fn parts_view(v: Seq<Vec<char>>) -> Seq<Seq<char>> {
    v.map_values(|x: Vec<char>| x@)
}

/// `base`'s parts are the first parts of `p`'s.
pub open spec fn parts_prefix(base: Seq<Seq<char>>, p: Seq<Seq<char>>) -> bool {
    base.len() <= p.len() && p.take(base.len() as int) == base
}

/// Whether `a` and `b` hold the same chars.
pub fn same_chars(a: &Vec<char>, b: &Vec<char>) -> (r: bool)
    ensures
        r == (a@ == b@),
{
    if a.len() != b.len() {
        return false;
    }
    let mut i: usize = 0;
    while i < a.len()
        invariant
            i <= a.len() == b.len(),
            forall|k: int| 0 <= k < i ==> a@[k] == b@[k],
        decreases a.len() - i,
    {
        if a[i] != b[i] {
            return false;
        }
        i += 1;
    }
    assert(a@ =~= b@);
    true
}

/// Whether the parts `base` are the first parts of `p`.
pub fn starts_with_parts(p: &Vec<Vec<char>>, base: &Vec<Vec<char>>) -> (r: bool)
    ensures
        r == parts_prefix(parts_view(base@), parts_view(p@)),
{
    if base.len() > p.len() {
        return false;
    }
    let mut i: usize = 0;
    while i < base.len()
        invariant
            i <= base.len() <= p.len(),
            forall|k: int| 0 <= k < i ==> p@[k]@ == base@[k]@,
        decreases base.len() - i,
    {
        if !same_chars(&p[i], &base[i]) {
            assert(parts_view(p@).take(base.len() as int)[i as int] != parts_view(base@)[i as int]);
            return false;
        }
        i += 1;
    }
    assert(parts_view(p@).take(base.len() as int) =~= parts_view(base@));
    true
}

/// A drive such as `C:`.
pub open spec fn is_drive(p: Seq<char>) -> bool {
    p.len() == 2 && p[1] == ':' && (('a' <= p[0] <= 'z') || ('A' <= p[0] <= 'Z'))
}

/// `PathBuf::pop` on parts: drops the last part, unless only the root or a drive is left.
pub open spec fn pop_part(r: Seq<Seq<char>>) -> Seq<Seq<char>> {
    if r.len() == 0 || (r.len() == 1 && (r[0] == root_part() || is_drive(r[0]))) {
        r
    } else {
        r.drop_last()
    }
}

/// The parts of a path with `..` resolved against what comes before it, as the app
/// resolves a path without asking the file system.
pub open spec fn lexical(cs: Seq<Seq<char>>) -> Seq<Seq<char>>
    decreases cs.len(),
{
    if cs.len() == 0 {
        Seq::empty()
    } else if cs.last() == seq!['.', '.'] {
        pop_part(lexical(cs.drop_last()))
    } else {
        lexical(cs.drop_last()).push(cs.last())
    }
}

/// The path the parts make, joined by `\`.
pub open spec fn render(cs: Seq<Seq<char>>) -> Seq<char>
    decreases cs.len(),
{
    if cs.len() == 0 {
        Seq::empty()
    } else if cs.len() == 1 {
        cs[0]
    } else if cs.drop_last() == seq![root_part()] {
        root_part() + cs.last()
    } else {
        render(cs.drop_last()) + seq!['\\'] + cs.last()
    }
}

/// `..` resolved in a list of parts.
pub fn lexical_parts(cs: &Vec<Vec<char>>) -> (r: Vec<Vec<char>>)
    ensures
        parts_view(r@) == lexical(parts_view(cs@)),
{
    let mut r: Vec<Vec<char>> = Vec::new();
    let mut i: usize = 0;
    while i < cs.len()
        invariant
            i <= cs.len(),
            parts_view(r@) == lexical(parts_view(cs@).take(i as int)),
        decreases cs.len() - i,
    {
        let c = &cs[i];
        proof {
            assert(parts_view(cs@).take(i + 1).drop_last() =~= parts_view(cs@).take(i as int));
            assert(parts_view(cs@).take(i + 1).last() == c@);
        }
        let dots = c.len() == 2 && c[0] == '.' && c[1] == '.';
        proof {
            if dots {
                assert(c@ =~= seq!['.', '.']);
            }
        }
        if dots {
            let keep = r.len() == 0 || (r.len() == 1 && ((r[0].len() == 1 && r[0][0] == '\\') || (
            r[0].len() == 2 && r[0][1] == ':' && (('a' <= r[0][0] && r[0][0] <= 'z') || ('A'
                <= r[0][0] && r[0][0] <= 'Z')))));
            proof {
                if r.len() == 1 {
                    if r[0]@ == root_part() {
                        assert(r[0]@.len() == 1 && r[0]@[0] == '\\');
                    }
                    if r[0]@.len() == 1 && r[0]@[0] == '\\' {
                        assert(r[0]@ =~= root_part());
                    }
                    assert(parts_view(r@)[0] == r[0]@);
                }
            }
            if !keep {
                let ghost before = parts_view(r@);
                r.pop();
                assert(parts_view(r@) =~= before.drop_last());
            }
        } else {
            let ghost before = parts_view(r@);
            r.push(c.clone());
            assert(parts_view(r@) =~= before.push(c@));
        }
        i += 1;
    }
    assert(parts_view(cs@).take(cs.len() as int) =~= parts_view(cs@));
    r
}

/// The path the parts make.
pub fn render_parts(cs: &Vec<Vec<char>>) -> (r: String)
    ensures
        r@ == render(parts_view(cs@)),
{
    let mut r = String::new();
    let mut i: usize = 0;
    while i < cs.len()
        invariant
            i <= cs.len(),
            r@ == render(parts_view(cs@).take(i as int)),
        decreases cs.len() - i,
    {
        let ghost t = parts_view(cs@).take(i + 1);
        proof {
            assert(t.drop_last() =~= parts_view(cs@).take(i as int));
            assert(t.last() == cs@[i as int]@);
        }
        let root_only = i == 1 && cs[0].len() == 1 && cs[0][0] == '\\';
        proof {
            if i == 1 {
                if t.drop_last() == seq![root_part()] {
                    assert(t.drop_last()[0] == cs@[0]@);
                    assert(cs@[0]@.len() == 1 && cs@[0]@[0] == '\\');
                }
                if cs@[0]@.len() == 1 && cs@[0]@[0] == '\\' {
                    assert(cs@[0]@ =~= root_part());
                    assert(t.drop_last()[0] == cs@[0]@);
                    assert(t.drop_last().len() == 1);
                    assert(t.drop_last() =~= seq![root_part()]);
                }
            }
            if i > 1 {
                assert(t.drop_last().len() > 1);
            }
        }
        if i > 0 && !root_only {
            push_char(&mut r, '\\');
        }
        let c = &cs[i];
        let mut j: usize = 0;
        let ghost start = r@;
        while j < c.len()
            invariant
                j <= c.len(),
                r@ == start + c@.take(j as int),
            decreases c.len() - j,
        {
            push_char(&mut r, c[j]);
            j += 1;
            assert(r@ =~= start + c@.take(j as int));
        }
        assert(c@.take(c.len() as int) =~= c@);
        proof {
            if i == 0 {
                assert(r@ =~= c@);
            } else if root_only {
                assert(r@ =~= root_part() + c@);
            }
        }
        i += 1;
    }
    assert(parts_view(cs@).take(cs.len() as int) =~= parts_view(cs@));
    r
}

/// What `str::to_lowercase` makes of `s`: the Unicode lower-case mapping.
pub uninterp spec fn lowercase(s: Seq<char>) -> Seq<char>;

/// All chars of `s` are ASCII.
pub open spec fn all_ascii(s: Seq<char>) -> bool {
    forall|i: int| 0 <= i < s.len() ==> (#[trigger] s[i] as u32) < 128
}

/// Calls `str::to_lowercase`. Claimed: the result is `lowercase` of `s`, and on ASCII
/// text it lowers `A`-`Z` and keeps every other char (the Unicode mapping agrees with
/// ASCII there); beyond ASCII the Unicode tables are left unsaid.
#[verifier::external_body]
pub fn to_lowercase(s: &str) -> (r: String)
    ensures
        r@ == lowercase(s@),
        all_ascii(s@) ==> r@ == crate::strs::ascii_lower_seq(s@),
{
    s.to_lowercase()
}

/// `base` and `part` joined as `Path::join` joins a relative part on Windows: with a `\`
/// unless `base` is empty, ends with a separator, or is a bare drive.
pub open spec fn joined(base: Seq<char>, part: Seq<char>) -> Seq<char> {
    if base.len() == 0 || is_sep(base.last()) || is_drive(base) {
        base + part
    } else {
        base + seq!['\\'] + part
    }
}

/// `Path::join` of a relative part.
pub fn join(base: &str, part: &str) -> (r: String)
    ensures
        r@ == joined(base@, part@),
{
    let b = chars_of(base);
    let mut r = String::from_str(base);
    let n = b.len();
    let drive = n == 2 && b[1] == ':' && (('a' <= b[0] && b[0] <= 'z') || ('A' <= b[0] && b[0] <= 'Z'));
    if !(n == 0 || b[n - 1] == '\\' || b[n - 1] == '/' || drive) {
        push_char(&mut r, '\\');
    }
    r.append(part);
    r
}

/// The last part of a path when it names a file or folder (not `..` or the root).
pub open spec fn file_name(cs: Seq<Seq<char>>) -> Option<Seq<char>> {
    if cs.len() == 0 || cs.last() == seq!['.', '.'] || cs.last() == root_part() {
        None
    } else {
        Some(cs.last())
    }
}

/// Where the last `.` of `s` is, or -1.
pub open spec fn last_dot(s: Seq<char>) -> int
    decreases s.len(),
{
    if s.len() == 0 {
        -1
    } else if s.last() == '.' {
        s.len() - 1
    } else {
        last_dot(s.drop_last())
    }
}

/// What follows the last `.` of a file name, as `Path::extension`: none when there is no
/// `.`, or the only one starts the name.
pub open spec fn extension(name: Seq<char>) -> Option<Seq<char>> {
    let k = last_dot(name);
    if k <= 0 {
        None
    } else {
        Some(name.skip(k + 1))
    }
}

pub(crate) proof fn lemma_last_dot(s: Seq<char>, k: int)
    requires
        -1 <= k < s.len(),
        k >= 0 ==> s[k] == '.',
        forall|j: int| k < j < s.len() ==> s[j] != '.',
    ensures
        last_dot(s) == k,
    decreases s.len(),
{
    if s.len() > 0 && s.last() != '.' {
        lemma_last_dot(s.drop_last(), k);
    }
}

/// The extension of a file name.
pub fn extension_of(name: &Vec<char>) -> (r: Option<Vec<char>>)
    ensures
        match r {
            Some(e) => extension(name@) == Some(e@),
            None => extension(name@) is None,
        },
{
    let mut k: usize = name.len();
    while k > 0 && name[k - 1] != '.'
        invariant
            k <= name.len(),
            forall|j: int| k <= j < name.len() ==> name@[j] != '.',
        decreases k,
    {
        k -= 1;
    }
    proof {
        lemma_last_dot(name@, k - 1);
    }
    if k <= 1 {
        return None;
    }
    let mut e: Vec<char> = Vec::new();
    let mut j = k;
    while j < name.len()
        invariant
            k <= j <= name.len(),
            e@ == name@.subrange(k as int, j as int),
        decreases name.len() - j,
    {
        e.push(name[j]);
        j += 1;
        assert(e@ =~= name@.subrange(k as int, j as int));
    }
    assert(name@.skip(k as int) =~= name@.subrange(k as int, name.len() as int));
    Some(e)
}

/// The file name of path `p` without its extension, as `Path::file_stem`: the name up
/// to its last `.`, or the whole name when it has none or only a leading one; empty when
/// the path names no file.
pub open spec fn stem(p: Seq<char>) -> Seq<char> {
    match file_name(components(p)) {
        Some(n) => {
            let k = last_dot(n);
            if k <= 0 {
                n
            } else {
                n.take(k)
            }
        },
        None => Seq::empty(),
    }
}

/// See `stem`.
pub fn file_stem(p: &str) -> (r: String)
    ensures
        r@ == stem(p@),
{
    let cs = components_of(p);
    let n = cs.len();
    if n == 0 {
        return String::new();
    }
    let name = &cs[n - 1];
    proof {
        assert(components(p@).last() == name@);
    }
    let dots = name.len() == 2 && name[0] == '.' && name[1] == '.';
    let root = name.len() == 1 && name[0] == '\\';
    proof {
        if name@ == seq!['.', '.'] {
            assert(dots);
        }
        if dots {
            assert(name@ =~= seq!['.', '.']);
        }
        if name@ == root_part() {
            assert(root);
        }
        if root {
            assert(name@ =~= root_part());
        }
    }
    if dots || root {
        return String::new();
    }
    let mut k: usize = name.len();
    while k > 0 && name[k - 1] != '.'
        invariant
            k <= name.len(),
            forall|j: int| k <= j < name.len() ==> name@[j] != '.',
        decreases k,
    {
        k -= 1;
    }
    proof {
        lemma_last_dot(name@, k - 1);
    }
    if k <= 1 {
        crate::strs::string_of(name)
    } else {
        let r = crate::strs::string_of_range(name, 0, k - 1);
        assert(r@ =~= name@.take(k - 1));
        r
    }
}

/// The last part of path `p` when it names a file or folder, as `Path::file_name`.
pub fn file_name_of(p: &str) -> (r: Option<String>)
    ensures
        match r {
            Some(n) => file_name(components(p@)) == Some(n@),
            None => file_name(components(p@)) is None,
        },
{
    let cs = components_of(p);
    let n = cs.len();
    if n == 0 {
        return None;
    }
    let name = &cs[n - 1];
    proof {
        assert(components(p@).last() == name@);
        if name@ == seq!['.', '.'] {
            assert(name@.len() == 2 && name@[0] == '.' && name@[1] == '.');
        }
        if name@ == root_part() {
            assert(name@.len() == 1 && name@[0] == '\\');
        }
    }
    if (name.len() == 2 && name[0] == '.' && name[1] == '.') || (name.len() == 1 && name[0] == '\\') {
        proof {
            if name.len() == 2 {
                assert(name@ =~= seq!['.', '.']);
            } else {
                assert(name@ =~= root_part());
            }
        }
        return None;
    }
    Some(crate::strs::string_of(name))
}

} // verus!
