//! Plugins: packages of content, each a folder under `<data>/plugins/<id>/` with a
//! `plugin.toml` manifest. This module holds what decides whether a Plugin loads: its
//! manifest, its id, the engine version it asks for, and which paths are its content.

use vstd::prelude::*;

use crate::format::{names_of, suggest, suggestion};
use crate::paths::{
    backslash, backslashed, components, components_of, extension, extension_of, file_name, join,
    joined, lexical, lexical_parts, lowercase, parts_prefix, parts_view, render, render_parts,
    same_chars, starts_with_parts, to_lowercase,
};
use crate::strs::{ascii_lower_seq, lower_ascii, string_of, chars_of, concat, concat3, has_prefix, is_ascii_digit, is_ascii_lower, split_chars, split_on, starts_with, str_eq, trim, trimmed};
use crate::keyed::Keyed;
use crate::toml_doc::{parse_document, toml_document, FieldView, TomlField};

verus! {

broadcast use vstd::string::group_string_axioms;

// ---------------------------------------------------------------- versions

/// The value of an ASCII digit.
pub open spec fn digit_value(c: char) -> nat {
    (c as int - '0' as int) as nat
}

/// The digits `s` starts with.
pub open spec fn leading_digits(s: Seq<char>) -> Seq<char>
    decreases s.len(),
{
    if s.len() > 0 && is_ascii_digit(s[0]) {
        seq![s[0]] + leading_digits(s.drop_first())
    } else {
        Seq::empty()
    }
}

/// The number a run of decimal digits writes.
pub open spec fn decimal(d: Seq<char>) -> nat
    decreases d.len(),
{
    if d.len() == 0 {
        0
    } else {
        decimal(d.drop_last()) * 10 + digit_value(d.last())
    }
}

/// One dot-separated part of a version: the number its leading digits write, or 0 when
/// there are none or the number does not fit in a `u64`.
pub open spec fn part_number(p: Seq<char>) -> nat {
    let d = leading_digits(p);
    if d.len() == 0 || decimal(d) > u64::MAX {
        0
    } else {
        decimal(d)
    }
}

/// The numbers of a version, part by part (`1.10.x` is 1, 10, 0).
pub open spec fn version_numbers(v: Seq<char>) -> Seq<nat> {
    split_on(v, '.').map_values(|p: Seq<char>| part_number(p))
}

/// Part `i` of a version, where a missing part is 0 (`1.2` is `1.2.0`).
pub open spec fn num_at(x: Seq<nat>, i: int) -> nat {
    if 0 <= i < x.len() {
        x[i]
    } else {
        0
    }
}

/// Whether `x` is later than `y`: at the first part where they differ, `x`'s is bigger.
pub open spec fn numbers_later(x: Seq<nat>, y: Seq<nat>) -> bool {
    exists|k: int|
        #![trigger num_at(x, k), num_at(y, k)]
        0 <= k < x.len() + y.len() && (forall|i: int| 0 <= i < k ==> num_at(x, i) == num_at(y, i))
            && num_at(x, k) > num_at(y, k)
}

/// Version `a` is later than version `b` (`1.10` is later than `1.9`; `1.2` and
/// `1.2.0` are the same version).
pub open spec fn is_newer(a: Seq<char>, b: Seq<char>) -> bool {
    numbers_later(version_numbers(a), version_numbers(b))
}

proof fn lemma_leading_digits(p: Seq<char>, i: int)
    requires
        0 <= i <= p.len(),
        forall|k: int| 0 <= k < i ==> is_ascii_digit(#[trigger] p[k]),
        i == p.len() || !is_ascii_digit(p[i]),
    ensures
        leading_digits(p) == p.take(i),
    decreases i,
{
    if i == 0 {
        assert(p.take(0) =~= Seq::<char>::empty());
    } else {
        let q = p.drop_first();
        assert forall|k: int| 0 <= k < i - 1 implies is_ascii_digit(#[trigger] q[k]) by {
            assert(q[k] == p[k + 1]);
        }
        if i < p.len() {
            assert(q[i - 1] == p[i]);
        }
        lemma_leading_digits(q, i - 1);
        assert(p.take(i) =~= seq![p[0]] + q.take(i - 1));
    }
}

proof fn lemma_decimal_grows(d: Seq<char>)
    requires
        d.len() > 0,
    ensures
        decimal(d) >= decimal(d.drop_last()) * 10,
{
}

/// `str::parse::<u64>` of the leading digits of `p`, 0 where that fails.
fn part_number_of(p: &Vec<char>) -> (n: u64)
    ensures
        n as nat == part_number(p@),
{
    let mut i: usize = 0;
    let mut acc: Option<u64> = Some(0);
    while i < p.len() && '0' <= p[i] && p[i] <= '9'
        invariant
            i <= p.len(),
            forall|k: int| 0 <= k < i ==> is_ascii_digit(#[trigger] p@[k]),
            acc matches Some(a) ==> a as nat == decimal(p@.take(i as int)),
            acc is None ==> decimal(p@.take(i as int)) > u64::MAX,
        decreases p.len() - i,
    {
        let d: u64 = (p[i] as u32 - '0' as u32) as u64;
        proof {
            assert(p@.take(i + 1).drop_last() =~= p@.take(i as int));
            assert(p@.take(i + 1).last() == p@[i as int]);
            lemma_decimal_grows(p@.take(i + 1));
        }
        acc = match acc {
            Some(a) => match a.checked_mul(10) {
                Some(m) => m.checked_add(d),
                None => {
                    assert(a * 10 > u64::MAX);
                    None
                },
            },
            None => None,
        };
        i += 1;
    }
    proof {
        lemma_leading_digits(p@, i as int);
    }
    if i == 0 {
        0
    } else {
        match acc {
            Some(a) => a,
            None => 0,
        }
    }
}

/// The numbers of version `v`, part by part.
fn version_parts(v: &str) -> (r: Vec<u64>)
    ensures
        r.len() == version_numbers(v@).len(),
        forall|i: int| 0 <= i < r.len() ==> r@[i] as nat == #[trigger] version_numbers(v@)[i],
{
    let cs = chars_of(v);
    let pieces = split_chars(&cs, '.');
    let mut r: Vec<u64> = Vec::new();
    let mut i: usize = 0;
    while i < pieces.len()
        invariant
            i <= pieces.len(),
            cs@ == v@,
            pieces.len() == split_on(cs@, '.').len(),
            forall|k: int| 0 <= k < pieces.len() ==> #[trigger] pieces@[k]@ == split_on(cs@, '.')[k],
            r.len() == i,
            forall|k: int| 0 <= k < i ==> r@[k] as nat == #[trigger] version_numbers(v@)[k],
        decreases pieces.len() - i,
    {
        let n = part_number_of(&pieces[i]);
        r.push(n);
        i += 1;
    }
    r
}

/// `a` is a later version than `b` (`1.10` > `1.9`, `1.2` == `1.2.0`).
pub fn newer(a: &str, b: &str) -> (r: bool)
    ensures
        r == is_newer(a@, b@),
{
    let x = version_parts(a);
    let y = version_parts(b);
    let ghost xs = version_numbers(a@);
    let ghost ys = version_numbers(b@);
    let n = if x.len() >= y.len() {
        x.len()
    } else {
        y.len()
    };
    let mut k: usize = 0;
    while k < n
        invariant
            k <= n,
            n == if x.len() >= y.len() {
                x.len()
            } else {
                y.len()
            },
            xs == version_numbers(a@),
            ys == version_numbers(b@),
            x.len() == xs.len(),
            y.len() == ys.len(),
            forall|i: int| 0 <= i < x.len() ==> x@[i] as nat == #[trigger] xs[i],
            forall|i: int| 0 <= i < y.len() ==> y@[i] as nat == #[trigger] ys[i],
            forall|i: int| 0 <= i < k ==> num_at(xs, i) == num_at(ys, i),
        decreases n - k,
    {
        let xa: u64 = if k < x.len() {
            x[k]
        } else {
            0
        };
        let yb: u64 = if k < y.len() {
            y[k]
        } else {
            0
        };
        assert(xa as nat == num_at(xs, k as int));
        assert(yb as nat == num_at(ys, k as int));
        if xa != yb {
            proof {
                if xa > yb {
                    let kk = k as int;
                    assert(0 <= kk < xs.len() + ys.len());
                    assert(forall|i: int| 0 <= i < kk ==> num_at(xs, i) == num_at(ys, i));
                    assert(num_at(xs, kk) > num_at(ys, kk));
                    assert(numbers_later(xs, ys));
                }
                if xa < yb {
                    assert forall|j: int|
                        0 <= j < xs.len() + ys.len() && (forall|i: int|
                            0 <= i < j ==> num_at(xs, i) == num_at(ys, i)) implies !(num_at(xs, j)
                        > num_at(ys, j)) by {
                        if j > k {
                            assert(num_at(xs, k as int) == num_at(ys, k as int));
                        }
                    }
                    assert(!numbers_later(xs, ys));
                }
            }
            return xa > yb;
        }
        k += 1;
    }
    proof {
        assert forall|j: int|
            0 <= j < xs.len() + ys.len() && (forall|i: int|
                0 <= i < j ==> num_at(xs, i) == num_at(ys, i)) implies !(num_at(xs, j) > num_at(
            ys,
            j,
        )) by {
            if j >= n {
                assert(num_at(xs, j) == 0);
            }
        }
    }
    false
}

/// Splitting at `c` around one `c` splits each side.
proof fn lemma_split_around(a: Seq<char>, c: char, t: Seq<char>)
    ensures
        split_on(a + seq![c] + t, c) == split_on(a, c) + split_on(t, c),
    decreases a.len(),
{
    let s = a + seq![c] + t;
    crate::strs::lemma_first_index(a, c);
    let i = crate::strs::first_index(a, c);
    if i < 0 {
        crate::strs::lemma_first_index_at(s, c, a.len() as int);
        assert(s.take(a.len() as int) =~= a);
        assert(s.skip(a.len() as int + 1) =~= t);
    } else {
        assert forall|k: int| 0 <= k < i implies s[k] != c by {
            assert(s[k] == a[k]);
        }
        crate::strs::lemma_first_index_at(s, c, i);
        let a2 = a.skip(i + 1);
        lemma_split_around(a2, c, t);
        assert(s.skip(i + 1) =~= a2 + seq![c] + t);
        assert(s.take(i) =~= a.take(i));
        assert(split_on(s, c) =~= seq![a.take(i)] + (split_on(a2, c) + split_on(t, c)));
        assert(split_on(a, c) == seq![a.take(i)] + split_on(a2, c));
    }
}

/// A run of digits is one part, its number.
proof fn lemma_digit_part(d: Seq<char>)
    requires
        d.len() > 0,
        forall|k: int| 0 <= k < d.len() ==> '0' <= #[trigger] d[k] <= '9',
        decimal(d) <= u64::MAX,
    ensures
        split_on(d, '.') == seq![d],
        part_number(d) == decimal(d),
{
    crate::strs::lemma_first_index_at(d, '.', d.len() as int);
    lemma_leading_digits(d, d.len() as int);
    assert(d.take(d.len() as int) =~= d);
}

/// Versions that are single numbers compare as numbers: `10` is later than `9`.
pub proof fn lemma_newer_by_number(a: Seq<char>, b: Seq<char>)
    requires
        a.len() > 0 && b.len() > 0,
        forall|k: int| 0 <= k < a.len() ==> '0' <= #[trigger] a[k] <= '9',
        forall|k: int| 0 <= k < b.len() ==> '0' <= #[trigger] b[k] <= '9',
        decimal(a) <= u64::MAX && decimal(b) <= u64::MAX,
    ensures
        is_newer(a, b) <==> decimal(a) > decimal(b),
{
    lemma_digit_part(a);
    lemma_digit_part(b);
    let x = version_numbers(a);
    let y = version_numbers(b);
    assert(x =~= seq![decimal(a)]);
    assert(y =~= seq![decimal(b)]);
    if decimal(a) > decimal(b) {
        assert(num_at(x, 0) > num_at(y, 0));
    }
    if is_newer(a, b) {
        let k = choose|k: int|
            #![trigger num_at(x, k), num_at(y, k)]
            0 <= k < x.len() + y.len() && (forall|i: int| 0 <= i < k ==> num_at(x, i) == num_at(y, i))
                && num_at(x, k) > num_at(y, k);
        assert(k == 0);
    }
}

/// The first part decides: a version whose first number is bigger is later, whatever
/// follows (`2.0` is later than `1.9.9`).
pub proof fn lemma_newer_by_first_part(a: Seq<char>, ra: Seq<char>, b: Seq<char>, rb: Seq<char>)
    requires
        a.len() > 0 && b.len() > 0,
        forall|k: int| 0 <= k < a.len() ==> '0' <= #[trigger] a[k] <= '9',
        forall|k: int| 0 <= k < b.len() ==> '0' <= #[trigger] b[k] <= '9',
        decimal(a) <= u64::MAX && decimal(b) <= u64::MAX,
        decimal(a) > decimal(b),
    ensures
        is_newer(a + "."@ + ra, b + "."@ + rb),
{
    reveal_strlit(".");
    lemma_digit_part(a);
    lemma_digit_part(b);
    assert(a + "."@ + ra == a + seq!['.'] + ra);
    assert(b + "."@ + rb == b + seq!['.'] + rb);
    lemma_split_around(a, '.', ra);
    lemma_split_around(b, '.', rb);
    let x = version_numbers(a + "."@ + ra);
    let y = version_numbers(b + "."@ + rb);
    assert(x[0] == decimal(a));
    assert(y[0] == decimal(b));
    assert(num_at(x, 0) > num_at(y, 0));
}

/// A trailing `.0` changes nothing: `1.2` and `1.2.0` are the same version.
pub proof fn lemma_trailing_zero(v: Seq<char>)
    ensures
        !is_newer(v + ".0"@, v),
        !is_newer(v, v + ".0"@),
{
    reveal_strlit(".0");
    assert(v + ".0"@ == v + seq!['.'] + seq!['0']);
    lemma_split_around(v, '.', seq!['0']);
    let z = seq!['0'];
    crate::strs::lemma_first_index_at(z, '.', 1);
    lemma_leading_digits(z, 1);
    assert(z.take(1) =~= z);
    assert(split_on(z, '.') =~= seq![z]);
    assert(decimal(z) == decimal(z.drop_last()) * 10 + digit_value('0'));
    assert(part_number(z) == 0);
    let x = version_numbers(v + ".0"@);
    let y = version_numbers(v);
    assert(x =~= y.push(0));
    assert forall|i: int| #![trigger num_at(x, i), num_at(y, i)] num_at(x, i) == num_at(y, i) by {}
}

/// No version is later than itself.
pub proof fn lemma_newer_irreflexive(a: Seq<char>)
    ensures
        !is_newer(a, a),
{
}

/// Of two versions at most one is the later.
pub proof fn lemma_newer_asymmetric(a: Seq<char>, b: Seq<char>)
    ensures
        is_newer(a, b) ==> !is_newer(b, a),
{
    let (x, y) = (version_numbers(a), version_numbers(b));
    if is_newer(a, b) && is_newer(b, a) {
        let k1 = choose|k: int|
            #![trigger num_at(x, k), num_at(y, k)]
            0 <= k < x.len() + y.len() && (forall|i: int| 0 <= i < k ==> num_at(x, i) == num_at(y, i))
                && num_at(x, k) > num_at(y, k);
        let k2 = choose|k: int|
            #![trigger num_at(y, k), num_at(x, k)]
            0 <= k < y.len() + x.len() && (forall|i: int| 0 <= i < k ==> num_at(y, i) == num_at(x, i))
                && num_at(y, k) > num_at(x, k);
        if k1 < k2 {
            assert(num_at(y, k1) == num_at(x, k1));
        } else if k2 < k1 {
            assert(num_at(x, k2) == num_at(y, k2));
        }
    }
}

/// Later-than is transitive.
pub proof fn lemma_newer_transitive(a: Seq<char>, b: Seq<char>, c: Seq<char>)
    requires
        is_newer(a, b),
        is_newer(b, c),
    ensures
        is_newer(a, c),
{
    let (x, y, z) = (version_numbers(a), version_numbers(b), version_numbers(c));
    let k1 = choose|k: int|
        #![trigger num_at(x, k), num_at(y, k)]
        0 <= k < x.len() + y.len() && (forall|i: int| 0 <= i < k ==> num_at(x, i) == num_at(y, i))
            && num_at(x, k) > num_at(y, k);
    let k2 = choose|k: int|
        #![trigger num_at(y, k), num_at(z, k)]
        0 <= k < y.len() + z.len() && (forall|i: int| 0 <= i < k ==> num_at(y, i) == num_at(z, i))
            && num_at(y, k) > num_at(z, k);
    let k = if k1 <= k2 {
        k1
    } else {
        k2
    };
    assert forall|i: int| 0 <= i < k implies num_at(x, i) == num_at(z, i) by {
        assert(num_at(x, i) == num_at(y, i));
        assert(num_at(y, i) == num_at(z, i));
    }
    if k1 < k2 {
        assert(num_at(y, k1) == num_at(z, k1));
    } else if k2 < k1 {
        assert(num_at(x, k2) == num_at(y, k2));
    }
    assert(num_at(x, k) > num_at(z, k));
    if k >= x.len() + z.len() {
        assert(num_at(x, k) == 0);
    }
}

// ---------------------------------------------------------------- ids

/// A char an id may hold: lower-case ASCII letters, digits, `-` and `_`.
pub open spec fn id_char(c: char) -> bool {
    is_ascii_lower(c) || is_ascii_digit(c) || c == '-' || c == '_'
}

/// 1 to 64 id chars, starting with a letter or digit.
pub open spec fn id_shape_ok(s: Seq<char>) -> bool {
    &&& 1 <= s.len() <= 64
    &&& forall|k: int| 0 <= k < s.len() ==> id_char(#[trigger] s[k])
    &&& (is_ascii_lower(s[0]) || is_ascii_digit(s[0]))
}

/// The device names Windows reserves: `con`, `prn`, `aux`, `nul`, `com0`-`com9`,
/// `lpt0`-`lpt9`.
pub open spec fn reserved_name(s: Seq<char>) -> bool {
    ||| s == "con"@
    ||| s == "prn"@
    ||| s == "aux"@
    ||| s == "nul"@
    ||| ((has_prefix(s, "com"@) || has_prefix(s, "lpt"@)) && s.len() == 4 && is_ascii_digit(s[3]))
}

/// The error for an id of the wrong shape.
pub open spec fn bad_id_message(s: Seq<char>) -> Seq<char> {
    "id `"@ + s
        + "`: use 1 to 64 lower-case letters, digits, `-` or `_`, starting with a letter or digit"@
}

/// The error for an id Windows reserves.
pub open spec fn reserved_id_message(s: Seq<char>) -> Seq<char> {
    "id `"@ + s + "` is a reserved Windows name"@
}

/// What `valid_id` answers for `s`.
pub open spec fn id_check(s: Seq<char>) -> Result<(), Seq<char>> {
    if !id_shape_ok(s) {
        Err(bad_id_message(s))
    } else if reserved_name(s) {
        Err(reserved_id_message(s))
    } else {
        Ok(())
    }
}

/// A Plugin id is accepted exactly when it is 1 to 64 chars of `a`-`z`, `0`-`9`, `-` and
/// `_`, starts with a letter or digit, and is none of the names Windows reserves for
/// devices (`con`, `prn`, `aux`, `nul`, `com0` to `com9`, `lpt0` to `lpt9`).
pub proof fn lemma_id_accepted(s: Seq<char>)
    ensures
        id_check(s) is Ok <==> {
            &&& 1 <= s.len() <= 64
            &&& forall|k: int| 0 <= k < s.len() ==> ('a' <= #[trigger] s[k] <= 'z') || ('0' <= s[k] <= '9') || s[k] == '-' || s[k] == '_'
            &&& (('a' <= s[0] <= 'z') || ('0' <= s[0] <= '9'))
            &&& s != seq!['c', 'o', 'n'] && s != seq!['p', 'r', 'n'] && s != seq!['a', 'u', 'x'] && s != seq!['n', 'u', 'l']
            &&& !(s.len() == 4 && ((s[0] == 'c' && s[1] == 'o' && s[2] == 'm') || (s[0] == 'l' && s[1] == 'p' && s[2] == 't'))
                && '0' <= s[3] <= '9')
        },
{
    reveal_strlit("con");
    reveal_strlit("prn");
    reveal_strlit("aux");
    reveal_strlit("nul");
    reveal_strlit("com");
    reveal_strlit("lpt");
    assert("con"@ =~= seq!['c', 'o', 'n']);
    assert("prn"@ =~= seq!['p', 'r', 'n']);
    assert("aux"@ =~= seq!['a', 'u', 'x']);
    assert("nul"@ =~= seq!['n', 'u', 'l']);
    if s.len() == 4 {
        assert(has_prefix(s, "com"@) <==> (s[0] == 'c' && s[1] == 'o' && s[2] == 'm')) by {
            if s[0] == 'c' && s[1] == 'o' && s[2] == 'm' {
                assert(s.take(3) =~= "com"@);
            }
            if has_prefix(s, "com"@) {
                assert(s[0] == s.take(3)[0] && s[1] == s.take(3)[1] && s[2] == s.take(3)[2]);
                assert("com"@[0] == 'c' && "com"@[1] == 'o' && "com"@[2] == 'm');
            }
        }
        assert(has_prefix(s, "lpt"@) <==> (s[0] == 'l' && s[1] == 'p' && s[2] == 't')) by {
            if s[0] == 'l' && s[1] == 'p' && s[2] == 't' {
                assert(s.take(3) =~= "lpt"@);
            }
            if has_prefix(s, "lpt"@) {
                assert(s[0] == s.take(3)[0] && s[1] == s.take(3)[1] && s[2] == s.take(3)[2]);
                assert("lpt"@[0] == 'l' && "lpt"@[1] == 'p' && "lpt"@[2] == 't');
            }
        }
    }
}

/// An id is a safe folder name that never clashes with the separators in Settings
/// actions: 1 to 64 lower-case letters, digits, `-` and `_`, starting with a letter or
/// digit, and not a name Windows reserves.
pub fn valid_id(id: &str) -> (r: Result<(), String>)
    ensures
        r matches Ok(_) ==> id_check(id@) is Ok,
        r matches Err(e) ==> id_check(id@) == Err::<(), Seq<char>>(e@),
{
    let cs = chars_of(id);
    let mut ok_chars = true;
    let mut i: usize = 0;
    while i < cs.len()
        invariant
            i <= cs.len(),
            cs@ == id@,
            ok_chars == forall|k: int| 0 <= k < i ==> id_char(#[trigger] cs@[k]),
        decreases cs.len() - i,
    {
        let c = cs[i];
        let good = ('a' <= c && c <= 'z') || ('0' <= c && c <= '9') || c == '-' || c == '_';
        ok_chars = ok_chars && good;
        i += 1;
    }
    let first_ok = cs.len() > 0 && (('a' <= cs[0] && cs[0] <= 'z') || ('0' <= cs[0] && cs[0] <= '9'));
    if cs.len() == 0 || cs.len() > 64 || !ok_chars || !first_ok {
        return Err(concat3(
            "id `",
            id,
            "`: use 1 to 64 lower-case letters, digits, `-` or `_`, starting with a letter or digit",
        ));
    }
    let reserved = str_eq(id, "con") || str_eq(id, "prn") || str_eq(id, "aux") || str_eq(id, "nul")
        || ((starts_with(id, "com") || starts_with(id, "lpt")) && cs.len() == 4 && '0' <= cs[3]
        && cs[3] <= '9');
    if reserved {
        return Err(concat3("id `", id, "` is a reserved Windows name"));
    }
    Ok(())
}

// ---------------------------------------------------------------- manifests

/// A Plugin's `plugin.toml`.
pub struct Manifest {
    pub id: String,
    pub name: String,
    pub version: String,
    pub author: String,
    pub description: String,
    pub homepage: Option<String>,
    /// The oldest Wayfinder that can load it.
    pub wayfinder: Option<String>,
}

/// A manifest's fields as chars.
pub struct ManifestView {
    pub id: Seq<char>,
    pub name: Seq<char>,
    pub version: Seq<char>,
    pub author: Seq<char>,
    pub description: Seq<char>,
    pub homepage: Option<Seq<char>>,
    pub wayfinder: Option<Seq<char>>,
}

/// An optional string as chars.
pub open spec fn opt_chars(o: Option<String>) -> Option<Seq<char>> {
    match o {
        Some(s) => Some(s@),
        None => None,
    }
}

impl View for Manifest {
    type V = ManifestView;

    open spec fn view(&self) -> ManifestView {
        ManifestView {
            id: self.id@,
            name: self.name@,
            version: self.version@,
            author: self.author@,
            description: self.description@,
            homepage: opt_chars(self.homepage),
            wayfinder: opt_chars(self.wayfinder),
        }
    }
}

/// The keys a manifest may hold.
pub open spec fn manifest_keys() -> Seq<Seq<char>> {
    seq![
        "id"@,
        "name"@,
        "version"@,
        "author"@,
        "description"@,
        "homepage"@,
        "wayfinder"@,
        "code"@,
    ]
}

/// The entries of a parsed document.
pub type Entries = Seq<(Seq<char>, FieldView)>;

/// The first entry with key `k`, or -1.
pub open spec fn find_key(d: Entries, k: Seq<char>) -> int
    decreases d.len(),
{
    if d.len() == 0 {
        -1
    } else if d[0].0 == k {
        0
    } else {
        let r = find_key(d.drop_first(), k);
        if r < 0 {
            -1
        } else {
            r + 1
        }
    }
}

/// The first entry whose key a manifest may not hold, or -1.
pub open spec fn first_unknown(d: Entries) -> int
    decreases d.len(),
{
    if d.len() == 0 {
        -1
    } else if !manifest_keys().contains(d[0].0) {
        0
    } else {
        let r = first_unknown(d.drop_first());
        if r < 0 {
            -1
        } else {
            r + 1
        }
    }
}

/// The trimmed text at key `k`, `None` when absent, an error when it is not text.
pub open spec fn text_field(d: Entries, k: Seq<char>) -> Result<Option<Seq<char>>, Seq<char>> {
    let i = find_key(d, k);
    if i < 0 {
        Ok(None)
    } else {
        match d[i].1 {
            FieldView::Text(s) => Ok(Some(trimmed(s))),
            FieldView::Other => Err("`"@ + k + "` must be text"@),
        }
    }
}

/// The trimmed text at key `k`, which must be there and not empty.
pub open spec fn needed_field(d: Entries, k: Seq<char>) -> Result<Seq<char>, Seq<char>> {
    match text_field(d, k) {
        Err(e) => Err(e),
        Ok(Some(s)) => if s.len() > 0 {
            Ok(s)
        } else {
            Err("missing `"@ + k + "`"@)
        },
        Ok(None) => Err("missing `"@ + k + "`"@),
    }
}

/// The text at key `k`, empty when absent.
pub open spec fn or_empty(o: Option<Seq<char>>) -> Seq<char> {
    match o {
        Some(s) => s,
        None => Seq::empty(),
    }
}

/// The error for a manifest asking for a later engine than `engine`.
pub open spec fn too_new_message(w: Seq<char>, engine: Seq<char>) -> Seq<char> {
    "needs Wayfinder "@ + w + " or newer (this is "@ + engine + ")"@
}

/// The manifest that a document's entries make for engine version `engine`, or the
/// first error in this order: a key a manifest may not hold (with a suggestion), a
/// `code` table (which needs a newer engine), a missing or bad `id`, a `wayfinder`
/// version later than `engine`, then a missing `name` or `version`, then a field that
/// is not text.
pub open spec fn manifest_of_entries(d: Entries, engine: Seq<char>) -> Result<ManifestView, Seq<char>> {
    let u = first_unknown(d);
    if u >= 0 {
        Err("unknown key `"@ + d[u].0 + "`"@ + suggestion(d[u].0, seq![manifest_keys()]))
    } else if find_key(d, "code"@) >= 0 {
        Err("it runs code, which needs a newer Wayfinder"@)
    } else {
        match needed_field(d, "id"@) {
            Err(e) => Err(e),
            Ok(id) => match id_check(id) {
                Err(e) => Err(e),
                Ok(_) => match text_field(d, "wayfinder"@) {
                    Err(e) => Err(e),
                    Ok(w) => if w is Some && is_newer(w->0, engine) {
                        Err(too_new_message(w->0, engine))
                    } else {
                        match (
                            needed_field(d, "name"@),
                            needed_field(d, "version"@),
                            text_field(d, "author"@),
                            text_field(d, "description"@),
                            text_field(d, "homepage"@),
                        ) {
                            (Err(e), _, _, _, _) => Err(e),
                            (Ok(_), Err(e), _, _, _) => Err(e),
                            (Ok(_), Ok(_), Err(e), _, _) => Err(e),
                            (Ok(_), Ok(_), Ok(_), Err(e), _) => Err(e),
                            (Ok(_), Ok(_), Ok(_), Ok(_), Err(e)) => Err(e),
                            (Ok(name), Ok(version), Ok(author), Ok(description), Ok(homepage)) => Ok(
                                ManifestView {
                                    id,
                                    name,
                                    version,
                                    author: or_empty(author),
                                    description: or_empty(description),
                                    homepage,
                                    wayfinder: w,
                                },
                            ),
                        }
                    },
                },
            },
        }
    }
}

proof fn lemma_find_key_props(d: Entries, k: Seq<char>)
    ensures
        -1 <= find_key(d, k) < d.len(),
        find_key(d, k) >= 0 ==> d[find_key(d, k)].0 == k,
        forall|j: int| 0 <= j < d.len() && (find_key(d, k) < 0 || j < find_key(d, k)) ==> d[j].0 != k,
    decreases d.len(),
{
    if d.len() > 0 && d[0].0 != k {
        lemma_find_key_props(d.drop_first(), k);
        assert forall|j: int| 0 < j < d.len() implies d[j] == d.drop_first()[j - 1] by {}
    }
}

/// An accepted manifest answer.
pub open spec fn manifest_ok(m: ManifestView) -> Result<ManifestView, Seq<char>> {
    Ok(m)
}

/// An accepted manifest runs no code, names a valid id (see `lemma_id_accepted`) and
/// a name and a version that are not blank, each the trimmed text of the first entry under
/// its key; and when it names the engine version it needs, that version is no later than
/// this engine's.
pub proof fn lemma_manifest_accepted(d: Entries, engine: Seq<char>, m: ManifestView)
    requires
        manifest_of_entries(d, engine) == manifest_ok(m),
    ensures
        forall|i: int| 0 <= i < d.len() ==> (#[trigger] d[i]).0 != "code"@,
        id_check(m.id) is Ok,
        m.name.len() > 0 && m.version.len() > 0,
        exists|i: int| 0 <= i < d.len() && (forall|j: int| 0 <= j < i ==> d[j].0 != "id"@) && d[i].0 == "id"@ && d[i].1
            == FieldView::Text(#[trigger] d[i].1->Text_0) && m.id == trimmed(d[i].1->Text_0),
        exists|i: int| 0 <= i < d.len() && (forall|j: int| 0 <= j < i ==> d[j].0 != "name"@) && d[i].0 == "name"@ && d[i].1
            == FieldView::Text(#[trigger] d[i].1->Text_0) && m.name == trimmed(d[i].1->Text_0),
        exists|i: int| 0 <= i < d.len() && (forall|j: int| 0 <= j < i ==> d[j].0 != "version"@) && d[i].0 == "version"@
            && d[i].1 == FieldView::Text(#[trigger] d[i].1->Text_0) && m.version == trimmed(d[i].1->Text_0),
        m.wayfinder matches Some(w) ==> !is_newer(w, engine),
{
    lemma_find_key_props(d, "code"@);
    lemma_find_key_props(d, "id"@);
    lemma_find_key_props(d, "name"@);
    lemma_find_key_props(d, "version"@);
    let i = find_key(d, "id"@);
    let j = find_key(d, "name"@);
    let k = find_key(d, "version"@);
    assert(d[i].1 == FieldView::Text(d[i].1->Text_0));
    assert(d[j].1 == FieldView::Text(d[j].1->Text_0));
    assert(d[k].1 == FieldView::Text(d[k].1->Text_0));
}

/// What `Manifest::parse_for` answers for document `src` and engine `engine`.
pub open spec fn manifest_of(src: Seq<char>, engine: Seq<char>) -> Result<ManifestView, Seq<char>> {
    match toml_document(src) {
        Err(e) => Err(e),
        Ok(d) => manifest_of_entries(d, engine),
    }
}

/// The engine version of this build.
pub const ENGINE: &'static str = "0.1.0";

/// The keys a manifest may hold, in the order a suggestion names them.
fn key_names() -> (r: Vec<&'static str>)
    ensures
        r@.map_values(|s: &str| s@) == manifest_keys(),
{
    let mut r = Vec::new();
    r.push("id");
    r.push("name");
    r.push("version");
    r.push("author");
    r.push("description");
    r.push("homepage");
    r.push("wayfinder");
    r.push("code");
    assert(r@.map_values(|s: &str| s@) =~= manifest_keys());
    r
}

/// The first entry with key `k`.
fn find_entry(d: &Vec<(String, TomlField)>, k: &str) -> (r: Option<usize>)
    ensures
        r matches Some(i) ==> i < d.len() && find_key(doc_view_of(d@), k@) == i,
        r is None ==> find_key(doc_view_of(d@), k@) == -1,
{
    let mut i: usize = 0;
    while i < d.len()
        invariant
            i <= d.len(),
            forall|j: int| 0 <= j < i ==> d@[j].0@ != k@,
        decreases d.len() - i,
    {
        if str_eq(d[i].0.as_str(), k) {
            proof {
                lemma_find_key_at(doc_view_of(d@), k@, i as int);
            }
            return Some(i);
        }
        i += 1;
    }
    proof {
        lemma_find_key_at(doc_view_of(d@), k@, d.len() as int);
    }
    None
}

/// `doc_view` under a shorter name for this file.
pub open spec fn doc_view_of(v: Seq<(String, TomlField)>) -> Entries {
    crate::toml_doc::doc_view(v)
}

proof fn lemma_find_key_at(d: Entries, k: Seq<char>, i: int)
    requires
        0 <= i <= d.len(),
        forall|j: int| 0 <= j < i ==> d[j].0 != k,
        i == d.len() || d[i].0 == k,
    ensures
        find_key(d, k) == if i == d.len() {
            -1
        } else {
            i
        },
    decreases d.len(),
{
    if d.len() > 0 && i > 0 {
        lemma_find_key_at(d.drop_first(), k, i - 1);
    }
}

proof fn lemma_first_unknown_at(d: Entries, i: int)
    requires
        0 <= i <= d.len(),
        forall|j: int| 0 <= j < i ==> manifest_keys().contains(#[trigger] d[j].0),
        i == d.len() || !manifest_keys().contains(d[i].0),
    ensures
        first_unknown(d) == if i == d.len() {
            -1
        } else {
            i
        },
    decreases d.len(),
{
    if d.len() > 0 && i > 0 {
        let e = d.drop_first();
        assert forall|j: int| 0 <= j < i - 1 implies manifest_keys().contains(#[trigger] e[j].0) by {
            assert(e[j] == d[j + 1]);
        }
        lemma_first_unknown_at(e, i - 1);
    }
}

/// The trimmed text at key `k`.
fn text_of(d: &Vec<(String, TomlField)>, k: &str) -> (r: Result<Option<String>, String>)
    ensures
        r matches Ok(o) ==> text_field(doc_view_of(d@), k@) == Ok::<Option<Seq<char>>, Seq<char>>(opt_chars(o)),
        r matches Err(e) ==> text_field(doc_view_of(d@), k@) == Err::<Option<Seq<char>>, Seq<char>>(e@),
{
    match find_entry(d, k) {
        None => Ok(None),
        Some(i) => match &d[i].1 {
            TomlField::Text(s) => Ok(Some(trim(s.as_str()))),
            TomlField::Other => Err(concat3("`", k, "` must be text")),
        },
    }
}

/// The trimmed text at key `k`, which must be there and not empty.
fn need(d: &Vec<(String, TomlField)>, k: &str) -> (r: Result<String, String>)
    ensures
        r matches Ok(s) ==> needed_field(doc_view_of(d@), k@) == Ok::<Seq<char>, Seq<char>>(s@),
        r matches Err(e) ==> needed_field(doc_view_of(d@), k@) == Err::<Seq<char>, Seq<char>>(e@),
{
    match text_of(d, k)? {
        Some(s) => {
            if s.as_str().is_empty() {
                Err(concat3("missing `", k, "`"))
            } else {
                Ok(s)
            }
        },
        None => Err(concat3("missing `", k, "`")),
    }
}

/// Whether `k` is a key a manifest may hold.
fn known_key(keys: &Vec<&'static str>, k: &str) -> (r: bool)
    requires
        keys@.map_values(|s: &str| s@) == manifest_keys(),
    ensures
        r == manifest_keys().contains(k@),
{
    let mut i: usize = 0;
    while i < keys.len()
        invariant
            i <= keys.len(),
            keys@.map_values(|s: &str| s@) == manifest_keys(),
            forall|j: int| 0 <= j < i ==> manifest_keys()[j] != k@,
        decreases keys.len() - i,
    {
        assert(keys@.map_values(|s: &str| s@)[i as int] == keys@[i as int]@);
        if str_eq(keys[i], k) {
            assert(manifest_keys()[i as int] == k@);
            return true;
        }
        i += 1;
    }
    proof {
        if manifest_keys().contains(k@) {
            let j = choose|j: int| 0 <= j < manifest_keys().len() && manifest_keys()[j] == k@;
            assert(manifest_keys()[j] != k@);
        }
    }
    false
}

impl Manifest {
    /// Reads a manifest for this build's engine version.
    pub fn parse(src: &str) -> (r: Result<Manifest, String>)
        ensures
            r matches Ok(m) ==> manifest_of(src@, ENGINE@) == Ok::<ManifestView, Seq<char>>(m@),
            r matches Err(e) ==> manifest_of(src@, ENGINE@) == Err::<ManifestView, Seq<char>>(e@),
    {
        Self::parse_for(src, ENGINE)
    }

    /// Reads a manifest for an engine of version `engine`.
    pub fn parse_for(src: &str, engine: &str) -> (r: Result<Manifest, String>)
        ensures
            r matches Ok(m) ==> manifest_of(src@, engine@) == Ok::<ManifestView, Seq<char>>(m@),
            r matches Err(e) ==> manifest_of(src@, engine@) == Err::<ManifestView, Seq<char>>(e@),
    {
        let t = parse_document(src)?;
        Self::from_entries(&t, engine)
    }

    /// Reads a manifest for an engine of version `engine` from the entries of its TOML
    /// table (see `manifest_of_entries`).
    pub fn from_entries(t: &Vec<(String, TomlField)>, engine: &str) -> (r: Result<Manifest, String>)
        ensures
            r matches Ok(m) ==> manifest_of_entries(doc_view_of(t@), engine@) == Ok::<ManifestView, Seq<char>>(m@),
            r matches Err(e) ==> manifest_of_entries(doc_view_of(t@), engine@) == Err::<ManifestView, Seq<char>>(e@),
    {
        let ghost d = doc_view_of(t@);
        let keys = key_names();
        let mut i: usize = 0;
        while i < t.len()
            invariant
                i <= t.len(),
                d == doc_view_of(t@),
                keys@.map_values(|s: &str| s@) == manifest_keys(),
                forall|j: int| 0 <= j < i ==> manifest_keys().contains(#[trigger] d[j].0),
            decreases t.len() - i,
        {
            let k = t[i].0.as_str();
            if !known_key(&keys, k) {
                proof {
                    lemma_first_unknown_at(d, i as int);
                }
                let mut pool: Vec<&[&str]> = Vec::new();
                pool.push(keys.as_slice());
                let hint = suggest(k, pool.as_slice());
                proof {
                    assert(pool@[0]@ == keys@);
                    assert(crate::format::names_of(pool@) =~= seq![manifest_keys()]);
                    assert(d[i as int].0 == k@);
                }
                let head = concat3("unknown key `", k, "`");
                let msg = concat(head.as_str(), hint.as_str());
                proof {
                    assert(first_unknown(d) == i);
                    assert(msg@ == "unknown key `"@ + d[i as int].0 + "`"@ + suggestion(d[i as int].0, seq![manifest_keys()]));
                    assert(manifest_of_entries(d, engine@) == Err::<ManifestView, Seq<char>>(msg@));
                }
                return Err(msg);
            }
            i += 1;
        }
        proof {
            lemma_first_unknown_at(d, t.len() as int);
        }
        if find_entry(&t, "code").is_some() {
            return Err(String::from_str("it runs code, which needs a newer Wayfinder"));
        }
        let id = need(&t, "id")?;
        valid_id(id.as_str())?;
        let wayfinder = text_of(&t, "wayfinder")?;
        if let Some(w) = &wayfinder {
            if newer(w.as_str(), engine) {
                let a = concat3("needs Wayfinder ", w.as_str(), " or newer (this is ");
                return Err(concat3(a.as_str(), engine, ")"));
            }
        }
        let name = need(&t, "name")?;
        let version = need(&t, "version")?;
        let author = match text_of(&t, "author")? {
            Some(s) => s,
            None => String::new(),
        };
        let description = match text_of(&t, "description")? {
            Some(s) => s,
            None => String::new(),
        };
        let homepage = text_of(&t, "homepage")?;
        let m = Manifest { id, name, version, author, description, homepage, wayfinder };
        proof {
            assert(m@.author =~= or_empty(text_field(d, "author"@)->Ok_0));
            assert(m@.description =~= or_empty(text_field(d, "description"@)->Ok_0));
        }
        Ok(m)
    }
}

// ---------------------------------------------------------------- the store

/// The manifest's file name in a Plugin folder.
pub const MANIFEST: &'static str = "plugin.toml";

/// One folder under `plugins/`. A Plugin whose manifest is broken is listed but never
/// loaded.
pub struct Plugin {
    /// The folder name.
    pub id: String,
    pub dir: String,
    pub manifest: Result<Manifest, String>,
}

impl Plugin {
    /// Its manifest's name, or its folder name when the manifest is broken.
    pub fn name(&self) -> (r: &str)
        ensures
            r@ == match self.manifest {
                Ok(m) => m.name@,
                Err(_) => self.id@,
            },
    {
        match &self.manifest {
            Ok(m) => m.name.as_str(),
            Err(_) => self.id.as_str(),
        }
    }
}

/// What a Plugin folder's manifest gives: none when the file cannot be read; its
/// error, prefixed with the file's name, when it is broken; an error when it names
/// another id than its folder's; else the manifest.
pub open spec fn folder_manifest(folder: Seq<char>, src: Option<Seq<char>>) -> Result<ManifestView, Seq<char>> {
    match src {
        None => Err("no plugin.toml"@),
        Some(s) => match manifest_of(s, ENGINE@) {
            Err(e) => Err("plugin.toml: "@ + e),
            Ok(m) => if m.id != folder {
                Err("plugin.toml says id `"@ + m.id + "`, but its folder is `"@ + folder + "`"@)
            } else {
                Ok(m)
            },
        },
    }
}

/// The manifest of the Plugin in folder `folder`, from the text of its `plugin.toml`
/// (`None` when it cannot be read).
pub fn read_manifest(folder: &str, src: Option<&str>) -> (r: Result<Manifest, String>)
    ensures
        r matches Ok(m) ==> folder_manifest(folder@, opt_str(src)) == Ok::<ManifestView, Seq<char>>(m@),
        r matches Err(e) ==> folder_manifest(folder@, opt_str(src)) == Err::<ManifestView, Seq<char>>(e@),
{
    let s = match src {
        None => return Err(String::from_str("no plugin.toml")),
        Some(s) => s,
    };
    let m = match Manifest::parse(s) {
        Err(e) => return Err(concat("plugin.toml: ", e.as_str())),
        Ok(m) => m,
    };
    if !str_eq(m.id.as_str(), folder) {
        let a = concat3("plugin.toml says id `", m.id.as_str(), "`, but its folder is `");
        return Err(concat3(a.as_str(), folder, "`"));
    }
    Ok(m)
}

/// An optional string slice as chars.
pub open spec fn opt_str(o: Option<&str>) -> Option<Seq<char>> {
    match o {
        Some(s) => Some(s@),
        None => None,
    }
}

/// The name of a scratch folder next to the data folder `name`: `<name>.<what>-<pid>-<n>`.
pub open spec fn scratch_text(name: Seq<char>, what: Seq<char>, pid: u32, n: u64) -> Seq<char> {
    name + "."@ + what + "-"@ + crate::thumbs::decimal_text(pid as nat) + "-"@ + crate::thumbs::decimal_text(n as nat)
}

/// The `n`th scratch folder name for `what` (`install`, `trash`) of process `pid`.
pub fn scratch_name(name: &str, what: &str, pid: u32, n: u64) -> (r: String)
    ensures
        r@ == scratch_text(name@, what@, pid, n),
{
    let a = concat3(name, ".", what);
    let b = concat3(a.as_str(), "-", crate::thumbs::decimal_string(pid as u64).as_str());
    concat3(b.as_str(), "-", crate::thumbs::decimal_string(n).as_str())
}

/// A folder next to the data folder `name` that an interrupted install or removal left.
pub open spec fn is_leftover(name: Seq<char>, entry: Seq<char>) -> bool {
    has_prefix(entry, name + ".install-"@) || has_prefix(entry, name + ".trash-"@)
}

/// Whether `entry`, next to the data folder `name`, is a leftover to delete.
pub fn leftover(name: &str, entry: &str) -> (r: bool)
    ensures
        r == is_leftover(name@, entry@),
{
    starts_with(entry, concat(name, ".install-").as_str()) || starts_with(entry, concat(name, ".trash-").as_str())
}

/// The folder that holds the Plugins.
pub struct PluginStore {
    dir: String,
}

impl PluginStore {
    /// The folder's path.
    pub closed spec fn path(&self) -> Seq<char> {
        self.dir@
    }

    /// The store of data folder `data`: its `plugins` folder.
    pub fn new(data: &str) -> (r: PluginStore)
        ensures
            r.path() == joined(data@, "plugins"@),
    {
        PluginStore { dir: join(data, "plugins") }
    }

    pub fn dir(&self) -> (r: &str)
        ensures
            r@ == self.path(),
    {
        self.dir.as_str()
    }
}

/// A content root a loaded Plugin adds: its id and folder.
pub struct Root {
    pub id: String,
    pub dir: String,
}

/// The ids in a list of strings.
pub open spec fn strings_view(v: Seq<String>) -> Seq<Seq<char>> {
    v.map_values(|s: String| s@)
}

/// The Plugins that load, in list order: a valid manifest and not switched off.
pub open spec fn loaded(list: Seq<Plugin>, disabled: Seq<Seq<char>>) -> Seq<(Seq<char>, Seq<char>)>
    decreases list.len(),
{
    if list.len() == 0 {
        Seq::empty()
    } else {
        let r = loaded(list.drop_last(), disabled);
        let p = list.last();
        if p.manifest is Ok && !disabled.contains(p.id@) {
            r.push((p.id@, p.dir@))
        } else {
            r
        }
    }
}

/// Whether `s` is in `v`.
fn contains_str(v: &[String], s: &str) -> (r: bool)
    ensures
        r == strings_view(v@).contains(s@),
{
    let mut i: usize = 0;
    while i < v.len()
        invariant
            i <= v.len(),
            forall|k: int| 0 <= k < i ==> v@[k]@ != s@,
        decreases v.len() - i,
    {
        if str_eq(v[i].as_str(), s) {
            assert(strings_view(v@)[i as int] == s@);
            return true;
        }
        i += 1;
    }
    proof {
        if strings_view(v@).contains(s@) {
            let k = choose|k: int| 0 <= k < strings_view(v@).len() && strings_view(v@)[k] == s@;
            assert(v@[k]@ == s@);
        }
    }
    false
}

/// The content roots of the Plugins that load: a valid manifest and not switched off.
pub fn roots(list: &[Plugin], disabled: &[String]) -> (r: Vec<Root>)
    ensures
        r@.map_values(|x: Root| (x.id@, x.dir@)) == loaded(list@, strings_view(disabled@)),
{
    let mut r: Vec<Root> = Vec::new();
    let mut i: usize = 0;
    while i < list.len()
        invariant
            i <= list.len(),
            r@.map_values(|x: Root| (x.id@, x.dir@)) == loaded(list@.take(i as int), strings_view(disabled@)),
        decreases list.len() - i,
    {
        let p = &list[i];
        proof {
            assert(list@.take(i + 1).drop_last() =~= list@.take(i as int));
            assert(list@.take(i + 1).last() == *p);
        }
        if p.manifest.is_ok() && !contains_str(disabled, p.id.as_str()) {
            let ghost before = r@;
            r.push(Root { id: string_of(&chars_of(p.id.as_str())), dir: string_of(&chars_of(p.dir.as_str())) });
            assert(r@.map_values(|x: Root| (x.id@, x.dir@)) =~= before.map_values(|x: Root| (x.id@, x.dir@)).push((p.id@, p.dir@)));
        }
        i += 1;
    }
    assert(list@.take(list.len() as int) =~= list@);
    r
}

/// The kinds of content a Plugin can hold.
#[derive(Clone, Copy, Debug, PartialEq, Eq)]
pub enum Item {
    Widget,
    Palette,
    FontSet,
    GlyphSet,
    IconPack,
}

/// How the Plugins page names a kind of item.
pub open spec fn item_name(item: Item) -> Seq<char> {
    match item {
        Item::Widget => "widget"@,
        Item::Palette => "palette"@,
        Item::FontSet => "font set"@,
        Item::GlyphSet => "glyph set"@,
        Item::IconPack => "icon pack"@,
    }
}

/// How the Plugins page names a kind of item.
pub fn item_word(item: Item) -> (r: &'static str)
    ensures
        r@ == item_name(item),
{
    match item {
        Item::Widget => "widget",
        Item::Palette => "palette",
        Item::FontSet => "font set",
        Item::GlyphSet => "glyph set",
        Item::IconPack => "icon pack",
    }
}

// ---------------------------------------------------------------- content paths

/// The extensions of files that are content.
pub open spec fn content_extensions() -> Seq<Seq<char>> {
    seq!["toml"@, "png"@, "ttf"@, "otf"@, "ttc"@, "otc"@]
}

/// Whether a change at path `p` under the data folder `data` can change content: a
/// content file (by extension, in any case), or a Plugin folder itself; never our own
/// writes (`workspace.json`, the log), nothing under a dot-folder (the store's staging),
/// nothing outside `data`.
pub open spec fn content_change(data: Seq<char>, p: Seq<char>) -> bool {
    let dc = components(data);
    let pc = components(p);
    if !parts_prefix(dc, pc) {
        false
    } else {
        let parts = pc.skip(dc.len() as int);
        if exists|k: int| 0 <= k < parts.len() && parts[k].len() > 0 && parts[k][0] == '.' {
            false
        } else if parts.len() == 2 && parts[0] == "plugins"@ {
            true
        } else {
            match file_name(pc) {
                Some(n) => match extension(n) {
                    Some(e) => content_extensions().contains(ascii_lower_seq(e)),
                    None => false,
                },
                None => false,
            }
        }
    }
}

/// A file under the data folder, outside dot-folders and not a Plugin folder itself, is
/// content exactly when its extension (after its last `.`, not a leading one), in any case,
/// is `toml`, `png`, `ttf`, `otf`, `ttc` or `otc`. `rest` is the path's parts below the
/// data folder, and `k` where the file name's last `.` is.
pub proof fn lemma_content_by_extension(data: Seq<char>, p: Seq<char>, rest: Seq<Seq<char>>, k: int)
    requires
        components(p) == components(data) + rest,
        rest.len() > 0,
        forall|i: int| 0 <= i < rest.len() ==> !(rest[i].len() > 0 && rest[i][0] == '.'),
        !(rest.len() == 2 && rest[0] == "plugins"@),
        0 < k < rest.last().len(),
        rest.last()[k] == '.',
        forall|j: int| k < j < rest.last().len() ==> rest.last()[j] != '.',
    ensures
        ({
            let e = ascii_lower_seq(rest.last().skip(k + 1));
            content_change(data, p) <==> (e == "toml"@ || e == "png"@ || e == "ttf"@ || e == "otf"@ || e == "ttc"@
                || e == "otc"@)
        }),
{
    let dc = components(data);
    let pc = components(p);
    let n = rest.last();
    assert(pc.take(dc.len() as int) =~= dc);
    assert(pc.skip(dc.len() as int) =~= rest);
    assert(pc.last() == n);
    crate::paths::lemma_last_dot(n, k);
    let e = ascii_lower_seq(n.skip(k + 1));
    let c = content_extensions();
    if n == seq!['.', '.'] {
        assert(k == 1);
        assert(n.skip(2).len() == 0);
        assert(e.len() == 0);
        reveal_strlit("toml");
        reveal_strlit("png");
        reveal_strlit("ttf");
        reveal_strlit("otf");
        reveal_strlit("ttc");
        reveal_strlit("otc");
    } else {
        assert(n != crate::paths::root_part()) by {
            if n == crate::paths::root_part() {
                assert(n.len() == 1);
            }
        }
        assert(file_name(pc) == Some(n));
        assert(extension(n) == Some(n.skip(k + 1)));
        if c.contains(e) {
            let i = choose|i: int| 0 <= i < c.len() && c[i] == e;
        }
        if e == "toml"@ { assert(c[0] == e); }
        if e == "png"@ { assert(c[1] == e); }
        if e == "ttf"@ { assert(c[2] == e); }
        if e == "otf"@ { assert(c[3] == e); }
        if e == "ttc"@ { assert(c[4] == e); }
        if e == "otc"@ { assert(c[5] == e); }
    }
}

/// Nothing outside the data folder is content, nor anything under a dot-folder in it; a
/// Plugin's own folder (`plugins\<name>`, not a dot-folder) is.
pub proof fn lemma_content_stays_inside(data: Seq<char>, p: Seq<char>, name: Seq<char>)
    ensures
        !(components(data).len() <= components(p).len() && components(p).take(components(data).len() as int)
            == components(data)) ==> !content_change(data, p),
        (exists|k: int|
            components(data).len() <= k < components(p).len() && (#[trigger] components(p)[k]).len() > 0
                && components(p)[k][0] == '.') ==> !content_change(data, p),
        components(p) == components(data) + seq!["plugins"@, name] && !(name.len() > 0 && name[0] == '.')
            ==> content_change(data, p),
{
    let dc = components(data);
    let pc = components(p);
    if dc.len() <= pc.len() && pc.take(dc.len() as int) == dc {
        let parts = pc.skip(dc.len() as int);
        if exists|k: int| dc.len() <= k < pc.len() && (#[trigger] pc[k]).len() > 0 && pc[k][0] == '.' {
            let k = choose|k: int| dc.len() <= k < pc.len() && (#[trigger] pc[k]).len() > 0 && pc[k][0] == '.';
            assert(parts[k - dc.len()] == pc[k]);
        }
    }
    if pc == dc + seq!["plugins"@, name] && !(name.len() > 0 && name[0] == '.') {
        reveal_strlit("plugins");
        assert(pc.take(dc.len() as int) =~= dc);
        let parts = pc.skip(dc.len() as int);
        assert(parts =~= seq!["plugins"@, name]);
        assert forall|k: int| 0 <= k < parts.len() implies !(parts[k].len() > 0 && parts[k][0] == '.') by {
            if k == 0 {
                assert(parts[0] == "plugins"@);
            }
        }
    }
}

/// Whether `e` (already lower-case) is a content extension.
fn content_extension(e: &str) -> (r: bool)
    ensures
        r == content_extensions().contains(e@),
{
    let r = str_eq(e, "toml") || str_eq(e, "png") || str_eq(e, "ttf") || str_eq(e, "otf")
        || str_eq(e, "ttc") || str_eq(e, "otc");
    proof {
        let c = content_extensions();
        if r {
            if e@ == "toml"@ { assert(c[0] == e@); }
            if e@ == "png"@ { assert(c[1] == e@); }
            if e@ == "ttf"@ { assert(c[2] == e@); }
            if e@ == "otf"@ { assert(c[3] == e@); }
            if e@ == "ttc"@ { assert(c[4] == e@); }
            if e@ == "otc"@ { assert(c[5] == e@); }
        } else if c.contains(e@) {
            let k = choose|k: int| 0 <= k < c.len() && c[k] == e@;
            assert(c[k] == e@);
        }
    }
    r
}

/// Whether a change under the data folder can change content. Our own writes
/// (`workspace.json`, the log) and dot-folders (the store's staging) do not.
pub fn is_content_change(data: &str, p: &str) -> (r: bool)
    ensures
        r == content_change(data@, p@),
{
    let dc = components_of(data);
    let pc = components_of(p);
    proof {
        assert(parts_view(dc@) =~= components(data@));
        assert(parts_view(pc@) =~= components(p@));
    }
    if !starts_with_parts(&pc, &dc) {
        return false;
    }
    let ghost parts = components(p@).skip(dc.len() as int);
    let mut k: usize = dc.len();
    while k < pc.len()
        invariant
            dc.len() <= k <= pc.len(),
            parts_view(pc@) == components(p@),
            parts_view(dc@) == components(data@),
            parts_prefix(components(data@), components(p@)),
            parts == components(p@).skip(dc.len() as int),
            forall|j: int| 0 <= j < k - dc.len() ==> !(parts[j].len() > 0 && parts[j][0] == '.'),
        decreases pc.len() - k,
    {
        assert(parts[k - dc.len()] == pc@[k as int]@);
        if pc[k].len() > 0 && pc[k][0] == '.' {
            proof {
                let j = k - dc.len();
                assert(parts[j].len() > 0 && parts[j][0] == '.');
            }
            return false;
        }
        k += 1;
    }
    let plugins = chars_of("plugins");
    if pc.len() - dc.len() == 2 && same_chars(&pc[dc.len()], &plugins) {
        assert(parts[0] == pc@[dc.len() as int]@);
        return true;
    }
    proof {
        if parts.len() == 2 {
            assert(parts[0] == pc@[dc.len() as int]@);
        }
    }
    let n = pc.len();
    if n == 0 {
        return false;
    }
    let last = &pc[n - 1];
    let dots = last.len() == 2 && last[0] == '.' && last[1] == '.';
    let root = last.len() == 1 && last[0] == '\\';
    proof {
        assert(components(p@).last() == last@);
        if last@ == seq!['.', '.'] {
            assert(dots);
        }
        if dots {
            assert(last@ =~= seq!['.', '.']);
        }
        if last@ == crate::paths::root_part() {
            assert(root);
        }
        if root {
            assert(last@ =~= crate::paths::root_part());
        }
    }
    if dots || root {
        return false;
    }
    match extension_of(last) {
        None => false,
        Some(e) => {
            let es = string_of(&e);
            let low = lower_ascii(es.as_str());
            content_extension(low.as_str())
        },
    }
}

/// A path as the launch check compares it: `..` resolved, lower-cased, `/` as `\`.
pub open spec fn folded(s: Seq<char>) -> Seq<Seq<char>> {
    components(backslashed(lowercase(render(lexical(components(s))))))
}

/// Whether launching `target` would start something inside the Plugins folder of data
/// folder `data`.
pub open spec fn launches_plugin_file(data: Seq<char>, target: Seq<char>) -> bool {
    parts_prefix(folded(joined(data, "plugins"@)), folded(trimmed(target)))
}

fn fold_path(s: &str) -> (r: Vec<Vec<char>>)
    ensures
        parts_view(r@) == folded(s@),
{
    let comps = components_of(s);
    proof {
        assert(parts_view(comps@) =~= components(s@));
    }
    let lex = lexical_parts(&comps);
    let text = render_parts(&lex);
    let low = to_lowercase(text.as_str());
    let b = backslash(&chars_of(low.as_str()));
    let bs = string_of(&b);
    let r = components_of(bs.as_str());
    proof {
        assert(parts_view(r@) =~= components(bs@));
    }
    r
}

/// A `launch` target inside the plugins folder: content must never start a program.
pub fn inside_plugins(data: &str, target: &str) -> (r: bool)
    ensures
        r == launches_plugin_file(data@, target@),
{
    let t = trim(target);
    let base = join(data, "plugins");
    let a = fold_path(t.as_str());
    let b = fold_path(base.as_str());
    starts_with_parts(&a, &b)
}


/// Where an item that is offered more than once comes from.
#[derive(Clone, Debug, PartialEq)]
pub enum Origin {
    Plugin(String),
    BuiltIn,
    /// The user's own files under the data folder.
    User,
}

/// `Origin` with a Plugin's id as chars.
pub enum OriginView {
    Plugin(Seq<char>),
    BuiltIn,
    User,
}

impl View for Origin {
    type V = OriginView;

    open spec fn view(&self) -> OriginView {
        match self {
            Origin::Plugin(id) => OriginView::Plugin(id@),
            Origin::BuiltIn => OriginView::BuiltIn,
            Origin::User => OriginView::User,
        }
    }
}

/// An item offered by two origins: the winner's is used, the loser's hidden.
pub struct Shadow {
    pub item: Item,
    pub name: String,
    pub winner: Origin,
    pub loser: Origin,
}

/// What a Plugin holds: its summary ("3 widgets · 2 palettes") and its Widgets' ids.
pub struct PluginContents {
    pub summary: String,
    pub widgets: Vec<String>,
}

/// What loading the content of the enabled Plugins found, as the Plugins page needs it.
pub struct Catalog {
    /// Problems found loading Widgets and theme axes, each starting with its file's path.
    pub errors: Vec<String>,
    pub shadows: Vec<Shadow>,
    /// Where each Widget in use comes from, by id.
    pub widget_origins: Vec<(String, Origin)>,
    /// Each loaded Widget's name, by id.
    pub widget_names: Vec<(String, String)>,
    /// Each built-in Widget's name, by id.
    pub builtin_names: Vec<(String, String)>,
    /// What each Plugin holds, by its id.
    pub contents: Vec<(String, PluginContents)>,
}

/// The name that `names` gives `id`, or `id` itself.
pub open spec fn name_in(names: Seq<(String, String)>, id: Seq<char>) -> Seq<char> {
    let k = crate::settings::key_at(names, id);
    if k >= 0 {
        names[k].1@
    } else {
        id
    }
}

/// A Plugin's name: its manifest's, or its folder's when the manifest is broken.
pub open spec fn plugin_name(p: Plugin) -> Seq<char> {
    match p.manifest {
        Ok(m) => m.name@,
        Err(_) => p.id@,
    }
}

/// Where the Plugin with id `id` first is in `list`, or -1.
pub open spec fn plugin_at(list: Seq<Plugin>, id: Seq<char>) -> int
    decreases list.len(),
{
    if list.len() == 0 {
        -1
    } else {
        let k = plugin_at(list.drop_last(), id);
        if k >= 0 {
            k
        } else if list.last().id@ == id {
            list.len() - 1
        } else {
            -1
        }
    }
}

proof fn lemma_plugin_at(list: Seq<Plugin>, id: Seq<char>)
    ensures
        -1 <= plugin_at(list, id) < list.len(),
        plugin_at(list, id) >= 0 ==> list[plugin_at(list, id)].id@ == id,
        forall|j: int| 0 <= j < list.len() && (plugin_at(list, id) == -1 || j < plugin_at(list, id)) ==> list[j].id@ != id,
    decreases list.len(),
{
    if list.len() > 0 {
        let p = list.drop_last();
        lemma_plugin_at(p, id);
        assert forall|j: int| 0 <= j < list.len() && (plugin_at(list, id) == -1 || j < plugin_at(list, id)) implies list[j].id@ != id by {
            if j < p.len() {
                assert(p[j] == list[j]);
            }
        }
    }
}

/// How a row names an origin: a Plugin by its name, `Wayfinder`, or `your own files`.
pub open spec fn origin_named(o: OriginView, list: Seq<Plugin>) -> Seq<char> {
    match o {
        OriginView::Plugin(id) => {
            let k = plugin_at(list, id);
            if k >= 0 {
                plugin_name(list[k])
            } else {
                id
            }
        },
        OriginView::BuiltIn => "Wayfinder"@,
        OriginView::User => "your own files"@,
    }
}

/// An item as a row names it: a Widget by its loaded name.
pub open spec fn item_label(item: Item, name: Seq<char>, cat: Catalog) -> Seq<char> {
    if item is Widget {
        name_in(cat.widget_names@, name)
    } else {
        name
    }
}

/// What the shadows say of Plugin `me`: what it restyles of the built-ins, the notes,
/// and the problems, each in the shadows' order.
pub open spec fn shadow_effects(shs: Seq<Shadow>, me: Seq<char>, list: Seq<Plugin>, cat: Catalog) -> (
    Seq<Seq<char>>,
    Seq<Seq<char>>,
    Seq<Seq<char>>,
)
    decreases shs.len(),
{
    if shs.len() == 0 {
        (Seq::empty(), Seq::empty(), Seq::empty())
    } else {
        let (r, n, p) = shadow_effects(shs.drop_last(), me, list, cat);
        let sh = shs.last();
        let what = item_name(sh.item) + " "@ + item_label(sh.item, sh.name@, cat);
        if sh.winner@ == OriginView::Plugin(me) && sh.loser@ == OriginView::BuiltIn {
            (
                r.push(
                    if sh.item is Widget {
                        name_in(cat.builtin_names@, sh.name@)
                    } else {
                        sh.name@
                    },
                ),
                n,
                p,
            )
        } else if sh.loser@ == OriginView::Plugin(me) && sh.winner@ == OriginView::User {
            (r, n.push("Your own files replace its "@ + what), p)
        } else if sh.loser@ == OriginView::Plugin(me) {
            (r, n, p.push("Its "@ + what + " is hidden: "@ + origin_named(sh.winner@, list) + " has one too, and wins"@))
        } else {
            (r, n, p)
        }
    }
}

/// `xs` joined with `sep` between them.
pub open spec fn joined_by(xs: Seq<Seq<char>>, sep: Seq<char>) -> Seq<char>
    decreases xs.len(),
{
    if xs.len() == 0 {
        Seq::empty()
    } else if xs.len() == 1 {
        xs[0]
    } else {
        joined_by(xs.drop_last(), sep) + sep + xs.last()
    }
}

/// `s` without the `\` and `/` it starts with.
pub open spec fn drop_seps(s: Seq<char>) -> Seq<char>
    decreases s.len(),
{
    if s.len() > 0 && (s[0] == '\\' || s[0] == '/') {
        drop_seps(s.drop_first())
    } else {
        s
    }
}

/// The errors under folder `dir`, each without the folder.
pub open spec fn dir_errors(errs: Seq<String>, dir: Seq<char>) -> Seq<Seq<char>>
    decreases errs.len(),
{
    if errs.len() == 0 {
        Seq::empty()
    } else {
        let r = dir_errors(errs.drop_last(), dir);
        let e = errs.last()@;
        if has_prefix(e, dir) {
            r.push(drop_seps(e.skip(dir.len() as int)))
        } else {
            r
        }
    }
}

/// Only Plugin `me` offers Widget `w`: it is where the Widget in use comes from, if any,
/// and the loser of every shadow of that Widget.
pub open spec fn offers_alone(w: Seq<char>, me: Seq<char>, cat: Catalog) -> bool {
    &&& (match crate::settings::value_of(cat.widget_origins@, w) {
        Some(o) => o@ == OriginView::Plugin(me),
        None => true,
    })
    &&& forall|j: int|
        0 <= j < cat.shadows@.len() && cat.shadows@[j].item is Widget && (#[trigger] cat.shadows@[j]).name@ == w
            ==> cat.shadows@[j].loser@ == OriginView::Plugin(me)
}

/// The Widgets of `ws` only Plugin `me` offers, in order.
pub open spec fn alone(ws: Seq<String>, me: Seq<char>, cat: Catalog) -> Seq<Seq<char>>
    decreases ws.len(),
{
    if ws.len() == 0 {
        Seq::empty()
    } else {
        let r = alone(ws.drop_last(), me, cat);
        if offers_alone(ws.last()@, me, cat) {
            r.push(ws.last()@)
        } else {
            r
        }
    }
}

/// What the catalog says a Plugin holds; nothing when it says nothing.
pub open spec fn contents_of(cat: Catalog, id: Seq<char>) -> (Seq<char>, Seq<String>) {
    let k = crate::settings::key_at(cat.contents@, id);
    if k >= 0 {
        (cat.contents@[k].1.summary@, cat.contents@[k].1.widgets@)
    } else {
        (Seq::empty(), Seq::empty())
    }
}

/// A manifest field, or nothing when the manifest is broken.
pub open spec fn manifest_field(p: Plugin, f: spec_fn(Manifest) -> String) -> Seq<char> {
    match p.manifest {
        Ok(m) => f(m)@,
        Err(_) => Seq::empty(),
    }
}

/// The notes of Plugin `p`'s row: what it restyles first, then the other notes.
pub open spec fn row_notes(p: Plugin, list: Seq<Plugin>, cat: Catalog) -> Seq<Seq<char>> {
    let (r, n, _) = shadow_effects(cat.shadows@, p.id@, list, cat);
    if r.len() > 0 {
        seq!["Restyles "@ + joined_by(r, ", "@)] + n
    } else {
        n
    }
}

/// The problems of Plugin `p`'s row: its broken manifest, the errors in its folder, then
/// what of it is hidden.
pub open spec fn row_problems(p: Plugin, list: Seq<Plugin>, cat: Catalog) -> Seq<Seq<char>> {
    let (_, _, sp) = shadow_effects(cat.shadows@, p.id@, list, cat);
    (match p.manifest {
        Ok(_) => Seq::empty(),
        Err(e) => seq![e@],
    }) + dir_errors(cat.errors@, p.dir@) + sp
}

/// The Plugins page's row of `p`.
pub open spec fn is_row_of(r: PluginRow, p: Plugin, list: Seq<Plugin>, disabled: Seq<Seq<char>>, cat: Catalog) -> bool {
    &&& r.id@ == p.id@
    &&& r.name@ == plugin_name(p)
    &&& r.version@ == manifest_field(p, |m: Manifest| m.version)
    &&& r.author@ == manifest_field(p, |m: Manifest| m.author)
    &&& r.description@ == manifest_field(p, |m: Manifest| m.description)
    &&& r.summary@ == contents_of(cat, p.id@).0
    &&& r.enabled == !disabled.contains(p.id@)
    &&& crate::settings::strings_view(r.notes@) == row_notes(p, list, cat)
    &&& crate::settings::strings_view(r.problems@) == row_problems(p, list, cat)
    &&& crate::settings::strings_view(r.sole_widgets@) == alone(contents_of(cat, p.id@).1, p.id@, cat)
}

fn name_from(names: &Vec<(String, String)>, id: &str) -> (r: String)
    ensures
        r@ == name_in(names@, id@),
{
    match crate::settings::find_key(names, id) {
        Some(k) => names[k].1.clone(),
        None => String::from_str(id),
    }
}

fn is_plugin(o: &Origin, me: &str) -> (b: bool)
    ensures
        b == (o@ == OriginView::Plugin(me@)),
{
    match o {
        Origin::Plugin(id) => str_eq(id.as_str(), me),
        _ => false,
    }
}

fn origin_name(o: &Origin, list: &[Plugin]) -> (r: String)
    ensures
        r@ == origin_named(o@, list@),
{
    match o {
        Origin::Plugin(id) => {
            proof {
                lemma_plugin_at(list@, id@);
            }
            let mut i: usize = 0;
            while i < list.len()
                invariant
                    i <= list.len(),
                    o@ == OriginView::Plugin(id@),
                    forall|j: int| 0 <= j < i ==> list@[j].id@ != id@,
                decreases list.len() - i,
            {
                if str_eq(list[i].id.as_str(), id.as_str()) {
                    proof {
                        lemma_plugin_at(list@, id@);
                        let f = plugin_at(list@, id@);
                        if f >= 0 && f < i {
                            assert(list@[f].id@ == id@);
                        }
                        assert(f == i);
                        assert(o@ == OriginView::Plugin(id@));
                    }
                    let n = list[i].name();
                    assert(n@ == plugin_name(list@[i as int]));
                    return String::from_str(n);
                }
                i += 1;
            }
            proof {
                let f = plugin_at(list@, id@);
                if f >= 0 {
                    assert(list@[f].id@ == id@);
                }
            }
            id.clone()
        },
        Origin::BuiltIn => String::from_str("Wayfinder"),
        Origin::User => String::from_str("your own files"),
    }
}

/// See `joined_by`.
pub(crate) fn join_by(xs: &Vec<String>, sep: &str) -> (r: String)
    ensures
        r@ == joined_by(crate::settings::strings_view(xs@), sep@),
{
    let ghost v = crate::settings::strings_view(xs@);
    let mut r = String::new();
    let mut i: usize = 0;
    while i < xs.len()
        invariant
            i <= xs.len(),
            v == crate::settings::strings_view(xs@),
            r@ == joined_by(v.take(i as int), sep@),
        decreases xs.len() - i,
    {
        assert(v.take(i + 1).drop_last() =~= v.take(i as int));
        if i == 0 {
            assert(v.take(1) =~= seq![xs@[0]@]);
            r = xs[0].clone();
        } else {
            r = concat3(r.as_str(), sep, xs[i].as_str());
        }
        i += 1;
    }
    assert(v.take(xs.len() as int) =~= v);
    r
}

/// See `drop_seps`.
fn without_seps(s: &str) -> (r: String)
    ensures
        r@ == drop_seps(s@),
{
    let cs = chars_of(s);
    let mut k: usize = 0;
    assert(s@.skip(0) =~= s@);
    while k < cs.len() && (cs[k] == '\\' || cs[k] == '/')
        invariant
            k <= cs.len(),
            cs@ == s@,
            drop_seps(s@) == drop_seps(s@.skip(k as int)),
        decreases cs.len() - k,
    {
        assert(s@.skip(k as int).drop_first() =~= s@.skip(k + 1));
        k += 1;
    }
    let r = crate::strs::string_of_range(&cs, k, cs.len());
    assert(r@ =~= s@.skip(k as int));
    r
}

/// What the shadows say of Plugin `me`: see `shadow_effects`.
fn effects(me: &str, list: &[Plugin], cat: &Catalog) -> (r: (Vec<String>, Vec<String>, Vec<String>))
    ensures
        (crate::settings::strings_view(r.0@), crate::settings::strings_view(r.1@), crate::settings::strings_view(r.2@))
            == shadow_effects(cat.shadows@, me@, list@, *cat),
{
    let ghost all = cat.shadows@;
    let mut restyles: Vec<String> = Vec::new();
    let mut notes: Vec<String> = Vec::new();
    let mut problems: Vec<String> = Vec::new();
    let mut j: usize = 0;
    while j < cat.shadows.len()
        invariant
            j <= cat.shadows.len(),
            all == cat.shadows@,
            (crate::settings::strings_view(restyles@), crate::settings::strings_view(notes@), crate::settings::strings_view(problems@))
                == shadow_effects(all.take(j as int), me@, list@, *cat),
        decreases cat.shadows.len() - j,
    {
        let sh = &cat.shadows[j];
        assert(all.take(j + 1).drop_last() =~= all.take(j as int));
        assert(all.take(j + 1).last() == *sh);
        let label = if matches!(sh.item, Item::Widget) {
            name_from(&cat.widget_names, sh.name.as_str())
        } else {
            sh.name.clone()
        };
        let what = concat3(item_word(sh.item), " ", label.as_str());
        let ghost r0 = crate::settings::strings_view(restyles@);
        let ghost n0 = crate::settings::strings_view(notes@);
        let ghost p0 = crate::settings::strings_view(problems@);
        if is_plugin(&sh.winner, me) && matches!(sh.loser, Origin::BuiltIn) {
            let n = if matches!(sh.item, Item::Widget) {
                name_from(&cat.builtin_names, sh.name.as_str())
            } else {
                sh.name.clone()
            };
            restyles.push(n);
            assert(crate::settings::strings_view(restyles@) =~= r0.push(restyles@[restyles.len() - 1]@));
        } else if is_plugin(&sh.loser, me) && matches!(sh.winner, Origin::User) {
            notes.push(concat("Your own files replace its ", what.as_str()));
            assert(crate::settings::strings_view(notes@) =~= n0.push(notes@[notes.len() - 1]@));
        } else if is_plugin(&sh.loser, me) {
            let a = concat3("Its ", what.as_str(), " is hidden: ");
            let b = origin_name(&sh.winner, list);
            problems.push(concat3(a.as_str(), b.as_str(), " has one too, and wins"));
            assert(crate::settings::strings_view(problems@) =~= p0.push(problems@[problems.len() - 1]@));
        }
        j += 1;
    }
    assert(all.take(cat.shadows.len() as int) =~= all);
    (restyles, notes, problems)
}

/// See `dir_errors`.
fn errors_in(errs: &Vec<String>, dir: &str) -> (r: Vec<String>)
    ensures
        crate::settings::strings_view(r@) == dir_errors(errs@, dir@),
{
    let dl = chars_of(dir).len();
    let mut r: Vec<String> = Vec::new();
    let mut i: usize = 0;
    while i < errs.len()
        invariant
            i <= errs.len(),
            dl == dir@.len(),
            crate::settings::strings_view(r@) == dir_errors(errs@.take(i as int), dir@),
        decreases errs.len() - i,
    {
        assert(errs@.take(i + 1).drop_last() =~= errs@.take(i as int));
        let e = errs[i].as_str();
        if starts_with(e, dir) {
            let ghost before = crate::settings::strings_view(r@);
            let cs = chars_of(e);
            let tail = crate::strs::string_of_range(&cs, dl, cs.len());
            assert(tail@ =~= e@.skip(dir@.len() as int));
            r.push(without_seps(tail.as_str()));
            assert(crate::settings::strings_view(r@) =~= before.push(r@[r.len() - 1]@));
        }
        i += 1;
    }
    assert(errs@.take(errs.len() as int) =~= errs@);
    r
}

fn offered_alone(w: &str, me: &str, cat: &Catalog) -> (b: bool)
    ensures
        b == offers_alone(w@, me@, *cat),
{
    let first = match crate::settings::find_key(&cat.widget_origins, w) {
        Some(k) => is_plugin(&cat.widget_origins[k].1, me),
        None => true,
    };
    if !first {
        return false;
    }
    let mut j: usize = 0;
    while j < cat.shadows.len()
        invariant
            j <= cat.shadows.len(),
            forall|x: int|
                0 <= x < j && cat.shadows@[x].item is Widget && (#[trigger] cat.shadows@[x]).name@ == w@
                    ==> cat.shadows@[x].loser@ == OriginView::Plugin(me@),
        decreases cat.shadows.len() - j,
    {
        let sh = &cat.shadows[j];
        if matches!(sh.item, Item::Widget) && str_eq(sh.name.as_str(), w) && !is_plugin(&sh.loser, me) {
            return false;
        }
        j += 1;
    }
    true
}

/// The Plugins page's rows, one per Plugin of `list`, in order: see `is_row_of`.
pub fn rows(list: &[Plugin], disabled: &[String], cat: &Catalog) -> (r: Vec<PluginRow>)
    ensures
        r.len() == list.len(),
        forall|i: int|
            0 <= i < list.len() ==> is_row_of(#[trigger] r@[i], list@[i], list@, crate::settings::strings_view(disabled@), *cat),
{
    let mut r: Vec<PluginRow> = Vec::new();
    let mut i: usize = 0;
    while i < list.len()
        invariant
            i <= list.len(),
            r.len() == i,
            forall|x: int|
                0 <= x < i ==> is_row_of(#[trigger] r@[x], list@[x], list@, crate::settings::strings_view(disabled@), *cat),
        decreases list.len() - i,
    {
        let p = &list[i];
        let me = p.id.as_str();
        let (restyles, mut notes, effects_problems) = effects(me, list, cat);
        if restyles.len() > 0 {
            let ghost n0 = crate::settings::strings_view(notes@);
            let head = concat("Restyles ", join_by(&restyles, ", ").as_str());
            notes.insert(0, head);
            assert(crate::settings::strings_view(notes@) =~= seq![notes@[0]@] + n0);
        }
        let mut problems: Vec<String> = Vec::new();
        if let Err(e) = &p.manifest {
            problems.push(e.clone());
        }
        let mut in_dir = errors_in(&cat.errors, p.dir.as_str());
        let ghost p0 = crate::settings::strings_view(problems@);
        let ghost p1 = crate::settings::strings_view(in_dir@);
        problems.append(&mut in_dir);
        assert(crate::settings::strings_view(problems@) =~= p0 + p1);
        let ghost p2 = crate::settings::strings_view(problems@);
        let mut more = effects_problems;
        let ghost p3 = crate::settings::strings_view(more@);
        problems.append(&mut more);
        assert(crate::settings::strings_view(problems@) =~= p2 + p3);
        let (summary, widgets) = match crate::settings::find_key(&cat.contents, me) {
            Some(k) => (cat.contents[k].1.summary.clone(), Some(k)),
            None => (String::new(), None),
        };
        let mut sole: Vec<String> = Vec::new();
        if let Some(k) = widgets {
            let ws = &cat.contents[k].1.widgets;
            let mut j: usize = 0;
            while j < ws.len()
                invariant
                    j <= ws.len(),
                    crate::settings::strings_view(sole@) == alone(ws@.take(j as int), me@, *cat),
                decreases ws.len() - j,
            {
                assert(ws@.take(j + 1).drop_last() =~= ws@.take(j as int));
                if offered_alone(ws[j].as_str(), me, cat) {
                    let ghost before = crate::settings::strings_view(sole@);
                    sole.push(ws[j].clone());
                    assert(crate::settings::strings_view(sole@) =~= before.push(ws@[j as int]@));
                }
                j += 1;
            }
            assert(ws@.take(ws.len() as int) =~= ws@);
        } else {
            assert(crate::settings::strings_view(sole@) =~= alone(Seq::<String>::empty(), me@, *cat));
        }
        let (version, author, description) = match &p.manifest {
            Ok(m) => (m.version.clone(), m.author.clone(), m.description.clone()),
            Err(_) => (String::new(), String::new(), String::new()),
        };
        let row = PluginRow {
            id: p.id.clone(),
            name: String::from_str(p.name()),
            version,
            author,
            description,
            summary,
            enabled: !contains_str(disabled, me),
            notes,
            problems,
            sole_widgets: sole,
        };
        proof {
            let pv = list@[i as int];
            assert(row.id@ == pv.id@);
            assert(row.name@ == plugin_name(pv));
            assert(row.version@ == manifest_field(pv, |m: Manifest| m.version));
            assert(row.author@ == manifest_field(pv, |m: Manifest| m.author));
            assert(row.description@ == manifest_field(pv, |m: Manifest| m.description));
            assert(row.summary@ == contents_of(*cat, pv.id@).0);
            assert(crate::settings::strings_view(row.notes@) == row_notes(pv, list@, *cat));
            assert(crate::settings::strings_view(row.problems@) == row_problems(pv, list@, *cat));
            assert(crate::settings::strings_view(row.sole_widgets@) == alone(contents_of(*cat, pv.id@).1, pv.id@, *cat));
        }
        r.push(row);
        i += 1;
    }
    r
}

/// The first Plugin of `list` that is switched off and holds Widget `w`, or -1.
pub open spec fn off_provider(list: Seq<Plugin>, disabled: Seq<Seq<char>>, w: Seq<char>, cat: Catalog) -> int
    decreases list.len(),
{
    if list.len() == 0 {
        -1
    } else {
        let k = off_provider(list.drop_last(), disabled, w, cat);
        let p = list.last();
        if k >= 0 {
            k
        } else if disabled.contains(p.id@) && strings_view(contents_of(cat, p.id@).1).contains(w) {
            list.len() - 1
        } else {
            -1
        }
    }
}

/// The Instances `(id, Widget)` to hide, with the name of the Plugin to switch on: their
/// Widget is not among `known` and a switched-off Plugin holds it.
pub open spec fn hidden_map(
    insts: Seq<(String, String)>,
    known: Seq<Seq<char>>,
    list: Seq<Plugin>,
    disabled: Seq<Seq<char>>,
    cat: Catalog,
) -> Map<Seq<char>, Seq<char>>
    decreases insts.len(),
{
    if insts.len() == 0 {
        Map::empty()
    } else {
        let m = hidden_map(insts.drop_last(), known, list, disabled, cat);
        let (id, w) = (insts.last().0@, insts.last().1@);
        let k = off_provider(list, disabled, w, cat);
        if !known.contains(w) && k >= 0 {
            m.insert(id, plugin_name(list[k]))
        } else {
            m
        }
    }
}

proof fn lemma_off_provider(list: Seq<Plugin>, disabled: Seq<Seq<char>>, w: Seq<char>, cat: Catalog)
    ensures
        -1 <= off_provider(list, disabled, w, cat) < list.len(),
    decreases list.len(),
{
    if list.len() > 0 {
        lemma_off_provider(list.drop_last(), disabled, w, cat);
    }
}

/// See `off_provider`.
fn find_off_provider(list: &[Plugin], disabled: &[String], w: &str, cat: &Catalog) -> (r: Option<usize>)
    ensures
        match r {
            Some(k) => k == off_provider(list@, strings_view(disabled@), w@, *cat) && k < list.len(),
            None => off_provider(list@, strings_view(disabled@), w@, *cat) == -1,
        },
{
    let mut i: usize = 0;
    let mut found: Option<usize> = None;
    while i < list.len()
        invariant
            i <= list.len(),
            match found {
                Some(k) => k == off_provider(list@.take(i as int), strings_view(disabled@), w@, *cat) && k < i,
                None => off_provider(list@.take(i as int), strings_view(disabled@), w@, *cat) == -1,
            },
        decreases list.len() - i,
    {
        assert(list@.take(i + 1).drop_last() =~= list@.take(i as int));
        assert(list@.take(i + 1).last() == list@[i as int]);
        if found.is_none() {
            let p = &list[i];
            if contains_str(disabled, p.id.as_str()) {
                let (has, _) = match crate::settings::find_key(&cat.contents, p.id.as_str()) {
                    Some(k) => (contains_str(&cat.contents[k].1.widgets, w), 0usize),
                    None => {
                        assert(strings_view(Seq::<String>::empty()) =~= Seq::<Seq<char>>::empty());
                        (false, 0usize)
                    },
                };
                if has {
                    found = Some(i);
                }
            }
        }
        i += 1;
    }
    assert(list@.take(list.len() as int) =~= list@);
    found
}

/// Instances to hide, with the name of the Plugin to switch on: see `hidden_map`.
/// `instances` are `(id, Widget)`, `known` the Widgets the registry has.
pub fn hidden_instances(
    instances: &[(String, String)],
    known: &[String],
    list: &[Plugin],
    disabled: &[String],
    cat: &Catalog,
) -> (r: Keyed<String>)
    ensures
        r.wf(),
        r@.map_values(|s: String| s@) == hidden_map(instances@, strings_view(known@), list@, strings_view(disabled@), *cat),
{
    let mut r: Keyed<String> = Keyed::new();
    let mut i: usize = 0;
    assert(r@.map_values(|s: String| s@) =~= Map::<Seq<char>, Seq<char>>::empty());
    while i < instances.len()
        invariant
            i <= instances.len(),
            r.wf(),
            r@.map_values(|s: String| s@) == hidden_map(
                instances@.take(i as int),
                strings_view(known@),
                list@,
                strings_view(disabled@),
                *cat,
            ),
        decreases instances.len() - i,
    {
        assert(instances@.take(i + 1).drop_last() =~= instances@.take(i as int));
        assert(instances@.take(i + 1).last() == instances@[i as int]);
        let (id, w) = (&instances[i].0, &instances[i].1);
        if !contains_str(known, w.as_str()) {
            if let Some(k) = find_off_provider(list, disabled, w.as_str(), cat) {
                let ghost before = r@;
                r.put(id.clone(), String::from_str(list[k].name()));
                assert(r@.map_values(|s: String| s@) =~= before.map_values(|s: String| s@).insert(id@, plugin_name(list@[k as int])));
            }
        }
        i += 1;
    }
    assert(instances@.take(instances.len() as int) =~= instances@);
    r
}

/// What the Plugins page shows for one Plugin.
#[derive(Clone, Debug, Default, PartialEq)]
pub struct PluginRow {
    pub id: String,
    pub name: String,
    pub version: String,
    pub author: String,
    pub description: String,
    /// "3 widgets · 2 palettes"
    pub summary: String,
    pub enabled: bool,
    pub notes: Vec<String>,
    pub problems: Vec<String>,
    /// Widget ids nothing else provides: removing the Plugin removes their Instances.
    pub sole_widgets: Vec<String>,
}

/// The ids of the Instances (id, Widget) whose Widget is one of `widgets`, in order.
pub open spec fn orphans_of(instances: Seq<(String, String)>, widgets: Seq<Seq<char>>) -> Seq<Seq<char>>
    decreases instances.len(),
{
    if instances.len() == 0 {
        Seq::empty()
    } else {
        let r = orphans_of(instances.drop_last(), widgets);
        if widgets.contains(instances.last().1@) {
            r.push(instances.last().0@)
        } else {
            r
        }
    }
}

impl PluginRow {
    /// The Instances that go with it when it is removed: those of the Widgets only it
    /// provides. `instances` holds each Instance's id and Widget.
    pub fn orphans(&self, instances: &[(String, String)]) -> (r: Vec<String>)
        ensures
            strings_view(r@) == orphans_of(instances@, strings_view(self.sole_widgets@)),
    {
        let mut r: Vec<String> = Vec::new();
        let mut i: usize = 0;
        while i < instances.len()
            invariant
                i <= instances.len(),
                strings_view(r@) == orphans_of(instances@.take(i as int), strings_view(self.sole_widgets@)),
            decreases instances.len() - i,
        {
            proof {
                assert(instances@.take(i + 1).drop_last() =~= instances@.take(i as int));
            }
            if contains_str(self.sole_widgets.as_slice(), instances[i].1.as_str()) {
                let ghost b = r@;
                r.push(instances[i].0.clone());
                assert(strings_view(r@) =~= strings_view(b).push(instances@[i as int].0@));
            }
            i += 1;
        }
        assert(instances@.take(instances.len() as int) =~= instances@);
        r
    }
}

} // verus!
