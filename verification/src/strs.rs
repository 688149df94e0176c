//! Text helpers the rest of the library builds on: char sequences of strings,
//! ASCII case folding, Unicode white space and string building.

use vstd::prelude::*;

verus! {

broadcast use vstd::string::group_string_axioms;

/// The chars of `s`, in order.
pub fn chars_of(s: &str) -> (v: Vec<char>)
    ensures
        v@ == s@,
{
    let mut v: Vec<char> = Vec::new();
    for c in it: s.chars()
        invariant
            v@ == it.seq().take(it.index() as int),
    {
        v.push(c);
    }
    v
}

/// `String::push`: appends one char.
#[verifier::external_body]
pub fn push_char(s: &mut String, c: char)
    ensures
        final(s)@ == old(s)@.push(c),
{
    s.push(c);
}

/// A string holding exactly the chars of `cs[from..to]`.
pub fn string_of_range(cs: &Vec<char>, from: usize, to: usize) -> (s: String)
    requires
        from <= to <= cs.len(),
    ensures
        s@ == cs@.subrange(from as int, to as int),
{
    let mut s = String::new();
    let mut i = from;
    while i < to
        invariant
            from <= i <= to <= cs.len(),
            s@ == cs@.subrange(from as int, i as int),
        decreases to - i,
    {
        push_char(&mut s, cs[i]);
        i += 1;
        assert(s@ =~= cs@.subrange(from as int, i as int));
    }
    s
}

/// A string holding exactly the chars of `cs`.
pub fn string_of(cs: &Vec<char>) -> (s: String)
    ensures
        s@ == cs@,
{
    let s = string_of_range(cs, 0, cs.len());
    assert(cs@.subrange(0, cs.len() as int) =~= cs@);
    s
}

/// `a` followed by `b`, as a new string.
pub fn concat(a: &str, b: &str) -> (s: String)
    ensures
        s@ == a@ + b@,
{
    let mut s = String::from_str(a);
    s.append(b);
    s
}

/// `a`, `b` and `c` one after another.
pub fn concat3(a: &str, b: &str, c: &str) -> (s: String)
    ensures
        s@ == a@ + b@ + c@,
{
    let mut s = String::from_str(a);
    s.append(b);
    s.append(c);
    s
}

/// An ASCII upper-case letter.
pub open spec fn is_ascii_upper(c: char) -> bool {
    'A' <= c <= 'Z'
}

/// An ASCII lower-case letter.
pub open spec fn is_ascii_lower(c: char) -> bool {
    'a' <= c <= 'z'
}

/// An ASCII digit.
pub open spec fn is_ascii_digit(c: char) -> bool {
    '0' <= c <= '9'
}

/// `c` with an ASCII upper-case letter made lower-case; every other char as it is.
pub open spec fn ascii_lower(c: char) -> char {
    if is_ascii_upper(c) {
        ((c as u32) + 32) as char
    } else {
        c
    }
}

/// Every char of `s` through `ascii_lower`.
pub open spec fn ascii_lower_seq(s: Seq<char>) -> Seq<char> {
    s.map_values(|c: char| ascii_lower(c))
}

/// `char::to_ascii_lowercase`.
pub fn lower_char(c: char) -> (r: char)
    ensures
        r == ascii_lower(c),
{
    if 'A' <= c && c <= 'Z' {
        let b: u8 = c as u8 + 32;
        b as char
    } else {
        c
    }
}

/// `str::to_ascii_lowercase`.
pub fn lower_ascii(s: &str) -> (r: String)
    ensures
        r@ == ascii_lower_seq(s@),
{
    let cs = chars_of(s);
    let mut r = String::new();
    let mut i: usize = 0;
    while i < cs.len()
        invariant
            i <= cs.len(),
            cs@ == s@,
            r@ == ascii_lower_seq(cs@.take(i as int)),
        decreases cs.len() - i,
    {
        let c = lower_char(cs[i]);
        push_char(&mut r, c);
        i += 1;
        assert(ascii_lower_seq(cs@.take(i as int)) =~= ascii_lower_seq(cs@.take(i - 1)).push(c));
    }
    assert(cs@.take(cs.len() as int) =~= cs@);
    r
}

/// The chars with the Unicode `White_Space` property, which `char::is_whitespace`
/// and `str::trim` go by.
pub open spec fn is_white(c: char) -> bool {
    let u = c as u32;
    ||| (0x09 <= u <= 0x0D)
    ||| u == 0x20
    ||| u == 0x85
    ||| u == 0xA0
    ||| u == 0x1680
    ||| (0x2000 <= u <= 0x200A)
    ||| u == 0x2028
    ||| u == 0x2029
    ||| u == 0x202F
    ||| u == 0x205F
    ||| u == 0x3000
}

/// `char::is_whitespace`.
pub fn white(c: char) -> (b: bool)
    ensures
        b == is_white(c),
{
    let u = c as u32;
    (0x09 <= u && u <= 0x0D) || u == 0x20 || u == 0x85 || u == 0xA0 || u == 0x1680 || (0x2000 <= u
        && u <= 0x200A) || u == 0x2028 || u == 0x2029 || u == 0x202F || u == 0x205F || u == 0x3000
}

/// Where the text of `s` starts once leading white space is skipped.
pub open spec fn trim_start_at(s: Seq<char>) -> int
    decreases s.len(),
{
    if s.len() > 0 && is_white(s[0]) {
        1 + trim_start_at(s.drop_first())
    } else {
        0
    }
}

/// Where the text of `s` ends once trailing white space is dropped.
pub open spec fn trim_end_at(s: Seq<char>) -> int
    decreases s.len(),
{
    if s.len() > 0 && is_white(s.last()) {
        trim_end_at(s.drop_last())
    } else {
        s.len() as int
    }
}

/// `s` without white space at either end, as `str::trim` does.
pub open spec fn trimmed(s: Seq<char>) -> Seq<char> {
    let t = s.skip(trim_start_at(s));
    t.take(trim_end_at(t))
}

proof fn lemma_trim_start(s: Seq<char>, i: int)
    requires
        0 <= i <= s.len(),
        forall|k: int| 0 <= k < i ==> is_white(#[trigger] s[k]),
        i == s.len() || !is_white(s[i]),
    ensures
        trim_start_at(s) == i,
    decreases i,
{
    if i > 0 {
        lemma_trim_start(s.drop_first(), i - 1);
    }
}

proof fn lemma_trim_end(s: Seq<char>, j: int)
    requires
        0 <= j <= s.len(),
        forall|k: int| j <= k < s.len() ==> is_white(#[trigger] s[k]),
        j == 0 || !is_white(s[j - 1]),
    ensures
        trim_end_at(s) == j,
    decreases s.len(),
{
    if s.len() > j {
        lemma_trim_end(s.drop_last(), j);
    }
}

/// `str::trim`: `s` without leading or trailing white space.
pub fn trim(s: &str) -> (r: String)
    ensures
        r@ == trimmed(s@),
{
    let cs = chars_of(s);
    let mut i: usize = 0;
    while i < cs.len() && white(cs[i])
        invariant
            i <= cs.len(),
            cs@ == s@,
            forall|k: int| 0 <= k < i ==> is_white(#[trigger] cs@[k]),
        decreases cs.len() - i,
    {
        i += 1;
    }
    let mut j: usize = cs.len();
    while j > i && white(cs[j - 1])
        invariant
            i <= j <= cs.len(),
            cs@ == s@,
            forall|k: int| j <= k < cs.len() ==> is_white(#[trigger] cs@[k]),
        decreases j,
    {
        j -= 1;
    }
    proof {
        lemma_trim_start(s@, i as int);
        let t = s@.skip(i as int);
        assert forall|k: int| (j - i) <= k < t.len() implies is_white(#[trigger] t[k]) by {
            assert(t[k] == cs@[k + i]);
        }
        if j > i {
            assert(t[j - i - 1] == cs@[j - 1]);
        }
        lemma_trim_end(t, j - i);
        assert(t.take(j - i) =~= cs@.subrange(i as int, j as int));
    }
    string_of_range(&cs, i, j)
}

/// Whether `p` is the start of `s`.
pub open spec fn has_prefix(s: Seq<char>, p: Seq<char>) -> bool {
    p.len() <= s.len() && s.take(p.len() as int) == p
}

/// Whether `p` is the end of `s`.
pub open spec fn has_suffix(s: Seq<char>, p: Seq<char>) -> bool {
    p.len() <= s.len() && s.skip(s.len() - p.len()) == p
}

/// `str::starts_with` for a string pattern.
pub fn starts_with(s: &str, p: &str) -> (b: bool)
    ensures
        b == has_prefix(s@, p@),
{
    let (cs, ps) = (chars_of(s), chars_of(p));
    if ps.len() > cs.len() {
        return false;
    }
    let mut i: usize = 0;
    while i < ps.len()
        invariant
            i <= ps.len() <= cs.len(),
            cs@ == s@,
            ps@ == p@,
            forall|k: int| 0 <= k < i ==> cs@[k] == ps@[k],
        decreases ps.len() - i,
    {
        if cs[i] != ps[i] {
            assert(s@.take(p@.len() as int)[i as int] != p@[i as int]);
            return false;
        }
        i += 1;
    }
    assert(s@.take(p@.len() as int) =~= p@);
    true
}

/// `str::ends_with` for a string pattern.
pub fn ends_with(s: &str, p: &str) -> (b: bool)
    ensures
        b == has_suffix(s@, p@),
{
    let (cs, ps) = (chars_of(s), chars_of(p));
    if ps.len() > cs.len() {
        return false;
    }
    let off = cs.len() - ps.len();
    let mut i: usize = 0;
    while i < ps.len()
        invariant
            i <= ps.len() <= cs.len(),
            off == cs.len() - ps.len(),
            cs@ == s@,
            ps@ == p@,
            forall|k: int| 0 <= k < i ==> cs@[off + k] == ps@[k],
        decreases ps.len() - i,
    {
        if cs[off + i] != ps[i] {
            assert(s@.skip(off as int)[i as int] != p@[i as int]);
            return false;
        }
        i += 1;
    }
    assert(s@.skip(off as int) =~= p@);
    true
}

/// Two strings with the same chars.
pub fn str_eq(a: &str, b: &str) -> (r: bool)
    ensures
        r == (a@ == b@),
{
    let (x, y) = (chars_of(a), chars_of(b));
    if x.len() != y.len() {
        return false;
    }
    let mut i: usize = 0;
    while i < x.len()
        invariant
            i <= x.len() == y.len(),
            x@ == a@,
            y@ == b@,
            forall|k: int| 0 <= k < i ==> x@[k] == y@[k],
        decreases x.len() - i,
    {
        if x[i] != y[i] {
            return false;
        }
        i += 1;
    }
    assert(x@ =~= y@);
    true
}

} // verus!

verus! {

/// Where `c` first occurs in `s`, or -1.
pub open spec fn first_index(s: Seq<char>, c: char) -> int
    decreases s.len(),
{
    if s.len() == 0 {
        -1
    } else if s[0] == c {
        0
    } else {
        let r = first_index(s.drop_first(), c);
        if r < 0 {
            -1
        } else {
            r + 1
        }
    }
}

/// `first_index` is the position of the first `c`, or -1 when there is none.
pub proof fn lemma_first_index(s: Seq<char>, c: char)
    ensures
        -1 <= first_index(s, c) < s.len(),
        first_index(s, c) >= 0 ==> s[first_index(s, c)] == c,
        forall|k: int| 0 <= k < s.len() && (first_index(s, c) < 0 || k < first_index(s, c)) ==> s[k]
            != c,
    decreases s.len(),
{
    if s.len() > 0 && s[0] != c {
        lemma_first_index(s.drop_first(), c);
        assert forall|k: int|
            0 <= k < s.len() && (first_index(s, c) < 0 || k < first_index(s, c)) implies s[k]
            != c by {
            if k > 0 {
                assert(s[k] == s.drop_first()[k - 1]);
            }
        }
    }
}

/// `first_index` found from a position known to hold the first `c`.
pub proof fn lemma_first_index_at(s: Seq<char>, c: char, i: int)
    requires
        0 <= i <= s.len(),
        forall|k: int| 0 <= k < i ==> s[k] != c,
        i == s.len() || s[i] == c,
    ensures
        first_index(s, c) == if i == s.len() {
            -1
        } else {
            i
        },
{
    lemma_first_index(s, c);
    let f = first_index(s, c);
    if f >= 0 && f < i {
        assert(s[f] != c);
    }
}

/// The pieces of `s` between occurrences of `c`, as `str::split` with a char gives them:
/// one more piece than there are `c`s, empty ones included.
pub open spec fn split_on(s: Seq<char>, c: char) -> Seq<Seq<char>>
    decreases s.len(),
{
    let i = first_index(s, c);
    if i < 0 {
        seq![s]
    } else {
        proof {
            lemma_first_index(s, c);
        }
        seq![s.take(i)] + split_on(s.skip(i + 1), c)
    }
}

/// `str::split` by a char: the pieces between the separators.
pub fn split_chars(cs: &Vec<char>, sep: char) -> (r: Vec<Vec<char>>)
    ensures
        r.len() == split_on(cs@, sep).len(),
        forall|k: int| 0 <= k < r.len() ==> #[trigger] r@[k]@ == split_on(cs@, sep)[k],
{
    let mut r: Vec<Vec<char>> = Vec::new();
    let mut cur: Vec<char> = Vec::new();
    let mut st: usize = 0;
    let mut i: usize = 0;
    let ghost mut done: Seq<Seq<char>> = seq![];
    assert(cs@.skip(0) =~= cs@);
    assert(done + split_on(cs@, sep) =~= split_on(cs@, sep));
    while i < cs.len()
        invariant
            st <= i <= cs.len(),
            cur@ == cs@.subrange(st as int, i as int),
            forall|k: int| st <= k < i ==> cs@[k] != sep,
            r.len() == done.len(),
            forall|k: int| 0 <= k < r.len() ==> #[trigger] r@[k]@ == done[k],
            split_on(cs@, sep) == done + split_on(cs@.skip(st as int), sep),
        decreases cs.len() - i,
    {
        if cs[i] == sep {
            proof {
                let t = cs@.skip(st as int);
                assert forall|k: int| 0 <= k < i - st implies t[k] != sep by {
                    assert(t[k] == cs@[st + k]);
                }
                lemma_first_index_at(t, sep, i - st);
                assert(t.take(i - st) =~= cur@);
                assert(t.skip(i - st + 1) =~= cs@.skip(i + 1));
                assert(split_on(t, sep) == seq![cur@] + split_on(cs@.skip(i + 1), sep));
                assert(done + (seq![cur@] + split_on(cs@.skip(i + 1), sep)) =~= done.push(cur@)
                    + split_on(cs@.skip(i + 1), sep));
                done = done.push(cur@);
            }
            r.push(cur);
            cur = Vec::new();
            st = i + 1;
        } else {
            cur.push(cs[i]);
        }
        i += 1;
        proof {
            assert(cur@ =~= cs@.subrange(st as int, i as int));
        }
    }
    proof {
        let t = cs@.skip(st as int);
        assert forall|k: int| 0 <= k < t.len() implies t[k] != sep by {
            assert(t[k] == cs@[st + k]);
        }
        lemma_first_index_at(t, sep, t.len() as int);
        assert(t =~= cur@);
        done = done.push(cur@);
    }
    r.push(cur);
    r
}

} // verus!

verus! {

/// `c` with an ASCII lower-case letter made upper-case; every other char as it is.
pub open spec fn ascii_upper(c: char) -> char {
    if is_ascii_lower(c) {
        ((c as u32) - 32) as char
    } else {
        c
    }
}

/// Every char of `s` through `ascii_upper`.
pub open spec fn ascii_upper_seq(s: Seq<char>) -> Seq<char> {
    s.map_values(|c: char| ascii_upper(c))
}

/// `str::to_ascii_uppercase`.
pub fn upper_ascii(s: &str) -> (r: String)
    ensures
        r@ == ascii_upper_seq(s@),
{
    let cs = chars_of(s);
    let mut r = String::new();
    let mut i: usize = 0;
    while i < cs.len()
        invariant
            i <= cs.len(),
            cs@ == s@,
            r@ == ascii_upper_seq(cs@.take(i as int)),
        decreases cs.len() - i,
    {
        let c = cs[i];
        let u = if 'a' <= c && c <= 'z' {
            let b: u8 = c as u8 - 32;
            b as char
        } else {
            c
        };
        push_char(&mut r, u);
        i += 1;
        assert(ascii_upper_seq(cs@.take(i as int)) =~= ascii_upper_seq(cs@.take(i - 1)).push(u));
    }
    assert(cs@.take(cs.len() as int) =~= cs@);
    r
}

/// Whether `c` occurs in `s`.
pub fn has_char(s: &str, c: char) -> (r: bool)
    ensures
        r == s@.contains(c),
{
    let cs = chars_of(s);
    let mut i: usize = 0;
    while i < cs.len()
        invariant
            i <= cs.len(),
            cs@ == s@,
            forall|k: int| 0 <= k < i ==> cs@[k] != c,
        decreases cs.len() - i,
    {
        if cs[i] == c {
            return true;
        }
        i += 1;
    }
    false
}

} // verus!

verus! {

/// A split always has a first piece.
pub proof fn lemma_split_on_not_empty(s: Seq<char>, c: char)
    ensures
        split_on(s, c).len() >= 1,
{
}

} // verus!

verus! {

/// `p` occurs in `s` at `i`.
pub open spec fn occurs_at(s: Seq<char>, p: Seq<char>, i: int) -> bool {
    0 <= i && i + p.len() <= s.len() && s.subrange(i, i + p.len()) == p
}

/// Where `p` first occurs in `s` from `i` on, or -1.
pub open spec fn find_from(s: Seq<char>, p: Seq<char>, i: int) -> int
    decreases s.len() + 1 - i,
{
    if i < 0 || i + p.len() > s.len() {
        -1
    } else if occurs_at(s, p, i) {
        i
    } else {
        find_from(s, p, i + 1)
    }
}

pub proof fn lemma_find_from(s: Seq<char>, p: Seq<char>, i: int)
    requires
        0 <= i,
    ensures
        find_from(s, p, i) == -1 || (i <= find_from(s, p, i) && occurs_at(s, p, find_from(s, p, i))),
        forall|j: int| i <= j && (find_from(s, p, i) == -1 || j < find_from(s, p, i)) ==> !occurs_at(s, p, j),
    decreases s.len() + 1 - i,
{
    if i + p.len() <= s.len() && !occurs_at(s, p, i) {
        lemma_find_from(s, p, i + 1);
    }
}

/// With no occurrence from `a` up to `k`, the search from `a` finds what the search from
/// `k` finds.
pub proof fn lemma_find_skips(s: Seq<char>, p: Seq<char>, a: int, k: int)
    requires
        0 <= a <= k,
        forall|j: int| a <= j < k ==> !occurs_at(s, p, j),
        k + p.len() <= s.len() + 1,
    ensures
        find_from(s, p, a) == find_from(s, p, k),
    decreases k - a,
{
    if a < k {
        lemma_find_skips(s, p, a + 1, k);
    }
}

/// `str::split` by a non-empty string: the pieces between the occurrences of `p`, found
/// from the left without overlapping.
pub open spec fn split_by(s: Seq<char>, p: Seq<char>) -> Seq<Seq<char>>
    decreases s.len(),
{
    if p.len() == 0 {
        seq![s]
    } else {
        let k = find_from(s, p, 0);
        if k < 0 {
            seq![s]
        } else {
            proof {
                lemma_find_from(s, p, 0);
            }
            seq![s.take(k)] + split_by(s.skip(k + p.len()), p)
        }
    }
}

fn occurs(cs: &Vec<char>, ps: &Vec<char>, i: usize) -> (r: bool)
    requires
        i + ps.len() <= cs.len(),
    ensures
        r == occurs_at(cs@, ps@, i as int),
{
    let mut k: usize = 0;
    while k < ps.len()
        invariant
            k <= ps.len(),
            i + ps.len() <= cs.len(),
            forall|j: int| 0 <= j < k ==> cs@[i + j] == ps@[j],
        decreases ps.len() - k,
    {
        if cs[i + k] != ps[k] {
            assert(cs@.subrange(i as int, i + ps.len())[k as int] != ps@[k as int]);
            return false;
        }
        k += 1;
    }
    assert(cs@.subrange(i as int, i + ps.len()) =~= ps@);
    true
}

/// `str::split` by a non-empty string.
pub fn split_str(s: &str, sep: &str) -> (r: Vec<String>)
    requires
        sep@.len() > 0,
    ensures
        r@.map_values(|x: String| x@) == split_by(s@, sep@),
{
    let cs = chars_of(s);
    let ps = chars_of(sep);
    let n = cs.len();
    let m = ps.len();
    let mut out: Vec<String> = Vec::new();
    let mut start: usize = 0;
    let mut i: usize = 0;
    assert(cs@.skip(0) =~= cs@);
    while m <= n - i
        invariant
            n == cs.len(),
            m == ps.len(),
            m > 0,
            cs@ == s@,
            ps@ == sep@,
            start <= i <= n,
            out@.map_values(|x: String| x@) + split_by(cs@.skip(start as int), ps@) == split_by(cs@, ps@),
            forall|j: int| start <= j < i ==> !occurs_at(cs@, ps@, j),
        decreases n - i,
    {
        if occurs(&cs, &ps, i) {
            let ghost t = cs@.skip(start as int);
            proof {
                assert forall|j: int| 0 <= j < i - start implies !occurs_at(t, ps@, j) by {
                    assert(t.subrange(j, j + m) =~= cs@.subrange(start + j, start + j + m));
                    assert(!occurs_at(cs@, ps@, start + j));
                }
                assert(t.subrange(i - start, i - start + m) =~= cs@.subrange(i as int, i + m));
                assert(occurs_at(t, ps@, i - start));
                lemma_find_skips(t, ps@, 0, i - start);
                assert(find_from(t, ps@, 0) == i - start);
                assert(t.take(i - start) =~= cs@.subrange(start as int, i as int));
                assert(t.skip(i - start + m) =~= cs@.skip(i + m));
            }
            let piece = string_of_range(&cs, start, i);
            let ghost before = out@;
            out.push(piece);
            proof {
                assert(out@.map_values(|x: String| x@) =~= before.map_values(|x: String| x@).push(cs@.subrange(start as int, i as int)));
                assert(split_by(t, ps@) == seq![t.take(i - start)] + split_by(t.skip(i - start + m), ps@));
                assert(out@.map_values(|x: String| x@) + split_by(cs@.skip(i + m), ps@) =~= before.map_values(|x: String| x@) + split_by(t, ps@));
            }
            i = i + m;
            start = i;
        } else {
            i += 1;
        }
    }
    let ghost t = cs@.skip(start as int);
    proof {
        assert forall|j: int| 0 <= j implies !occurs_at(t, ps@, j) by {
            if occurs_at(t, ps@, j) {
                assert(t.subrange(j, j + m) =~= cs@.subrange(start + j, start + j + m));
                assert(occurs_at(cs@, ps@, start + j));
            }
        }
        lemma_find_from(t, ps@, 0);
        assert(find_from(t, ps@, 0) == -1);
        assert(split_by(t, ps@) == seq![t]);
    }
    let piece = string_of_range(&cs, start, n);
    let ghost before = out@;
    out.push(piece);
    proof {
        assert(piece@ =~= t);
        assert(out@.map_values(|x: String| x@) =~= before.map_values(|x: String| x@) + seq![t]);
    }
    out
}

/// Where `p` first occurs in `s`, as `str::find` finds it.
pub fn find_str(s: &str, p: &str) -> (r: Option<usize>)
    ensures
        match r {
            Some(i) => i == find_from(s@, p@, 0),
            None => find_from(s@, p@, 0) == -1,
        },
{
    let cs = chars_of(s);
    let ps = chars_of(p);
    let n = cs.len();
    let m = ps.len();
    if m > n {
        return None;
    }
    let mut i: usize = 0;
    loop
        invariant
            cs@ == s@,
            ps@ == p@,
            n == cs.len(),
            m == ps.len(),
            m <= n,
            i <= n - m,
            find_from(s@, p@, 0) == find_from(s@, p@, i as int),
        decreases n - m - i,
    {
        if occurs(&cs, &ps, i) {
            return Some(i);
        }
        if i == n - m {
            assert(find_from(s@, p@, i + 1) == -1);
            return None;
        }
        i += 1;
    }
}

/// What `str::to_uppercase` makes of `s`: the Unicode upper-case mapping.
pub uninterp spec fn uppercase(s: Seq<char>) -> Seq<char>;

/// Calls `str::to_uppercase`. Claimed: the result is `uppercase` of `s`; the Unicode
/// tables behind it are left unsaid.
#[verifier::external_body]
pub fn to_uppercase(s: &str) -> (r: String)
    ensures
        r@ == uppercase(s@),
{
    s.to_uppercase()
}

/// What `char::to_uppercase` makes of `c`: one to three chars.
pub uninterp spec fn char_upper(c: char) -> Seq<char>;

/// Calls `char::to_uppercase` and gathers the chars it yields. Claimed: they are
/// `char_upper` of `c`; the Unicode tables behind it are left unsaid.
#[verifier::external_body]
pub fn upper_char(c: char) -> (r: String)
    ensures
        r@ == char_upper(c),
{
    c.to_uppercase().collect()
}

} // verus!
