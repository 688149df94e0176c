//! Small copies of big pictures, made off the UI thread. This module holds their ids and
//! the queue's bookkeeping; the workers that make them are the app's.

use vstd::prelude::*;

use crate::images::Decoded;
use crate::paths::{lowercase, to_lowercase};
use vstd::utf8::encode_utf8;
use crate::plugins::{decimal, digit_value};
use crate::strs::{chars_of, concat, concat3, has_prefix, is_ascii_digit, push_char, starts_with, string_of_range};

verus! {

broadcast use vstd::string::group_string_axioms;

/// What a small copy's image id starts with.
pub const PREFIX: &'static str = "thumb:";

/// The decimal digit for `d` (0 to 9).
pub open spec fn digit_char(d: nat) -> char {
    ('0' as u32 + d) as char
}

/// `n` written in decimal, without leading zeros.
pub open spec fn decimal_text(n: nat) -> Seq<char>
    decreases n,
{
    if n < 10 {
        seq![digit_char(n)]
    } else {
        decimal_text(n / 10) + seq![digit_char(n % 10)]
    }
}

/// `n` written in decimal.
pub fn decimal_string(n: u64) -> (r: String)
    ensures
        r@ == decimal_text(n as nat),
    decreases n,
{
    let c = (48u8 + (n % 10) as u8) as char;
    assert(c == digit_char((n % 10) as nat));
    if n < 10 {
        let mut r = String::new();
        push_char(&mut r, c);
        assert(r@ =~= seq![c]);
        r
    } else {
        let mut r = decimal_string(n / 10);
        push_char(&mut r, c);
        r
    }
}

/// The image id of `path` shrunk to fit `max`.
pub open spec fn thumb_id(max: u32, path: Seq<char>) -> Seq<char> {
    "thumb:"@ + decimal_text(max as nat) + ":"@ + path
}

/// The image id of `path` shrunk to fit `max`: `thumb:256:C:\x.jpg`.
pub fn id(max: u32, path: &str) -> (r: String)
    ensures
        r@ == thumb_id(max, path@),
{
    let n = decimal_string(max as u64);
    let a = concat(PREFIX, n.as_str());
    let b = concat(a.as_str(), ":");
    concat(b.as_str(), path)
}

/// `s` without the one `+` it may start with.
pub open spec fn unsigned_part(s: Seq<char>) -> Seq<char> {
    if s.len() > 0 && s[0] == '+' {
        s.skip(1)
    } else {
        s
    }
}

/// Every char of `d` is an ASCII digit.
pub open spec fn digits_only(d: Seq<char>) -> bool {
    forall|k: int| 0 <= k < d.len() ==> is_ascii_digit(#[trigger] d[k])
}

/// The value `str::parse::<u32>` reads from `s`: an optional `+`, then decimal digits
/// only, the number fitting in a `u32`.
pub open spec fn parsed_u32(s: Seq<char>) -> Option<u32> {
    let d = unsigned_part(s);
    if d.len() > 0 && digits_only(d) && decimal(d) <= u32::MAX {
        Some(decimal(d) as u32)
    } else {
        None
    }
}

/// `str::parse::<u32>`.
pub fn parse_u32(s: &Vec<char>) -> (r: Option<u32>)
    ensures
        r == parsed_u32(s@),
{
    let start: usize = if s.len() > 0 && s[0] == '+' {
        1
    } else {
        0
    };
    let ghost d = unsigned_part(s@);
    assert(d =~= s@.skip(start as int));
    if start == s.len() {
        return None;
    }
    let mut acc: u64 = 0;
    let mut i = start;
    while i < s.len()
        invariant
            start <= i <= s.len(),
            d == s@.skip(start as int),
            d == unsigned_part(s@),
            forall|k: int| 0 <= k < i - start ==> is_ascii_digit(#[trigger] d[k]),
            acc as nat == decimal(d.take(i - start)),
            acc <= u32::MAX,
        decreases s.len() - i,
    {
        let c = s[i];
        assert(d[i - start] == c);
        if !('0' <= c && c <= '9') {
            proof {
                let k = i - start;
                assert(0 <= k < d.len());
                assert(!is_ascii_digit(d[k]));
                assert(!digits_only(d));
            }
            return None;
        }
        proof {
            assert(d.take(i - start + 1).drop_last() =~= d.take(i - start));
            assert(d.take(i - start + 1).last() == c);
        }
        acc = acc * 10 + (c as u32 - '0' as u32) as u64;
        assert(acc as nat == decimal(d.take(i - start + 1)));
        i += 1;
        if acc > u32::MAX as u64 {
            proof {
                lemma_decimal_prefix_le(d, i - start);
            }
            return None;
        }
    }
    assert(d.take(d.len() as int) =~= d);
    Some(acc as u32)
}

pub(crate) proof fn lemma_decimal_prefix_le(d: Seq<char>, n: int)
    requires
        0 <= n <= d.len(),
    ensures
        decimal(d.take(n)) <= decimal(d),
    decreases d.len() - n,
{
    if n < d.len() {
        lemma_decimal_prefix_le(d, n + 1);
        assert(d.take(n + 1).drop_last() =~= d.take(n));
    }
    else {
        assert(d.take(n) =~= d);
    }
}

/// What `parse` reads from an image id: the size and the path of a `thumb:` id.
pub open spec fn thumb_parts(id: Seq<char>) -> Option<(u32, Seq<char>)> {
    if !has_prefix(id, "thumb:"@) {
        None
    } else {
        let rest = id.skip("thumb:"@.len() as int);
        let i = crate::strs::first_index(rest, ':');
        if i < 0 {
            None
        } else {
            match parsed_u32(rest.take(i)) {
                Some(m) => Some((m, rest.skip(i + 1))),
                None => None,
            }
        }
    }
}

/// `thumb:256:C:\x.jpg` is (256, `C:\x.jpg`).
pub fn parse(id: &str) -> (r: Option<(u32, String)>)
    ensures
        match r {
            Some((m, p)) => thumb_parts(id@) == Some((m, p@)),
            None => thumb_parts(id@) is None,
        },
{
    if !starts_with(id, PREFIX) {
        return None;
    }
    let cs = chars_of(id);
    proof {
        reveal_strlit("thumb:");
    }
    let rest = string_of_range(&cs, 6, cs.len());
    assert(rest@ =~= id@.skip("thumb:"@.len() as int));
    let rs = chars_of(rest.as_str());
    let mut i: usize = 0;
    while i < rs.len() && rs[i] != ':'
        invariant
            i <= rs.len(),
            forall|k: int| 0 <= k < i ==> rs@[k] != ':',
        decreases rs.len() - i,
    {
        i += 1;
    }
    proof {
        crate::strs::lemma_first_index_at(rs@, ':', i as int);
    }
    if i == rs.len() {
        return None;
    }
    let max_chars = string_of_range(&rs, 0, i);
    let digits = chars_of(max_chars.as_str());
    assert(digits@ =~= rs@.take(i as int));
    let max = parse_u32(&digits)?;
    let path = string_of_range(&rs, i + 1, rs.len());
    assert(path@ =~= rs@.skip(i + 1));
    Some((max, path))
}

/// Some strings as chars.
pub open spec fn strings_of(v: Seq<String>) -> Seq<Seq<char>> {
    v.map_values(|s: String| s@)
}

/// The queue of small copies being made: where they are kept, and which are on their way.
pub struct Thumbs {
    cache: Option<String>,
    pending: Vec<String>,
}

/// Decimal text is digits only, never empty, and reads back as its number.
pub(crate) proof fn lemma_decimal_text(n: nat)
    ensures
        decimal_text(n).len() > 0,
        digits_only(decimal_text(n)),
        decimal(decimal_text(n)) == n,
    decreases n,
{
    let d = decimal_text(n);
    if n < 10 {
        assert(d.drop_last() =~= Seq::<char>::empty());
        assert(digit_char(n) as int == 48 + n);
        assert(d.last() == digit_char(n));
        assert(digit_value(d.last()) == n);
        assert(decimal(d) == decimal(d.drop_last()) * 10 + n);
    } else {
        lemma_decimal_text(n / 10);
        assert(d.drop_last() =~= decimal_text(n / 10));
        assert(digit_char(n % 10) as int == 48 + n % 10);
        assert(d.last() == digit_char(n % 10));
        assert(digit_value(d.last()) == n % 10);
        assert(decimal(d) == decimal(decimal_text(n / 10)) * 10 + n % 10);
        assert((n / 10) * 10 + n % 10 == n) by (nonlinear_arith);
        assert forall|k: int| 0 <= k < d.len() implies is_ascii_digit(#[trigger] d[k]) by {
            if k < d.len() - 1 {
                assert(d[k] == decimal_text(n / 10)[k]);
            }
        }
    }
}

/// The id of a path shrunk to fit `max` reads back as that size and that path.
pub proof fn lemma_thumb_id_round_trip(max: u32, path: Seq<char>)
    ensures
        thumb_parts(thumb_id(max, path)) == Some((max, path)),
{
    reveal_strlit("thumb:");
    reveal_strlit(":");
    let d = decimal_text(max as nat);
    lemma_decimal_text(max as nat);
    let id = thumb_id(max, path);
    assert(id.take(6) =~= "thumb:"@);
    let rest = id.skip(6);
    assert(rest =~= d + seq![':'] + path);
    assert forall|k: int| 0 <= k < d.len() implies rest[k] != ':' by {
        assert(is_ascii_digit(d[k]));
    }
    crate::strs::lemma_first_index_at(rest, ':', d.len() as int);
    assert(rest.take(d.len() as int) =~= d);
    assert(rest.skip(d.len() as int + 1) =~= path);
    assert(is_ascii_digit(d[0]));
    assert(unsigned_part(d) == d);
}

/// Each id is made once while it is on its way: `once` is `before` after a request for
/// `id` and `twice` is `once` after a second one. The second request finds `id` pending,
/// so it asks no worker (`request` returns whether the id was not pending), and it
/// changes nothing.
pub proof fn lemma_requested_once(before: Thumbs, once: Thumbs, twice: Thumbs, id: Seq<char>)
    requires
        once.pending_ids() == before.pending_ids().insert(id),
        twice.pending_ids() == once.pending_ids().insert(id),
    ensures
        once.pending_ids().contains(id),
        twice.pending_ids() == once.pending_ids(),
{
    assert(twice.pending_ids() =~= once.pending_ids());
}

/// Taking the copies that came back ends their way, and only theirs: `after` is `before`
/// after a `take` of `ready`. An id among `ready` is no longer pending, so asking for it
/// again queues it anew; any other id is pending exactly as before.
pub proof fn lemma_taken_once(before: Thumbs, after: Thumbs, ready: Seq<(String, Option<Decoded>)>, id: Seq<char>)
    requires
        after.pending_ids() == before.pending_ids().difference(
            Set::new(|s: Seq<char>| exists|i: int| 0 <= i < ready.len() && ready[i].0@ == s),
        ),
    ensures
        (exists|i: int| 0 <= i < ready.len() && ready[i].0@ == id) ==> !after.pending_ids().contains(id),
        !(exists|i: int| 0 <= i < ready.len() && ready[i].0@ == id) ==> (after.pending_ids().contains(id)
            <==> before.pending_ids().contains(id)),
{
}

impl Thumbs {
    /// Where small copies are kept.
    pub closed spec fn cache_dir(&self) -> Option<Seq<char>> {
        match self.cache {
            Some(c) => Some(c@),
            None => None,
        }
    }

    /// The ids being made.
    pub closed spec fn pending_ids(&self) -> Set<Seq<char>> {
        Set::new(|s: Seq<char>| exists|i: int| 0 <= i < self.pending.len() && self.pending@[i]@ == s)
    }

    /// An empty queue with no cache folder.
    pub fn new() -> (r: Thumbs)
        ensures
            r.cache_dir() is None,
            r.pending_ids() == Set::<Seq<char>>::empty(),
    {
        let r = Thumbs { cache: None, pending: Vec::new() };
        assert(r.pending_ids() =~= Set::<Seq<char>>::empty());
        r
    }

    /// Where small copies are kept; set before the first request.
    pub fn set_cache(&mut self, dir: String)
        ensures
            final(self).cache_dir() == Some(dir@),
            final(self).pending_ids() == old(self).pending_ids(),
    {
        self.cache = Some(dir);
    }

    /// Where small copies are kept, if set.
    pub fn cache(&self) -> (r: Option<&str>)
        ensures
            match r {
                Some(c) => self.cache_dir() == Some(c@),
                None => self.cache_dir() is None,
            },
    {
        match &self.cache {
            Some(c) => Some(c.as_str()),
            None => None,
        }
    }

    /// Whether `id` is on its way.
    pub fn is_pending(&self, id: &str) -> (r: bool)
        ensures
            r == self.pending_ids().contains(id@),
    {
        let mut i: usize = 0;
        while i < self.pending.len()
            invariant
                i <= self.pending.len(),
                forall|k: int| 0 <= k < i ==> self.pending@[k]@ != id@,
            decreases self.pending.len() - i,
        {
            if crate::strs::str_eq(self.pending[i].as_str(), id) {
                return true;
            }
            i += 1;
        }
        false
    }

    /// Whether any copy is on its way.
    pub fn has_pending(&self) -> (r: bool)
        ensures
            r == (self.pending_ids() != Set::<Seq<char>>::empty()),
    {
        let r = self.pending.len() > 0;
        proof {
            if r {
                assert(self.pending_ids().contains(self.pending@[0]@));
            } else {
                assert(self.pending_ids() =~= Set::<Seq<char>>::empty());
            }
        }
        r
    }

    /// Queues `id` once: true when it was not on its way, so a worker should make it.
    pub fn request(&mut self, id: &str) -> (r: bool)
        ensures
            r == !old(self).pending_ids().contains(id@),
            final(self).pending_ids() == old(self).pending_ids().insert(id@),
            final(self).cache_dir() == old(self).cache_dir(),
    {
        if self.is_pending(id) {
            assert(self.pending_ids().insert(id@) =~= self.pending_ids());
            return false;
        }
        let ghost before = self.pending_ids();
        self.pending.push(String::from_str(id));
        assert forall|x: Seq<char>| self.pending_ids().contains(x) <==> before.insert(id@).contains(x) by {
            let last = self.pending.len() - 1;
            assert(self.pending@[last]@ == id@);
            if self.pending_ids().contains(x) {
                let k = choose|k: int| 0 <= k < self.pending.len() && self.pending@[k]@ == x;
                if k < last {
                    assert(old(self).pending@[k]@ == x);
                }
            }
            if before.contains(x) {
                let k = choose|k: int| 0 <= k < old(self).pending.len() && old(self).pending@[k]@ == x;
                assert(self.pending@[k]@ == x);
            }
        }
        assert(self.pending_ids() =~= before.insert(id@));
        true
    }

    /// Takes the copies made since last asked (`None` for a file that could not be
    /// read): none of them is on its way any more. Returns them as they came.
    pub fn take(&mut self, ready: Vec<(String, Option<Decoded>)>) -> (r: Vec<(String, Option<Decoded>)>)
        ensures
            r@ == ready@,
            final(self).pending_ids() == old(self).pending_ids().difference(
                Set::new(|s: Seq<char>| exists|i: int| 0 <= i < ready.len() && ready@[i].0@ == s),
            ),
            final(self).cache_dir() == old(self).cache_dir(),
    {
        let ghost done = Set::new(|s: Seq<char>| exists|i: int| 0 <= i < ready.len() && ready@[i].0@ == s);
        let mut keep: Vec<String> = Vec::new();
        let mut i: usize = 0;
        while i < self.pending.len()
            invariant
                i <= self.pending.len(),
                forall|k: int| 0 <= k < keep.len() ==> !done.contains(#[trigger] keep@[k]@) && strings_of(self.pending@.take(i as int)).contains(keep@[k]@),
                forall|k: int| 0 <= k < i && !done.contains(#[trigger] self.pending@[k]@) ==> strings_of(keep@).contains(self.pending@[k]@),
                done == Set::new(|s: Seq<char>| exists|i: int| 0 <= i < ready.len() && ready@[i].0@ == s),
            decreases self.pending.len() - i,
        {
            let p = &self.pending[i];
            let mut found = false;
            let mut j: usize = 0;
            while j < ready.len()
                invariant
                    j <= ready.len(),
                    found == exists|k: int| 0 <= k < j && #[trigger] ready@[k].0@ == p@,
                decreases ready.len() - j,
            {
                if ready[j].0 == *p {
                    found = true;
                }
                j += 1;
            }
            assert(found == done.contains(p@));
            let ghost before = keep@;
            if !found {
                keep.push(p.clone());
            }
            proof {
                assert(strings_of(self.pending@.take(i + 1)) =~= strings_of(self.pending@.take(i as int)).push(p@));
                assert forall|k: int| 0 <= k < keep.len() implies !done.contains(#[trigger] keep@[k]@) && strings_of(self.pending@.take(i + 1)).contains(keep@[k]@) by {
                    if k < before.len() {
                        assert(keep@[k] == before[k]);
                        let t = choose|t: int| 0 <= t < strings_of(self.pending@.take(i as int)).len() && strings_of(self.pending@.take(i as int))[t] == before[k]@;
                        assert(strings_of(self.pending@.take(i + 1))[t] == keep@[k]@);
                    } else {
                        assert(strings_of(self.pending@.take(i + 1))[i as int] == keep@[k]@);
                    }
                }
                assert forall|k: int| 0 <= k < i + 1 && !done.contains(#[trigger] self.pending@[k]@) implies strings_of(keep@).contains(self.pending@[k]@) by {
                    if k < i {
                        let t = choose|t: int| 0 <= t < strings_of(before).len() && strings_of(before)[t] == self.pending@[k]@;
                        assert(strings_of(keep@)[t] == self.pending@[k]@);
                    } else {
                        assert(strings_of(keep@)[keep.len() - 1] == self.pending@[k]@);
                    }
                }
            }
            i += 1;
        }
        assert(self.pending@.take(self.pending.len() as int) =~= self.pending@);
        let ghost before = self.pending_ids();
        let ghost old_pending = self.pending@;
        self.pending = keep;
        assert forall|s: Seq<char>| self.pending_ids().contains(s) <==> before.difference(done).contains(s) by {
            if self.pending_ids().contains(s) {
                let k = choose|k: int| 0 <= k < self.pending.len() && self.pending@[k]@ == s;
                assert(!done.contains(self.pending@[k]@));
                let t = choose|t: int| 0 <= t < strings_of(old_pending).len() && strings_of(old_pending)[t] == s;
                assert(old_pending[t]@ == s);
            }
            if before.difference(done).contains(s) {
                let k = choose|k: int| 0 <= k < old_pending.len() && old_pending[k]@ == s;
                assert(strings_of(self.pending@).contains(s));
                let t = choose|t: int| 0 <= t < strings_of(self.pending@).len() && strings_of(self.pending@)[t] == s;
                assert(self.pending@[t]@ == s);
            }
        }
        assert(self.pending_ids() =~= before.difference(done));
        ready
    }
}


/// How many workers make small copies.
pub const WORKERS: usize = 2;

/// The disk cache is trimmed to this, oldest first, when the workers start.
pub const DISK_BUDGET: u64 = 268435456;

/// The 64-bit FNV-1a hash of some bytes.
pub open spec fn fnv1a(bytes: Seq<u8>) -> u64
    decreases bytes.len(),
{
    if bytes.len() == 0 {
        0xcbf2_9ce4_8422_2325u64
    } else {
        (fnv1a(bytes.drop_last()) ^ (bytes.last() as u64)).wrapping_mul(0x100_0000_01b3u64)
    }
}

/// The 64-bit FNV-1a hash of `bytes`.
pub fn fnv1a_hash(bytes: &[u8]) -> (h: u64)
    ensures
        h == fnv1a(bytes@),
{
    let mut h: u64 = 0xcbf2_9ce4_8422_2325;
    let mut i: usize = 0;
    while i < bytes.len()
        invariant
            i <= bytes.len(),
            h == fnv1a(bytes@.take(i as int)),
        decreases bytes.len() - i,
    {
        assert(bytes@.take(i + 1).drop_last() =~= bytes@.take(i as int));
        h = (h ^ bytes[i] as u64).wrapping_mul(0x100_0000_01b3);
        i += 1;
    }
    assert(bytes@.take(bytes.len() as int) =~= bytes@);
    h
}

/// The lower-case hex digit for `d` (0 to 15).
pub open spec fn hex_digit(d: nat) -> char {
    if d < 10 {
        ('0' as u32 + d) as char
    } else {
        ('a' as u32 + d - 10) as char
    }
}

/// The last `n` hex digits of `h`, zero-padded.
pub open spec fn hex_pad(h: nat, n: nat) -> Seq<char>
    decreases n,
{
    if n == 0 {
        Seq::empty()
    } else {
        hex_pad(h / 16, (n - 1) as nat) + seq![hex_digit(h % 16)]
    }
}

fn hex_string(h: u64, n: usize) -> (r: String)
    ensures
        r@ == hex_pad(h as nat, n as nat),
    decreases n,
{
    if n == 0 {
        return String::new();
    }
    let mut r = hex_string(h / 16, n - 1);
    let d = (h % 16) as u8;
    let c = if d < 10 {
        (48u8 + d) as char
    } else {
        (87u8 + d) as char
    };
    assert(c == hex_digit((h % 16) as nat));
    push_char(&mut r, c);
    r
}

/// What names a small copy on disk: the file's lower-cased path, its size, its
/// modification time and `max`, so a changed file gets a new name.
pub open spec fn cache_key(lower_path: Seq<char>, len: u64, secs: u64, max: u32) -> Seq<char> {
    lower_path + "|"@ + decimal_text(len as nat) + "|"@ + decimal_text(secs as nat) + "|"@ + decimal_text(max as nat)
}

/// The file a small copy is kept in: the key's hash in 16 hex digits, `.png`.
pub open spec fn cache_name_of(lower_path: Seq<char>, len: u64, secs: u64, max: u32) -> Seq<char> {
    hex_pad(fnv1a(encode_utf8(cache_key(lower_path, len, secs, max))) as nat, 16) + ".png"@
}

/// The name of the file that keeps the small copy of `path` (`len` bytes, modified at
/// `secs`) shrunk to fit `max`.
pub fn cache_name(path: &str, len: u64, secs: u64, max: u32) -> (r: String)
    ensures
        r@ == cache_name_of(lowercase(path@), len, secs, max),
{
    let lower = to_lowercase(path);
    let a = concat3(lower.as_str(), "|", decimal_string(len).as_str());
    let b = concat3(a.as_str(), "|", decimal_string(secs).as_str());
    let key = concat3(b.as_str(), "|", decimal_string(max as u64).as_str());
    let h = fnv1a_hash(key.as_str().as_bytes());
    let name = hex_string(h, 16);
    concat(name.as_str(), ".png")
}

} // verus!
