//! The network policy for plugin code: which URLs a plugin may reach and what a
//! request and a response may hold. Moving the bytes, and the rate limit, are the
//! app's.

use vstd::prelude::*;

use crate::strs::{
    ascii_lower_seq, ascii_upper_seq, chars_of, concat, concat3, ends_with, has_char, has_prefix,
    has_suffix, is_ascii_digit, is_ascii_lower, lower_ascii, split_chars, split_on, starts_with,
    str_eq, string_of_range, trim, trimmed, upper_ascii,
};

verus! {

broadcast use vstd::string::group_string_axioms;

/// Largest response body a plugin gets, in bytes.
pub const BODY_CAP: usize = 2097152;

/// Largest request body a plugin may send, in bytes.
pub const REQUEST_BODY_CAP: usize = 65536;

/// A char a host label may hold.
pub open spec fn label_char(c: char) -> bool {
    is_ascii_lower(c) || is_ascii_digit(c) || c == '-'
}

/// A DNS label: 1 to 63 lower-case letters, digits and inner hyphens.
pub open spec fn label_ok(l: Seq<char>) -> bool {
    &&& 0 < l.len() <= 63
    &&& l[0] != '-'
    &&& l.last() != '-'
    &&& forall|k: int| 0 <= k < l.len() ==> label_char(#[trigger] l[k])
}

/// A label of digits only.
pub open spec fn all_digits(l: Seq<char>) -> bool {
    forall|k: int| 0 <= k < l.len() ==> is_ascii_digit(#[trigger] l[k])
}

/// The error for what is not a host name.
pub open spec fn not_host_message(h: Seq<char>) -> Seq<char> {
    "`"@ + h + "` is not a host name"@
}

/// The error for an IP address.
pub open spec fn ip_message(h: Seq<char>) -> Seq<char> {
    "`"@ + h + "`: use a host name, not an IP address"@
}

/// The error for a name that only the local network knows.
pub open spec fn local_message(h: Seq<char>) -> Seq<char> {
    "`"@ + h + "` is a local name"@
}

/// A name on the public internet: two or more valid labels, not an IP address, not a
/// local name.
pub open spec fn host_check(h: Seq<char>) -> Result<(), Seq<char>> {
    let labels = split_on(h, '.');
    if !(labels.len() >= 2 && forall|i: int| 0 <= i < labels.len() ==> label_ok(#[trigger] labels[i])) {
        Err(not_host_message(h))
    } else if (forall|i: int| 0 <= i < labels.len() ==> all_digits(#[trigger] labels[i])) || all_digits(
        labels.last(),
    ) {
        Err(ip_message(h))
    } else if h == "localhost"@ || has_suffix(h, ".localhost"@) || has_suffix(h, ".local"@)
        || has_suffix(h, ".internal"@) {
        Err(local_message(h))
    } else {
        Ok(())
    }
}

/// The pieces of a split hold the chars of the text but the separator, and only those;
/// two pieces or more mean the text holds the separator.
proof fn lemma_split_parts(s: Seq<char>, c: char)
    ensures
        forall|i: int, j: int|
            0 <= i < split_on(s, c).len() && 0 <= j < split_on(s, c)[i].len() ==> s.contains(#[trigger] split_on(s, c)[i][j])
                && split_on(s, c)[i][j] != c,
        forall|k: int| 0 <= k < s.len() && s[k] != c ==> exists|i: int, j: int|
            0 <= i < split_on(s, c).len() && 0 <= j < split_on(s, c)[i].len() && #[trigger] split_on(s, c)[i][j] == s[k],
        split_on(s, c).len() >= 2 ==> s.contains(c),
    decreases s.len(),
{
    let f = crate::strs::first_index(s, c);
    crate::strs::lemma_first_index(s, c);
    let ps = split_on(s, c);
    if f < 0 {
        assert(ps == seq![s]);
        assert forall|k: int| 0 <= k < s.len() && s[k] != c implies exists|i: int, j: int|
            0 <= i < ps.len() && 0 <= j < ps[i].len() && #[trigger] ps[i][j] == s[k] by {
            assert(ps[0][k] == s[k]);
        }
        assert forall|i: int, j: int| 0 <= i < ps.len() && 0 <= j < ps[i].len() implies s.contains(#[trigger] ps[i][j])
            && ps[i][j] != c by {
            assert(s[j] == ps[i][j]);
        }
    } else {
        let r = s.skip(f + 1);
        lemma_split_parts(r, c);
        let rs = split_on(r, c);
        assert(ps == seq![s.take(f)] + rs);
        assert(s[f] == c);
        assert forall|i: int, j: int| 0 <= i < ps.len() && 0 <= j < ps[i].len() implies s.contains(#[trigger] ps[i][j])
            && ps[i][j] != c by {
            if i == 0 {
                assert(ps[0][j] == s[j]);
            } else {
                assert(ps[i] == rs[i - 1]);
                assert(r.contains(rs[i - 1][j]));
                let m = choose|m: int| 0 <= m < r.len() && r[m] == rs[i - 1][j];
                assert(s[m + f + 1] == r[m]);
            }
        }
        assert forall|k: int| 0 <= k < s.len() && s[k] != c implies exists|i: int, j: int|
            0 <= i < ps.len() && 0 <= j < ps[i].len() && #[trigger] ps[i][j] == s[k] by {
            if k < f {
                assert(ps[0][k] == s[k]);
            } else {
                assert(k > f);
                assert(r[k - f - 1] == s[k]);
                let (i, j) = choose|i: int, j: int| 0 <= i < rs.len() && 0 <= j < rs[i].len() && #[trigger] rs[i][j] == r[k - f - 1];
                assert(ps[i + 1][j] == s[k]);
            }
        }
    }
}

proof fn lemma_labels_chars(h: Seq<char>)
    requires
        split_on(h, '.').len() >= 2,
        forall|i: int| 0 <= i < split_on(h, '.').len() ==> label_ok(#[trigger] split_on(h, '.')[i]),
    ensures
        forall|k: int| 0 <= k < h.len() ==> ('a' <= #[trigger] h[k] <= 'z') || ('0' <= h[k] <= '9') || h[k] == '-' || h[k] == '.',
        h.contains('.'),
{
    let labels = split_on(h, '.');
    lemma_split_parts(h, '.');
    assert forall|k: int| 0 <= k < h.len() implies ('a' <= #[trigger] h[k] <= 'z') || ('0' <= h[k] <= '9') || h[k] == '-'
        || h[k] == '.' by {
        if h[k] != '.' {
            let (i, j) = choose|i: int, j: int| 0 <= i < labels.len() && 0 <= j < labels[i].len() && #[trigger] labels[i][j] == h[k];
            assert(label_ok(labels[i]));
            assert(label_char(labels[i][j]));
        }
    }
}

proof fn lemma_last_label_letter(h: Seq<char>)
    requires
        split_on(h, '.').len() >= 1,
        label_ok(split_on(h, '.').last()),
        !all_digits(split_on(h, '.').last()),
    ensures
        exists|k: int| 0 <= k < h.len() && (('a' <= #[trigger] h[k] <= 'z') || h[k] == '-'),
{
    let labels = split_on(h, '.');
    lemma_split_parts(h, '.');
    let last = labels.last();
    let j = choose|j: int| 0 <= j < last.len() && !is_ascii_digit(#[trigger] last[j]);
    assert(label_char(last[j]));
    assert(labels[labels.len() - 1][j] == last[j]);
    assert(h.contains(last[j]));
    let k = choose|k: int| 0 <= k < h.len() && h[k] == last[j];
    assert(('a' <= h[k] <= 'z') || h[k] == '-');
}

/// A host name that passes is made of `a`-`z`, `0`-`9`, `-` and `.`; it holds a `.`; it
/// has a letter or a `-` (so it is no IP address); and it is not `localhost` nor under
/// `.localhost`, `.local` or `.internal`.
pub proof fn lemma_host_accepted(h: Seq<char>)
    requires
        host_check(h) is Ok,
    ensures
        forall|k: int| 0 <= k < h.len() ==> ('a' <= #[trigger] h[k] <= 'z') || ('0' <= h[k] <= '9') || h[k] == '-' || h[k] == '.',
        h.contains('.'),
        exists|k: int| 0 <= k < h.len() && (('a' <= #[trigger] h[k] <= 'z') || h[k] == '-'),
        h != "localhost"@ && !has_suffix(h, ".localhost"@) && !has_suffix(h, ".local"@) && !has_suffix(h, ".internal"@),
{
    let labels = split_on(h, '.');
    assert(labels.len() >= 2 && forall|i: int| 0 <= i < labels.len() ==> label_ok(#[trigger] labels[i]));
    lemma_labels_chars(h);
    assert(label_ok(labels[labels.len() - 1]));
    lemma_last_label_letter(h);
}

fn label_is_ok(l: &Vec<char>) -> (r: bool)
    ensures
        r == label_ok(l@),
{
    if l.len() == 0 || l.len() > 63 || l[0] == '-' || l[l.len() - 1] == '-' {
        return false;
    }
    let mut i: usize = 0;
    while i < l.len()
        invariant
            i <= l.len(),
            forall|k: int| 0 <= k < i ==> label_char(#[trigger] l@[k]),
        decreases l.len() - i,
    {
        let c = l[i];
        if !(('a' <= c && c <= 'z') || ('0' <= c && c <= '9') || c == '-') {
            assert(!label_char(l@[i as int]));
            return false;
        }
        i += 1;
    }
    true
}

fn digits_only(l: &Vec<char>) -> (r: bool)
    ensures
        r == all_digits(l@),
{
    let mut i: usize = 0;
    while i < l.len()
        invariant
            i <= l.len(),
            forall|k: int| 0 <= k < i ==> is_ascii_digit(#[trigger] l@[k]),
        decreases l.len() - i,
    {
        if !('0' <= l[i] && l[i] <= '9') {
            assert(!is_ascii_digit(l@[i as int]));
            return false;
        }
        i += 1;
    }
    true
}

/// Whether `h` is a host name a plugin may reach, with the error when it is not.
pub fn valid_host(h: &str) -> (r: Result<(), String>)
    ensures
        r matches Ok(_) ==> host_check(h@) is Ok,
        r matches Err(e) ==> host_check(h@) == Err::<(), Seq<char>>(e@),
{
    let cs = chars_of(h);
    let labels = split_chars(&cs, '.');
    let ghost ls = split_on(h@, '.');
    let mut ok = labels.len() >= 2;
    let mut all_num = true;
    let mut i: usize = 0;
    while i < labels.len()
        invariant
            i <= labels.len(),
            cs@ == h@,
            ls == split_on(h@, '.'),
            labels.len() == ls.len(),
            forall|k: int| 0 <= k < labels.len() ==> #[trigger] labels@[k]@ == ls[k],
            ok == (labels.len() >= 2 && forall|k: int| 0 <= k < i ==> label_ok(#[trigger] ls[k])),
            all_num == forall|k: int| 0 <= k < i ==> all_digits(#[trigger] ls[k]),
        decreases labels.len() - i,
    {
        let lok = label_is_ok(&labels[i]);
        let dig = digits_only(&labels[i]);
        ok = ok && lok;
        all_num = all_num && dig;
        i += 1;
    }
    if !ok {
        return Err(concat3("`", h, "` is not a host name"));
    }
    assert(labels.len() >= 2);
    let last_num = digits_only(&labels[labels.len() - 1]);
    if all_num || last_num {
        return Err(concat3("`", h, "`: use a host name, not an IP address"));
    }
    if str_eq(h, "localhost") || ends_with(h, ".localhost") || ends_with(h, ".local") || ends_with(
        h,
        ".internal",
    ) {
        return Err(concat3("`", h, "` is a local name"));
    }
    Ok(())
}

/// A host a plugin may reach: `api.example.com`, or `*.example.com` for its subdomains.
pub enum HostPattern {
    Exact(String),
    Subdomains(String),
}

/// The pattern `HostPattern::parse` makes of `s`, or its error.
pub open spec fn pattern_of(s: Seq<char>) -> Result<(bool, Seq<char>), Seq<char>> {
    let t = ascii_lower_seq(trimmed(s));
    if has_prefix(t, "*."@) {
        let rest = t.skip(2);
        match host_check(rest) {
            Err(e) => Err(e),
            Ok(_) => Ok((false, rest)),
        }
    } else if t.contains('*') {
        Err("`"@ + t + "`: a wildcard may only be `*.` at the start"@)
    } else if t.contains(':') {
        Err("`"@ + t + "`: no ports; plugins use HTTPS on 443"@)
    } else {
        match host_check(t) {
            Err(e) => Err(e),
            Ok(_) => Ok((true, t)),
        }
    }
}

/// Whether `host` is `h` itself (`exact`), or one of its subdomains: `h` preceded by
/// one or more labels and a dot.
pub open spec fn pattern_matches(exact: bool, h: Seq<char>, host: Seq<char>) -> bool {
    if exact {
        host == h
    } else {
        has_suffix(host, h) && host.len() - h.len() > 1 && host[host.len() - h.len() - 1] == '.'
    }
}

/// An exact pattern matches only its own host; a `*.` pattern matches exactly the hosts
/// that are one or more labels and a dot before it, never the bare host itself.
pub proof fn lemma_pattern_matches(h: Seq<char>, host: Seq<char>)
    ensures
        pattern_matches(true, h, host) <==> host == h,
        pattern_matches(false, h, host) <==> exists|p: Seq<char>| #![trigger p + "."@ + h] p.len() > 0 && host == p + "."@ + h,
        !pattern_matches(false, h, h),
{
    reveal_strlit(".");
    if pattern_matches(false, h, host) {
        let p = host.take(host.len() - h.len() - 1);
        assert(host =~= p + "."@ + h) by {
            assert(host.skip(host.len() - h.len()) == h);
            assert forall|i: int| 0 <= i < host.len() implies host[i] == (p + "."@ + h)[i] by {
                if i >= host.len() - h.len() {
                    assert(host.skip(host.len() - h.len())[i - (host.len() - h.len())] == host[i]);
                }
            }
        }
    }
    if exists|p: Seq<char>| #![trigger p + "."@ + h] p.len() > 0 && host == p + "."@ + h {
        let p = choose|p: Seq<char>| #![trigger p + "."@ + h] p.len() > 0 && host == p + "."@ + h;
        assert(host.skip(host.len() - h.len()) =~= h);
        assert(host[host.len() - h.len() - 1] == '.');
    }
}

impl HostPattern {
    /// Whether this is an exact host, and the host name.
    pub open spec fn parts(&self) -> (bool, Seq<char>) {
        match self {
            HostPattern::Exact(h) => (true, h@),
            HostPattern::Subdomains(h) => (false, h@),
        }
    }

    /// Reads `api.example.com` or `*.example.com`, in any case, trimmed; no other
    /// wildcard, no port, and the host must be a public host name.
    pub fn parse(s: &str) -> (r: Result<HostPattern, String>)
        ensures
            r matches Ok(p) ==> pattern_of(s@) == Ok::<(bool, Seq<char>), Seq<char>>(p.parts()),
            r matches Err(e) ==> pattern_of(s@) == Err::<(bool, Seq<char>), Seq<char>>(e@),
    {
        let t0 = trim(s);
        let t = lower_ascii(t0.as_str());
        if starts_with(t.as_str(), "*.") {
            let cs = chars_of(t.as_str());
            proof {
                reveal_strlit("*.");
            }
            let rest = string_of_range(&cs, 2, cs.len());
            assert(rest@ =~= t@.skip(2));
            valid_host(rest.as_str())?;
            return Ok(HostPattern::Subdomains(rest));
        }
        if has_char(t.as_str(), '*') {
            return Err(concat3("`", t.as_str(), "`: a wildcard may only be `*.` at the start"));
        }
        if has_char(t.as_str(), ':') {
            return Err(concat3("`", t.as_str(), "`: no ports; plugins use HTTPS on 443"));
        }
        valid_host(t.as_str())?;
        Ok(HostPattern::Exact(t))
    }

    /// Whether `host` is this host, or for `*.` one of its subdomains (never the bare
    /// domain).
    pub fn matches(&self, host: &str) -> (r: bool)
        ensures
            r == pattern_matches(self.parts().0, self.parts().1, host@),
    {
        match self {
            HostPattern::Exact(h) => str_eq(host, h.as_str()),
            HostPattern::Subdomains(h) => {
                if !ends_with(host, h.as_str()) {
                    return false;
                }
                let cs = chars_of(host);
                let n = h.as_str().unicode_len();
                cs.len() - n > 1 && cs[cs.len() - n - 1] == '.'
            },
        }
    }

    /// How the pattern reads: the host, with `*.` before it for subdomains.
    pub fn to_string(&self) -> (r: String)
        ensures
            r@ == if self.parts().0 {
                self.parts().1
            } else {
                "*."@ + self.parts().1
            },
    {
        match self {
            HostPattern::Exact(h) => String::from_str(h.as_str()),
            HostPattern::Subdomains(h) => concat("*.", h.as_str()),
        }
    }
}

/// Where an allowed request goes.
pub struct Target {
    pub host: String,
    /// Path and query, from the first `/`.
    pub path: String,
}

/// A char no URL may hold: a space or control char, a backslash, DEL or non-ASCII.
pub open spec fn bad_url_char(c: char) -> bool {
    (c as u32) <= 0x20 || c == '\\' || (c as u32) >= 0x7f
}

/// Where the host of `s` ends: at the first `/` or `?`, or at its end.
pub open spec fn authority_end(s: Seq<char>) -> int
    decreases s.len(),
{
    if s.len() == 0 {
        0
    } else if s[0] == '/' || s[0] == '?' {
        0
    } else {
        1 + authority_end(s.drop_first())
    }
}

/// The path a request sends: `/` for none, a leading `/` before a bare query.
pub open spec fn request_path(p: Seq<char>) -> Seq<char> {
    if p.len() == 0 {
        "/"@
    } else if p[0] == '?' {
        "/"@ + p
    } else {
        p
    }
}

/// Whether `host` is matched by one of `allowed`.
pub open spec fn listed(allowed: Seq<HostPattern>, host: Seq<char>) -> bool {
    exists|i: int|
        0 <= i < allowed.len() && pattern_matches(allowed[i].parts().0, allowed[i].parts().1, host)
}

/// What `check_url` answers for `url`: the host and path of an `https://` URL to a listed
/// host, or the first reason it is refused.
pub open spec fn url_check(url: Seq<char>, allowed: Seq<HostPattern>) -> Result<(Seq<char>, Seq<char>), Seq<char>> {
    if !(url.len() >= 8 && ascii_lower_seq(url.take(8)) == "https://"@) {
        Err("`"@ + url + "`: only https:// URLs"@)
    } else if exists|k: int| 0 <= k < url.len() && bad_url_char(#[trigger] url[k]) {
        Err("`"@ + url + "` has spaces, backslashes or non-ASCII characters"@)
    } else {
        let rest = split_on(url.skip(8), '#')[0];
        let end = authority_end(rest);
        let authority = rest.take(end);
        let path = rest.skip(end);
        if authority.contains('@') || authority.contains('%') || authority.contains(':') {
            Err("`"@ + url + "`: no user names, escapes or ports in the host"@)
        } else {
            let host = ascii_lower_seq(authority);
            match host_check(host) {
                Err(e) => Err(e),
                Ok(_) => if !listed(allowed, host) {
                    Err("`"@ + host + "` is not in the plugin's net list"@)
                } else {
                    Ok((host, request_path(path)))
                },
            }
        }
    }
}

proof fn lemma_authority_end(s: Seq<char>, i: int)
    requires
        0 <= i <= s.len(),
        forall|k: int| 0 <= k < i ==> s[k] != '/' && s[k] != '?',
        i == s.len() || s[i] == '/' || s[i] == '?',
    ensures
        authority_end(s) == i,
    decreases i,
{
    if i > 0 {
        lemma_authority_end(s.drop_first(), i - 1);
    }
}

proof fn lemma_authority_end_bounds(s: Seq<char>)
    ensures
        0 <= authority_end(s) <= s.len(),
        forall|k: int| 0 <= k < authority_end(s) ==> s[k] != '/' && s[k] != '?',
        authority_end(s) == s.len() || s[authority_end(s)] == '/' || s[authority_end(s)] == '?',
    decreases s.len(),
{
    if s.len() > 0 && s[0] != '/' && s[0] != '?' {
        lemma_authority_end_bounds(s.drop_first());
        assert forall|k: int| 0 <= k < authority_end(s) implies s[k] != '/' && s[k] != '?' by {
            if k > 0 {
                assert(s[k] == s.drop_first()[k - 1]);
            }
        }
    }
}

/// An accepted answer of `url_check`.
pub open spec fn url_ok(host: Seq<char>, path: Seq<char>) -> Result<(Seq<char>, Seq<char>), Seq<char>> {
    Ok((host, path))
}

/// An accepted URL goes to the host it names, lower-cased, and asks for exactly the path
/// and query written after the host, as written, up to any `#`: the host runs from after
/// `https://` to the first `/` or `?` (`s`), the path from there to the first `#` or the
/// end (`e`); `/` when there is no path, and a `/` put before a bare query.
pub proof fn lemma_accepted_url(url: Seq<char>, allowed: Seq<HostPattern>, host: Seq<char>, path: Seq<char>)
    requires
        url_check(url, allowed) == url_ok(host, path),
    ensures
        exists|s: int, e: int|
            #![trigger url.subrange(s, e)]
            {
                &&& 8 <= s <= e <= url.len()
                &&& forall|k: int| 8 <= k < s ==> url[k] != '/' && url[k] != '?' && url[k] != '#'
                &&& (s == e || url[s] == '/' || url[s] == '?')
                &&& forall|k: int| s <= k < e ==> url[k] != '#'
                &&& (e == url.len() || url[e] == '#')
                &&& host == ascii_lower_seq(url.subrange(8, s))
                &&& path == if s == e {
                    "/"@
                } else if url[s] == '?' {
                    "/"@ + url.subrange(s, e)
                } else {
                    url.subrange(s, e)
                }
            },
        url.len() >= 8 && ascii_lower_seq(url.take(8)) == "https://"@,
        forall|k: int| 0 <= k < url.len() ==> 0x20 < (#[trigger] url[k] as u32) < 0x7f && url[k] != '\\',
        !host.contains('@') && !host.contains('%') && !host.contains(':'),
        listed(allowed, host),
        host_check(host) is Ok,
        forall|k: int| 0 <= k < host.len() ==> ('a' <= #[trigger] host[k] <= 'z') || ('0' <= host[k] <= '9') || host[k] == '-'
            || host[k] == '.',
        host.contains('.'),
        host != "localhost"@ && !has_suffix(host, ".local"@) && !has_suffix(host, ".internal"@),
{
    lemma_host_accepted(host);
    let u = url.skip(8);
    let f = crate::strs::first_index(u, '#');
    crate::strs::lemma_first_index(u, '#');
    let rest = split_on(u, '#')[0];
    let e: int = if f < 0 {
        url.len() as int
    } else {
        8 + f
    };
    if f < 0 {
        assert(rest == u);
    } else {
        assert(rest == u.take(f));
    }
    assert(rest =~= url.subrange(8, e));
    let end = authority_end(rest);
    lemma_authority_end_bounds(rest);
    let s = 8 + end;
    assert(rest.take(end) =~= url.subrange(8, s));
    assert(rest.skip(end) =~= url.subrange(s, e));
    assert forall|k: int| 8 <= k < s implies url[k] != '/' && url[k] != '?' && url[k] != '#' by {
        assert(url[k] == rest[k - 8]);
        assert(u[k - 8] == url[k]);
    }
    assert forall|k: int| s <= k < e implies url[k] != '#' by {
        assert(u[k - 8] == url[k]);
    }
    if s < e {
        assert(url[s] == rest[end]);
    }
    if e < url.len() {
        assert(u[f] == url[e]);
    }
    assert(url.subrange(s, e) == url.subrange(s, e));
    let a = rest.take(end);
    assert forall|c: char| c == '@' || c == '%' || c == ':' implies !host.contains(c) by {
        if host.contains(c) {
            let k = choose|k: int| 0 <= k < host.len() && host[k] == c;
            assert(host[k] == crate::strs::ascii_lower(a[k]));
            assert(a.contains(a[k]));
        }
    }
}

fn any_listed(allowed: &[HostPattern], host: &str) -> (r: bool)
    ensures
        r == listed(allowed@, host@),
{
    let mut i: usize = 0;
    while i < allowed.len()
        invariant
            i <= allowed.len(),
            forall|k: int|
                0 <= k < i ==> !pattern_matches(
                    #[trigger] allowed@[k].parts().0,
                    allowed@[k].parts().1,
                    host@,
                ),
        decreases allowed.len() - i,
    {
        if allowed[i].matches(host) {
            return true;
        }
        i += 1;
    }
    false
}

/// An `https://` URL to a listed host, strictly: no user info, ports, escapes in the
/// host or backslashes, which is where URL parsers disagree.
pub fn check_url(url: &str, allowed: &[HostPattern]) -> (r: Result<Target, String>)
    ensures
        r matches Ok(t) ==> url_check(url@, allowed@) == Ok::<(Seq<char>, Seq<char>), Seq<char>>(
            (t.host@, t.path@),
        ),
        r matches Err(e) ==> url_check(url@, allowed@) == Err::<(Seq<char>, Seq<char>), Seq<char>>(e@),
{
    let cs = chars_of(url);
    let mut scheme_ok = cs.len() >= 8;
    if scheme_ok {
        let head = string_of_range(&cs, 0, 8);
        let low = lower_ascii(head.as_str());
        scheme_ok = str_eq(low.as_str(), "https://");
        assert(head@ =~= url@.take(8));
    }
    if !scheme_ok {
        return Err(concat3("`", url, "`: only https:// URLs"));
    }
    let mut i: usize = 0;
    while i < cs.len()
        invariant
            i <= cs.len(),
            cs@ == url@,
            url@.len() >= 8 && ascii_lower_seq(url@.take(8)) == "https://"@,
            forall|k: int| 0 <= k < i ==> !bad_url_char(#[trigger] cs@[k]),
        decreases cs.len() - i,
    {
        let u = cs[i] as u32;
        if u <= 0x20 || cs[i] == '\\' || u >= 0x7f {
            assert(bad_url_char(url@[i as int]));
            return Err(concat3("`", url, "` has spaces, backslashes or non-ASCII characters"));
        }
        i += 1;
    }
    let after = string_of_range(&cs, 8, cs.len());
    assert(after@ =~= url@.skip(8));
    let pieces = split_chars(&chars_of(after.as_str()), '#');
    proof {
        crate::strs::lemma_split_on_not_empty(url@.skip(8), '#');
    }
    let rest = &pieces[0];
    let mut end: usize = 0;
    while end < rest.len() && rest[end] != '/' && rest[end] != '?'
        invariant
            end <= rest.len(),
            forall|k: int| 0 <= k < end ==> rest@[k] != '/' && rest@[k] != '?',
        decreases rest.len() - end,
    {
        end += 1;
    }
    proof {
        lemma_authority_end(rest@, end as int);
    }
    let authority = string_of_range(rest, 0, end);
    let path = string_of_range(rest, end, rest.len());
    assert(authority@ =~= rest@.take(end as int));
    assert(path@ =~= rest@.skip(end as int));
    if has_char(authority.as_str(), '@') || has_char(authority.as_str(), '%') || has_char(
        authority.as_str(),
        ':',
    ) {
        return Err(concat3("`", url, "`: no user names, escapes or ports in the host"));
    }
    let host = lower_ascii(authority.as_str());
    valid_host(host.as_str())?;
    if !any_listed(allowed, host.as_str()) {
        return Err(concat3("`", host.as_str(), "` is not in the plugin's net list"));
    }
    let pcs = chars_of(path.as_str());
    let out_path = if pcs.len() == 0 {
        String::from_str("/")
    } else if pcs[0] == '?' {
        concat("/", path.as_str())
    } else {
        path
    };
    Ok(Target { host, path: out_path })
}

/// A request from plugin code.
pub struct Request {
    pub method: String,
    pub url: String,
    /// Header names and values, in the order they came.
    pub headers: Vec<(String, String)>,
    pub body: Option<String>,
}

/// A response handed back to plugin code.
pub struct Response {
    pub status: u16,
    pub content_type: String,
    /// A redirect is handed back, never followed.
    pub location: Option<String>,
    pub body: String,
}

/// Headers a plugin may never set.
pub open spec fn refused_headers() -> Seq<Seq<char>> {
    seq![
        "host"@,
        "cookie"@,
        "connection"@,
        "content-length"@,
        "transfer-encoding"@,
        "te"@,
        "upgrade"@,
        "proxy-authorization"@,
        "proxy-connection"@,
    ]
}

/// A header a plugin may set: a name of letters, digits and `-`, no line break in the
/// value, not one the transport owns and no `proxy-` header.
pub open spec fn header_allowed(k: Seq<char>, v: Seq<char>) -> bool {
    let low = ascii_lower_seq(k);
    &&& k.len() > 0
    &&& forall|i: int|
        0 <= i < k.len() ==> (is_ascii_lower(#[trigger] k[i]) || ('A' <= k[i] <= 'Z')
            || is_ascii_digit(k[i]) || k[i] == '-')
    &&& !v.contains('\r')
    &&& !v.contains('\n')
    &&& !refused_headers().contains(low)
    &&& !has_prefix(low, "proxy-"@)
}

/// The method a request is sent with: `GET` when none is given, else upper-cased.
pub open spec fn effective_method(m: Seq<char>) -> Seq<char> {
    if m.len() == 0 {
        "GET"@
    } else {
        ascii_upper_seq(m)
    }
}

/// The first header that is not allowed, or -1.
pub open spec fn first_bad_header(h: Seq<(String, String)>) -> int
    decreases h.len(),
{
    if h.len() == 0 {
        -1
    } else if !header_allowed(h[0].0@, h[0].1@) {
        0
    } else {
        let r = first_bad_header(h.drop_first());
        if r < 0 {
            -1
        } else {
            r + 1
        }
    }
}

/// The number of bytes `s` takes in UTF-8, as `str::len` gives it.
pub open spec fn byte_len(s: Seq<char>) -> usize {
    vstd::utf8::encode_utf8(s).len() as usize
}

/// What `check_request` answers: the method it goes with and its target, or the first
/// reason it is refused: a method other than GET and POST, a body over 64 KB, a header
/// that is not allowed, then the URL.
pub open spec fn request_check(req: Request, allowed: Seq<HostPattern>) -> Result<(Seq<char>, (Seq<char>, Seq<char>)), Seq<char>> {
    let m = effective_method(req.method@);
    if m != "GET"@ && m != "POST"@ {
        Err(m + " is not allowed; use GET or POST"@)
    } else if req.body matches Some(b) && byte_len(b@) > REQUEST_BODY_CAP {
        Err("the request body is over 64 KB"@)
    } else if first_bad_header(req.headers@) >= 0 {
        Err("header `"@ + req.headers@[first_bad_header(req.headers@)].0@ + "` is not allowed"@)
    } else {
        match url_check(req.url@, allowed) {
            Err(e) => Err(e),
            Ok(t) => Ok((m, t)),
        }
    }
}

fn refused_header(low: &str) -> (r: bool)
    ensures
        r == refused_headers().contains(low@),
{
    let r = str_eq(low, "host") || str_eq(low, "cookie") || str_eq(low, "connection") || str_eq(
        low,
        "content-length",
    ) || str_eq(low, "transfer-encoding") || str_eq(low, "te") || str_eq(low, "upgrade") || str_eq(
        low,
        "proxy-authorization",
    ) || str_eq(low, "proxy-connection");
    proof {
        let c = refused_headers();
        if r {
            assert(c[0] == low@ || c[1] == low@ || c[2] == low@ || c[3] == low@ || c[4] == low@
                || c[5] == low@ || c[6] == low@ || c[7] == low@ || c[8] == low@);
        } else if c.contains(low@) {
            let k = choose|k: int| 0 <= k < c.len() && c[k] == low@;
            assert(c[k] == low@);
        }
    }
    r
}

fn header_ok(k: &str, v: &str) -> (r: bool)
    ensures
        r == header_allowed(k@, v@),
{
    let cs = chars_of(k);
    if cs.len() == 0 {
        return false;
    }
    let mut i: usize = 0;
    while i < cs.len()
        invariant
            i <= cs.len(),
            cs@ == k@,
            forall|j: int|
                0 <= j < i ==> (is_ascii_lower(#[trigger] cs@[j]) || ('A' <= cs@[j] <= 'Z')
                    || is_ascii_digit(cs@[j]) || cs@[j] == '-'),
        decreases cs.len() - i,
    {
        let c = cs[i];
        if !(('a' <= c && c <= 'z') || ('A' <= c && c <= 'Z') || ('0' <= c && c <= '9') || c
            == '-') {
            return false;
        }
        i += 1;
    }
    if has_char(v, '\r') || has_char(v, '\n') {
        return false;
    }
    let low = lower_ascii(k);
    if refused_header(low.as_str()) {
        return false;
    }
    !starts_with(low.as_str(), "proxy-")
}

proof fn lemma_first_bad_header(h: Seq<(String, String)>, i: int)
    requires
        0 <= i <= h.len(),
        forall|j: int| 0 <= j < i ==> header_allowed(#[trigger] h[j].0@, h[j].1@),
        i == h.len() || !header_allowed(h[i].0@, h[i].1@),
    ensures
        first_bad_header(h) == if i == h.len() {
            -1
        } else {
            i
        },
    decreases i,
{
    if i > 0 {
        let t = h.drop_first();
        assert forall|j: int| 0 <= j < i - 1 implies header_allowed(#[trigger] t[j].0@, t[j].1@) by {
            assert(t[j] == h[j + 1]);
        }
        lemma_first_bad_header(t, i - 1);
    }
}

/// An accepted answer of `request_check`: the method and the target.
pub open spec fn request_ok(m: Seq<char>, host: Seq<char>, path: Seq<char>) -> Result<(Seq<char>, (Seq<char>, Seq<char>)), Seq<char>> {
    Ok((m, (host, path)))
}

proof fn lemma_no_bad_header(h: Seq<(String, String)>)
    ensures
        first_bad_header(h) < 0 ==> forall|i: int| 0 <= i < h.len() ==> header_allowed((#[trigger] h[i]).0@, h[i].1@),
        first_bad_header(h) >= 0 ==> first_bad_header(h) < h.len() && !header_allowed(h[first_bad_header(h)].0@, h[first_bad_header(h)].1@),
    decreases h.len(),
{
    if h.len() > 0 {
        lemma_no_bad_header(h.drop_first());
        assert forall|i: int| 0 < i < h.len() implies h[i] == h.drop_first()[i - 1] by {}
    }
}

/// An accepted request goes by GET or POST (the method given, upper-cased; GET when none
/// is), with a body of at most 64 KB; each header is named by ASCII letters, digits and
/// `-`, is none the transport owns (`host`, `cookie`, `connection`, `content-length`,
/// `transfer-encoding`, `te`, `upgrade`, in any case) nor any `proxy-` header, and has no
/// line break in its value; and it goes where `check_url` sends its URL. A request with a
/// header that breaks these is refused, naming the first such header.
pub proof fn lemma_accepted_request(req: Request, allowed: Seq<HostPattern>, m: Seq<char>, host: Seq<char>, path: Seq<char>)
    requires
        request_check(req, allowed) == request_ok(m, host, path),
    ensures
        m == "GET"@ || m == "POST"@,
        req.method@.len() == 0 ==> m == "GET"@,
        req.method@.len() > 0 ==> m == ascii_upper_seq(req.method@),
        req.body matches Some(b) ==> byte_len(b@) <= 65536,
        forall|i: int| 0 <= i < req.headers@.len() ==> {
            let k = (#[trigger] req.headers@[i]).0@;
            let v = req.headers@[i].1@;
            let low = ascii_lower_seq(k);
            &&& k.len() > 0
            &&& forall|j: int| 0 <= j < k.len() ==> ('a' <= #[trigger] k[j] <= 'z') || ('A' <= k[j] <= 'Z') || ('0' <= k[j] <= '9') || k[j] == '-'
            &&& !v.contains('\r') && !v.contains('\n')
            &&& low != "host"@ && low != "cookie"@ && low != "connection"@ && low != "content-length"@
            &&& low != "transfer-encoding"@ && low != "te"@ && low != "upgrade"@
            &&& !(low.len() >= 6 && low.take(6) == "proxy-"@)
        },
        url_check(req.url@, allowed) == url_ok(host, path),
{
    lemma_no_bad_header(req.headers@);
    assert forall|i: int| 0 <= i < req.headers@.len() implies {
        let k = (#[trigger] req.headers@[i]).0@;
        let low = ascii_lower_seq(k);
        &&& low != "host"@ && low != "cookie"@ && low != "connection"@ && low != "content-length"@
        &&& low != "transfer-encoding"@ && low != "te"@ && low != "upgrade"@
    } by {
        let k = req.headers@[i].0@;
        let low = ascii_lower_seq(k);
        let c = refused_headers();
        assert(header_allowed(k, req.headers@[i].1@));
        if low == "host"@ { assert(c[0] == low); }
        if low == "cookie"@ { assert(c[1] == low); }
        if low == "connection"@ { assert(c[2] == low); }
        if low == "content-length"@ { assert(c[3] == low); }
        if low == "transfer-encoding"@ { assert(c[4] == low); }
        if low == "te"@ { assert(c[5] == low); }
        if low == "upgrade"@ { assert(c[6] == low); }
    }
}

/// An answer of `response_check` that hands the response on.
pub open spec fn response_ok(st: u16, ty: Seq<char>, loc: Option<Seq<char>>, body: Seq<char>) -> Result<(u16, Seq<char>, Option<Seq<char>>, Seq<char>), Seq<char>> {
    Ok((st, ty, loc, body))
}

/// A response plugin code sees is the one that came, status, type and body unchanged, its
/// body at most 2 MB; its redirect target is kept for a 3xx status and dropped otherwise.
/// Any response with a body of at most 2 MB is handed on.
pub proof fn lemma_response_kept(resp: Response, st: u16, ty: Seq<char>, loc: Option<Seq<char>>, body: Seq<char>)
    ensures
        response_check(resp) == response_ok(st, ty, loc, body) ==> {
            &&& st == resp.status && ty == resp.content_type@ && body == resp.body@
            &&& byte_len(resp.body@) <= 2097152
            &&& (300 <= st < 400 ==> loc == match resp.location {
                Some(l) => Some(l@),
                None => None,
            })
            &&& (!(300 <= st < 400) ==> loc is None)
        },
        byte_len(resp.body@) <= 2097152 ==> response_check(resp) is Ok,
{
}

/// Checks a plugin's request before it leaves: returns the method to send it with and
/// where it goes, or the first reason it is refused.
pub fn check_request(req: &Request, allowed: &[HostPattern]) -> (r: Result<(String, Target), String>)
    ensures
        r matches Ok(ok) ==> request_check(*req, allowed@) == Ok::<(Seq<char>, (Seq<char>, Seq<char>)), Seq<char>>(
            (ok.0@, (ok.1.host@, ok.1.path@)),
        ),
        r matches Err(e) ==> request_check(*req, allowed@) == Err::<(Seq<char>, (Seq<char>, Seq<char>)), Seq<char>>(e@),
{
    let method = if req.method.as_str().is_empty() {
        String::from_str("GET")
    } else {
        upper_ascii(req.method.as_str())
    };
    if !(str_eq(method.as_str(), "GET") || str_eq(method.as_str(), "POST")) {
        return Err(concat(method.as_str(), " is not allowed; use GET or POST"));
    }
    if let Some(b) = &req.body {
        if b.as_str().len() > REQUEST_BODY_CAP {
            return Err(String::from_str("the request body is over 64 KB"));
        }
    }
    let ghost m = effective_method(req.method@);
    assert(method@ == m);
    let mut i: usize = 0;
    while i < req.headers.len()
        invariant
            i <= req.headers.len(),
            method@ == effective_method(req.method@),
            effective_method(req.method@) == "GET"@ || effective_method(req.method@) == "POST"@,
            !(req.body matches Some(b) && byte_len(b@) > REQUEST_BODY_CAP),
            forall|j: int| 0 <= j < i ==> header_allowed(#[trigger] req.headers@[j].0@, req.headers@[j].1@),
        decreases req.headers.len() - i,
    {
        let (k, v) = &req.headers[i];
        if !header_ok(k.as_str(), v.as_str()) {
            proof {
                lemma_first_bad_header(req.headers@, i as int);
            }
            return Err(concat3("header `", k.as_str(), "` is not allowed"));
        }
        i += 1;
    }
    proof {
        lemma_first_bad_header(req.headers@, req.headers.len() as int);
    }
    let to = check_url(req.url.as_str(), allowed)?;
    Ok((method, to))
}

/// The response plugin code gets: refused when the body is over 2 MB; a `location`
/// only on a redirect (status 300 to 399).
pub open spec fn response_check(resp: Response) -> Result<(u16, Seq<char>, Option<Seq<char>>, Seq<char>), Seq<char>> {
    if byte_len(resp.body@) > BODY_CAP {
        Err("the response is over 2 MB"@)
    } else {
        Ok(
            (
                resp.status,
                resp.content_type@,
                if 300 <= resp.status < 400 {
                    match resp.location {
                        Some(l) => Some(l@),
                        None => None,
                    }
                } else {
                    None
                },
                resp.body@,
            ),
        )
    }
}

/// Checks a response before plugin code sees it.
pub fn check_response(resp: Response) -> (r: Result<Response, String>)
    ensures
        r matches Ok(o) ==> response_check(resp) == Ok::<(u16, Seq<char>, Option<Seq<char>>, Seq<char>), Seq<char>>(
            (
                o.status,
                o.content_type@,
                match o.location {
                    Some(l) => Some(l@),
                    None => None,
                },
                o.body@,
            ),
        ),
        r matches Err(e) ==> response_check(resp) == Err::<(u16, Seq<char>, Option<Seq<char>>, Seq<char>), Seq<char>>(e@),
{
    if resp.body.as_str().len() > BODY_CAP {
        return Err(String::from_str("the response is over 2 MB"));
    }
    let Response { status, content_type, location, body } = resp;
    let location = if 300 <= status && status < 400 {
        location
    } else {
        None
    };
    Ok(Response { status, content_type, location, body })
}

} // verus!
