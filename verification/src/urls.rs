//! Peer URLs: what a node advertises, loopback detection and host rewriting.
use vstd::prelude::*;

use crate::text::{
    append_chars, append_str, chars_of, contains, eq_str, find, find_vec,
    lemma_find_in_range, lemma_rfind_to, lower_seq, lower_vec, rfind, rfind_vec, slice_vec,
    starts_with, starts_with_str, string_of, trim, trim_vec, contains_str,
};

verus! {

/// Addresses of this host that other nodes can reach.
#[derive(Debug, PartialEq, Eq)]
pub struct HostAddrs {
    pub ipv4: Vec<String>,
    pub ipv6: Vec<String>,
}

impl Default for HostAddrs {
    fn default() -> (r: HostAddrs)
        ensures
            r.ipv4@.len() == 0,
            r.ipv6@.len() == 0,
    {
        HostAddrs { ipv4: Vec::new(), ipv6: Vec::new() }
    }
}

pub open spec fn is_bracket(c: char) -> bool {
    c == '[' || c == ']'
}

/// Number of leading characters of `s` from `i` on that are brackets.
pub open spec fn skip_brackets(s: Seq<char>, i: int) -> int
    decreases s.len() - i,
{
    if i < 0 || i >= s.len() {
        if i < 0 {
            0
        } else {
            s.len() as int
        }
    } else if is_bracket(s[i]) {
        skip_brackets(s, i + 1)
    } else {
        i
    }
}

/// Largest end `k <= j` whose character before is not `c` (for `trim_end_matches`).
pub open spec fn back_char(s: Seq<char>, j: int, c: char) -> int
    decreases j,
{
    if j <= 0 {
        0
    } else if j > s.len() {
        back_char(s, s.len() as int, c)
    } else if s[j - 1] == c {
        back_char(s, j - 1, c)
    } else {
        j
    }
}

/// Largest end `k <= j` whose character before is not a bracket.
pub open spec fn back_brackets(s: Seq<char>, lo: int, j: int) -> int
    decreases j,
{
    if j <= 0 || j <= lo {
        lo
    } else if j > s.len() {
        back_brackets(s, lo, s.len() as int)
    } else if is_bracket(s[j - 1]) {
        back_brackets(s, lo, j - 1)
    } else {
        j
    }
}

/// `s.trim_matches(['[', ']'])`.
pub open spec fn trim_brackets(s: Seq<char>) -> Seq<char> {
    let lo = skip_brackets(s, 0);
    s.subrange(lo, back_brackets(s, lo, s.len() as int))
}

/// `s.trim_end_matches(c)`.
pub open spec fn trim_end_char(s: Seq<char>, c: char) -> Seq<char> {
    s.take(back_char(s, s.len() as int, c))
}

proof fn lemma_skip_brackets(s: Seq<char>, i: int)
    requires
        0 <= i <= s.len(),
    ensures
        i <= skip_brackets(s, i) <= s.len(),
    decreases s.len() - i,
{
    if i < s.len() && is_bracket(s[i]) {
        lemma_skip_brackets(s, i + 1);
    }
}

proof fn lemma_back_brackets(s: Seq<char>, lo: int, j: int)
    requires
        0 <= lo <= j <= s.len(),
    ensures
        lo <= back_brackets(s, lo, j) <= j,
    decreases j,
{
    if j > lo && is_bracket(s[j - 1]) {
        lemma_back_brackets(s, lo, j - 1);
    }
}

proof fn lemma_back_char(s: Seq<char>, j: int, c: char)
    requires
        0 <= j <= s.len(),
    ensures
        0 <= back_char(s, j, c) <= j,
    decreases j,
{
    if j > 0 && s[j - 1] == c {
        lemma_back_char(s, j - 1, c);
    }
}

pub fn trim_brackets_vec(s: &[char]) -> (r: Vec<char>)
    ensures
        r@ == trim_brackets(s@),
{
    let mut lo: usize = 0;
    while lo < s.len() && (s[lo] == '[' || s[lo] == ']')
        invariant
            lo <= s.len(),
            skip_brackets(s@, lo as int) == skip_brackets(s@, 0),
        decreases s.len() - lo,
    {
        lo += 1;
    }
    let mut hi: usize = s.len();
    while hi > lo && (s[hi - 1] == '[' || s[hi - 1] == ']')
        invariant
            lo <= hi <= s.len(),
            lo as int == skip_brackets(s@, 0),
            back_brackets(s@, lo as int, hi as int) == back_brackets(
                s@,
                lo as int,
                s@.len() as int,
            ),
        decreases hi,
    {
        hi -= 1;
    }
    slice_vec(s, lo, hi)
}

pub fn trim_end_char_vec(s: &[char], c: char) -> (r: Vec<char>)
    ensures
        r@ == trim_end_char(s@, c),
{
    let mut hi: usize = s.len();
    while hi > 0 && s[hi - 1] == c
        invariant
            hi <= s.len(),
            back_char(s@, hi as int, c) == back_char(s@, s@.len() as int, c),
        decreases hi,
    {
        hi -= 1;
    }
    slice_vec(s, 0, hi)
}

/// Host and port of a listen address: `[v6]:port`, `host:port` (last colon), or a bare
/// host with the default port `7480`.
pub open spec fn spec_split_listen(listen: Seq<char>) -> (Seq<char>, Seq<char>) {
    let l = trim(listen);
    let rest = l.skip(1);
    let k = find(rest, "]:"@);
    let j = rfind(l, ":"@);
    if starts_with(l, "["@) && k >= 0 {
        (rest.take(k), rest.skip(k + 2))
    } else if j >= 0 {
        (l.take(j), l.skip(j + 1))
    } else {
        (l, "7480"@)
    }
}

/// Splits a listen address into host and port.
pub fn split_listen(listen: &str) -> (r: (String, String))
    ensures
        (r.0@, r.1@) == spec_split_listen(listen@),
{
    proof {
        reveal_strlit("[");
        reveal_strlit("]:");
        reveal_strlit(":");
    }
    let lv = chars_of(listen);
    let l = trim_vec(lv.as_slice());
    if starts_with_str(l.as_slice(), "[") {
        let rest = slice_vec(l.as_slice(), 1, l.len());
        assert(rest@ =~= l@.skip(1));
        let pat = chars_of("]:");
        if let Some(k) = find_vec(rest.as_slice(), pat.as_slice()) {
            proof {
                lemma_find_in_range(rest@, "]:"@);
            }
            let h = slice_vec(rest.as_slice(), 0, k);
            let p = slice_vec(rest.as_slice(), k + 2, rest.len());
            assert(h@ =~= rest@.take(k as int));
            assert(p@ =~= rest@.skip(k + 2));
            return (string_of(h.as_slice()), string_of(p.as_slice()));
        }
    }
    let colon = chars_of(":");
    if let Some(j) = rfind_vec(l.as_slice(), colon.as_slice()) {
        proof {
            lemma_rfind_to(l@, ":"@, l@.len() - 1);
            assert(":"@.len() == 1);
            assert(j + 1 <= l@.len());
            assert(j < l.len());
        }
        let h = slice_vec(l.as_slice(), 0, j);
        let p = slice_vec(l.as_slice(), j + 1, l.len());
        assert(h@ =~= l@.take(j as int));
        assert(p@ =~= l@.skip(j + 1));
        return (string_of(h.as_slice()), string_of(p.as_slice()));
    }
    (string_of(l.as_slice()), string_of(chars_of("7480").as_slice()))
}

/// The host to advertise: unspecified binds advertise a LAN address (`lan`), else loopback.
pub open spec fn spec_resolve_advertise_host(host: Seq<char>, lan: Option<Seq<char>>) -> Seq<char> {
    let h = trim_brackets(trim(host));
    if h == "0.0.0.0"@ || h == "::"@ {
        match lan {
            Some(a) => a,
            None => "127.0.0.1"@,
        }
    } else {
        h
    }
}

pub open spec fn opt_view(o: Option<String>) -> Option<Seq<char>> {
    match o {
        Some(s) => Some(s@),
        None => None,
    }
}

/// `host` as advertised; `lan` is this host's first LAN address, when one was found.
pub fn resolve_advertise_host(host: &str, lan: &Option<String>) -> (r: String)
    ensures
        r@ == spec_resolve_advertise_host(host@, opt_view(*lan)),
{
    let hv = chars_of(host);
    let t = trim_vec(hv.as_slice());
    let h = trim_brackets_vec(t.as_slice());
    if eq_str(h.as_slice(), "0.0.0.0") || eq_str(h.as_slice(), "::") {
        match lan {
            Some(a) => a.clone(),
            None => string_of(chars_of("127.0.0.1").as_slice()),
        }
    } else {
        string_of(h.as_slice())
    }
}

/// This host's first IPv4 address, else its first IPv6 address.
pub fn lan_advertise_host(addrs: &HostAddrs) -> (r: Option<String>)
    ensures
        addrs.ipv4@.len() > 0 ==> r == Some(addrs.ipv4@[0]),
        addrs.ipv4@.len() == 0 && addrs.ipv6@.len() > 0 ==> r == Some(addrs.ipv6@[0]),
        addrs.ipv4@.len() == 0 && addrs.ipv6@.len() == 0 ==> r is None,
{
    if addrs.ipv4.len() > 0 {
        Some(addrs.ipv4[0].clone())
    } else if addrs.ipv6.len() > 0 {
        Some(addrs.ipv6[0].clone())
    } else {
        None
    }
}

/// IPv6 literals are bracketed in URLs.
pub open spec fn spec_format_url_host(host: Seq<char>) -> Seq<char> {
    if contains(host, ":"@) && !starts_with(host, "["@) {
        "["@ + host + "]"@
    } else {
        host
    }
}

fn format_url_host_vec(host: &[char]) -> (r: Vec<char>)
    ensures
        r@ == spec_format_url_host(host@),
{
    if contains_str(host, ":") && !starts_with_str(host, "[") {
        let mut v = chars_of("[");
        append_chars(&mut v, host);
        append_str(&mut v, "]");
        v
    } else {
        slice_vec(host, 0, host.len())
    }
}

/// `[host]` for an IPv6 literal, else `host`.
pub fn format_url_host(host: &str) -> (r: String)
    ensures
        r@ == spec_format_url_host(host@),
{
    let hv = chars_of(host);
    let v = format_url_host_vec(hv.as_slice());
    assert(hv@.subrange(0, hv@.len() as int) =~= hv@);
    string_of(v.as_slice())
}

/// `scheme://host:port` for a listen address.
pub open spec fn url_for(scheme: Seq<char>, listen: Seq<char>, lan: Option<Seq<char>>) -> Seq<char> {
    let (host, port) = spec_split_listen(listen);
    scheme + "://"@ + spec_format_url_host(spec_resolve_advertise_host(host, lan)) + ":"@ + port
}

/// The URL other nodes should dial.
pub open spec fn spec_advertise_peer_url(
    listen: Seq<char>,
    tls_listen: Option<Seq<char>>,
    explicit: Option<Seq<char>>,
    lan: Option<Seq<char>>,
) -> Seq<char> {
    let e = match explicit {
        Some(u) => trim_end_char(trim(u), '/'),
        None => ""@,
    };
    if explicit is Some && e.len() > 0 {
        e
    } else if tls_listen is Some && trim(tls_listen->0).len() > 0 {
        url_for("https"@, trim(tls_listen->0), lan)
    } else {
        url_for("http"@, listen, lan)
    }
}

pub open spec fn opt_str_view(o: Option<&str>) -> Option<Seq<char>> {
    match o {
        Some(s) => Some(s@),
        None => None,
    }
}

fn url_for_exec(scheme: &str, listen: &str, lan: &Option<String>) -> (r: String)
    ensures
        r@ == url_for(scheme@, listen@, opt_view(*lan)),
{
    let (host, port) = split_listen(listen);
    let h = resolve_advertise_host(host.as_str(), lan);
    let hv = chars_of(h.as_str());
    let f = format_url_host_vec(hv.as_slice());
    let mut v = chars_of(scheme);
    append_str(&mut v, "://");
    append_chars(&mut v, f.as_slice());
    append_str(&mut v, ":");
    append_str(&mut v, port.as_str());
    string_of(v.as_slice())
}

/// Cluster URL other nodes should dial. An explicit URL wins; then the TLS listener
/// (`https`); then the plain listener (`http`). Unspecified binds advertise `lan`.
pub fn advertise_peer_url(
    listen: &str,
    tls_listen: Option<&str>,
    explicit: Option<&str>,
    lan: &Option<String>,
) -> (r: String)
    ensures
        r@ == spec_advertise_peer_url(
            listen@,
            opt_str_view(tls_listen),
            opt_str_view(explicit),
            opt_view(*lan),
        ),
{
    if let Some(url) = explicit {
        let uv = chars_of(url);
        let t = trim_vec(uv.as_slice());
        let e = trim_end_char_vec(t.as_slice(), '/');
        if e.len() > 0 {
            return string_of(e.as_slice());
        }
    }
    if let Some(tls) = tls_listen {
        let tv = chars_of(tls);
        let t = trim_vec(tv.as_slice());
        if t.len() > 0 {
            let ts = string_of(t.as_slice());
            return url_for_exec("https", ts.as_str(), lan);
        }
    }
    url_for_exec("http", listen, lan)
}

/// `advertise_peer_url` without a TLS listener.
pub fn advertise_url(listen: &str, explicit: Option<&str>, lan: &Option<String>) -> (r: String)
    ensures
        r@ == spec_advertise_peer_url(listen@, None, opt_str_view(explicit), opt_view(*lan)),
{
    advertise_peer_url(listen, None, explicit, lan)
}

/// A URL that names this machine only (loopback or unspecified address).
pub open spec fn spec_is_loopback_peer_url(url: Seq<char>) -> bool {
    let lower = lower_seq(trim(url));
    contains(lower, "127.0.0.1"@) || contains(lower, "localhost"@) || contains(lower, "[::1]"@)
        || contains(lower, "://[::1]"@) || contains(lower, "0.0.0.0"@)
}

/// Does the URL point at loopback (or at an unspecified address)?
pub fn is_loopback_peer_url(url: &str) -> (r: bool)
    ensures
        r == spec_is_loopback_peer_url(url@),
{
    let uv = chars_of(url);
    let t = trim_vec(uv.as_slice());
    let lower = lower_vec(t.as_slice());
    contains_str(lower.as_slice(), "127.0.0.1") || contains_str(lower.as_slice(), "localhost")
        || contains_str(lower.as_slice(), "[::1]") || contains_str(lower.as_slice(), "://[::1]")
        || contains_str(lower.as_slice(), "0.0.0.0")
}

/// `scheme://host:port` keeping the scheme and port of `template`.
/// Whether this node should advertise `desired` in place of its current peer URL: the
/// desired URL leaves loopback and the current one is on loopback, or the desired URL
/// moves from plain HTTP to HTTPS.
pub open spec fn spec_peer_url_upgrade(desired: Seq<char>, current: Seq<char>) -> bool {
    !spec_is_loopback_peer_url(desired) && (spec_is_loopback_peer_url(current) || (starts_with(
        current,
        "http://"@,
    ) && starts_with(desired, "https://"@)))
}

pub fn peer_url_upgrade(desired: &str, current: &str) -> (r: bool)
    ensures
        r == spec_peer_url_upgrade(desired@, current@),
{
    !is_loopback_peer_url(desired) && (is_loopback_peer_url(current) || (starts_with_str(
        chars_of(current).as_slice(),
        "http://",
    ) && starts_with_str(chars_of(desired).as_slice(), "https://")))
}

pub open spec fn spec_rewrite_peer_host(template: Seq<char>, host: Seq<char>) -> Option<Seq<char>> {
    let url = trim_end_char(trim(template), '/');
    let https = starts_with(url, "https://"@);
    let http = starts_with(url, "http://"@);
    let rest = if https {
        url.skip(8)
    } else {
        url.skip(7)
    };
    let j = rfind(rest, ":"@);
    let port = rest.skip(j + 1);
    if !https && !http {
        None
    } else if j < 0 || port.len() == 0 {
        None
    } else {
        Some(
            (if https {
                "https"@
            } else {
                "http"@
            }) + "://"@ + spec_format_url_host(host) + ":"@ + port,
        )
    }
}

/// Replace the host of a peer URL, keeping scheme and port.
pub fn rewrite_peer_host(template: &str, host: &str) -> (r: Option<String>)
    ensures
        match r {
            Some(u) => spec_rewrite_peer_host(template@, host@) == Some(u@),
            None => spec_rewrite_peer_host(template@, host@) is None,
        },
{
    proof {
        reveal_strlit("https://");
        reveal_strlit("http://");
        reveal_strlit(":");
    }
    let tv = chars_of(template);
    let t = trim_vec(tv.as_slice());
    let url = trim_end_char_vec(t.as_slice(), '/');
    let https = starts_with_str(url.as_slice(), "https://");
    let http = starts_with_str(url.as_slice(), "http://");
    if !https && !http {
        return None;
    }
    let rest = if https {
        slice_vec(url.as_slice(), 8, url.len())
    } else {
        slice_vec(url.as_slice(), 7, url.len())
    };
    assert(rest@ =~= (if https {
        url@.skip(8)
    } else {
        url@.skip(7)
    }));
    let colon = chars_of(":");
    let j = match rfind_vec(rest.as_slice(), colon.as_slice()) {
        None => {
            return None;
        },
        Some(j) => j,
    };
    proof {
        lemma_rfind_to(rest@, ":"@, rest@.len() - 1);
        assert(":"@.len() == 1);
        assert(j + 1 <= rest@.len());
    }
    let port = slice_vec(rest.as_slice(), j + 1, rest.len());
    assert(port@ =~= rest@.skip(j + 1));
    if port.len() == 0 {
        return None;
    }
    let hv = chars_of(host);
    let f = format_url_host_vec(hv.as_slice());
    let mut v = if https {
        chars_of("https")
    } else {
        chars_of("http")
    };
    append_str(&mut v, "://");
    append_chars(&mut v, f.as_slice());
    append_str(&mut v, ":");
    append_chars(&mut v, port.as_slice());
    Some(string_of(v.as_slice()))
}

/// WebSocket URL for an API path: `http` becomes `ws`, `https` becomes `wss`.
pub open spec fn spec_ws_url(http: Seq<char>, path: Seq<char>, token: Seq<char>) -> Seq<char> {
    let base = if starts_with(http, "https://"@) {
        "wss://"@ + http.skip(8)
    } else if starts_with(http, "http://"@) {
        "ws://"@ + http.skip(7)
    } else {
        "ws://"@ + http
    };
    trim_end_char(base, '/') + path + "?token="@ + token
}

/// WebSocket URL for an API path with a token query.
pub fn ws_url(http: &str, path: &str, token: &str) -> (r: String)
    ensures
        r@ == spec_ws_url(http@, path@, token@),
{
    proof {
        reveal_strlit("https://");
        reveal_strlit("http://");
    }
    let hv = chars_of(http);
    let mut base: Vec<char>;
    if starts_with_str(hv.as_slice(), "https://") {
        base = chars_of("wss://");
        let rest = slice_vec(hv.as_slice(), 8, hv.len());
        assert(rest@ =~= hv@.skip(8));
        append_chars(&mut base, rest.as_slice());
    } else if starts_with_str(hv.as_slice(), "http://") {
        base = chars_of("ws://");
        let rest = slice_vec(hv.as_slice(), 7, hv.len());
        assert(rest@ =~= hv@.skip(7));
        append_chars(&mut base, rest.as_slice());
    } else {
        base = chars_of("ws://");
        append_chars(&mut base, hv.as_slice());
    }
    let mut v = trim_end_char_vec(base.as_slice(), '/');
    append_str(&mut v, path);
    append_str(&mut v, "?token=");
    append_str(&mut v, token);
    string_of(v.as_slice())
}

/// Host part for a URL from a list of addresses: the first IPv4 (has a dot), else the
/// first address, else loopback; IPv6 literals are bracketed.
pub open spec fn first_dotted(ips: Seq<String>, i: int) -> int
    decreases ips.len() - i,
{
    if i < 0 || i >= ips.len() {
        ips.len() as int
    } else if contains(ips[i]@, "."@) {
        i
    } else {
        first_dotted(ips, i + 1)
    }
}

pub open spec fn spec_url_host(ips: Seq<String>) -> Seq<char> {
    let k = first_dotted(ips, 0);
    let raw = if k < ips.len() {
        ips[k]@
    } else if ips.len() > 0 {
        ips[0]@
    } else {
        "127.0.0.1"@
    };
    if contains(raw, ":"@) {
        "["@ + raw + "]"@
    } else {
        raw
    }
}

pub fn url_host(ips: &[String]) -> (r: String)
    ensures
        r@ == spec_url_host(ips@),
{
    let mut k: usize = 0;
    while k < ips.len()
        invariant
            k <= ips.len(),
            first_dotted(ips@, k as int) == first_dotted(ips@, 0),
        ensures
            k as int == first_dotted(ips@, 0),
        decreases ips.len() - k,
    {
        let v = chars_of(ips[k].as_str());
        if contains_str(v.as_slice(), ".") {
            break;
        }
        k += 1;
    }
    let raw: Vec<char> = if k < ips.len() {
        chars_of(ips[k].as_str())
    } else if ips.len() > 0 {
        chars_of(ips[0].as_str())
    } else {
        chars_of("127.0.0.1")
    };
    if contains_str(raw.as_slice(), ":") {
        let mut v = chars_of("[");
        append_chars(&mut v, raw.as_slice());
        append_str(&mut v, "]");
        string_of(v.as_slice())
    } else {
        string_of(raw.as_slice())
    }
}

/// All host addresses, IPv4 first; loopback when there is none.
pub fn local_ips(addrs: &HostAddrs) -> (r: Vec<String>)
    ensures
        addrs.ipv4@.len() + addrs.ipv6@.len() > 0 ==> r@ == addrs.ipv4@ + addrs.ipv6@,
        addrs.ipv4@.len() + addrs.ipv6@.len() == 0 ==> r@.len() == 1 && r@[0]@ == "127.0.0.1"@,
{
    let mut ips = crate::ids::clone_strings(&addrs.ipv4);
    let six = crate::ids::clone_strings(&addrs.ipv6);
    let mut i: usize = 0;
    let ghost start = ips@;
    while i < six.len()
        invariant
            i <= six.len(),
            ips@ == start + six@.take(i as int),
        decreases six.len() - i,
    {
        ips.push(six[i].clone());
        assert(ips@ =~= start + six@.take(i as int + 1));
        i += 1;
    }
    assert(six@.take(six.len() as int) =~= six@);
    if ips.len() == 0 {
        let mut v: Vec<String> = Vec::new();
        v.push(string_of(chars_of("127.0.0.1").as_slice()));
        v
    } else {
        ips
    }
}

} // verus!
