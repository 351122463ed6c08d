//! Host package updates: what `apt-get` prints, and apt source lists.
use vstd::prelude::*;

use crate::text::{
    append_chars, append_str, chars_of, contains, contains_str, dec, ends_with, ends_with_str, find,
    find_vec, join, join_vec, lines, lines_of, rfind, rfind_vec, slice_vec, starts_with,
    starts_with_str, string_of, trim, trim_vec, words, words_of,
};
use crate::text::{is_word, lemma_words_are_words, lemma_words_of_join};
use crate::text::{decode_lossy, utf8_lossy};
use crate::urls::{trim_brackets, trim_brackets_vec};

verus! {

// ---------------------------------------------------------------------------
// Pending upgrades
// ---------------------------------------------------------------------------

/// One package that `apt-get -s dist-upgrade` would install.
pub struct UpdatePackage {
    pub name: String,
    pub version: String,
    pub available: String,
    pub arch: String,
    pub origin: String,
}

pub struct PackageView {
    pub name: Seq<char>,
    pub version: Seq<char>,
    pub available: Seq<char>,
    pub arch: Seq<char>,
    pub origin: Seq<char>,
}

impl View for UpdatePackage {
    type V = PackageView;

    open spec fn view(&self) -> PackageView {
        PackageView {
            name: self.name@,
            version: self.version@,
            available: self.available@,
            arch: self.arch@,
            origin: self.origin@,
        }
    }
}

pub open spec fn package_views(v: Seq<UpdatePackage>) -> Seq<PackageView> {
    Seq::new(v.len(), |i: int| v[i]@)
}

/// The installed version: the trimmed text between the first `[` and the next `]`.
pub open spec fn bracket_version(rest: Seq<char>) -> Seq<char> {
    let s = find(rest, seq!['[']);
    if s < 0 {
        seq![]
    } else {
        let tail = rest.skip(s + 1);
        let e = find(tail, seq![']']);
        if e < 0 {
            seq![]
        } else {
            trim(tail.take(e))
        }
    }
}

/// Available version, origin and architecture, from `(available origin... [arch])`
/// between the first `(` and the last `)`.
pub open spec fn paren_fields(rest: Seq<char>) -> (Seq<char>, Seq<char>, Seq<char>) {
    let s = find(rest, seq!['(']);
    let e = rfind(rest, seq![')']);
    if s >= 0 && e >= 0 && e > s {
        let ws = words(trim(rest.subrange(s + 1, e)));
        let avail = if ws.len() > 0 {
            ws[0]
        } else {
            seq![]
        };
        let ro = if ws.len() > 0 {
            ws.skip(1)
        } else {
            seq![]
        };
        if ro.len() > 0 && starts_with(ro.last(), "["@) && ends_with(ro.last(), "]"@) {
            (avail, join(ro.drop_last(), " "@), trim_brackets(ro.last()))
        } else {
            (avail, join(ro, " "@), seq![])
        }
    } else {
        (seq![], seq![], seq![])
    }
}

/// The package an `Inst name [installed] (available origin [arch])` line names, if it is one.
pub open spec fn inst_line(line: Seq<char>) -> Option<PackageView> {
    let t = trim(line);
    if !starts_with(t, "Inst "@) {
        None
    } else {
        let rest = t.skip(5);
        let ws = words(rest);
        if ws.len() == 0 {
            None
        } else {
            let (available, origin, arch) = paren_fields(rest);
            Some(
                PackageView {
                    name: ws[0],
                    version: bracket_version(rest),
                    available,
                    arch,
                    origin,
                },
            )
        }
    }
}

/// Of an `Inst` line whose parentheses hold words: the available version is the first
/// word; the origin is the words after it and before a final `[arch]` word (all the words
/// after it when there is no such word), joined by single spaces, so that splitting the
/// origin again gives exactly those words; the architecture is the `[arch]` word without
/// its brackets.
pub proof fn lemma_inst_origin(line: Seq<char>)
    ensures
        ({
            let rest = trim(line).skip(5);
            let s = find(rest, seq!['(']);
            let e = rfind(rest, seq![')']);
            let ws = words(trim(rest.subrange(s + 1, e)));
            let p = inst_line(line)->0;
            inst_line(line) is Some && s >= 0 && e > s && ws.len() >= 1 ==> {
                let tagged = ws.len() >= 2 && starts_with(ws.last(), "["@) && ends_with(
                    ws.last(),
                    "]"@,
                );
                let between = if tagged {
                    ws.subrange(1, ws.len() - 1)
                } else {
                    ws.skip(1)
                };
                &&& p.available == ws[0]
                &&& p.origin == join(between, " "@)
                &&& words(p.origin) == between
                &&& p.arch == (if tagged {
                    trim_brackets(ws.last())
                } else {
                    seq![]
                })
            }
        }),
{
    let rest = trim(line).skip(5);
    let s = find(rest, seq!['(']);
    let e = rfind(rest, seq![')']);
    let ws = words(trim(rest.subrange(s + 1, e)));
    if inst_line(line) is Some && s >= 0 && e > s && ws.len() >= 1 {
        lemma_words_are_words(trim(rest.subrange(s + 1, e)));
        let tagged = ws.len() >= 2 && starts_with(ws.last(), "["@) && ends_with(ws.last(), "]"@);
        let ro = ws.skip(1);
        let between = if tagged {
            ws.subrange(1, ws.len() - 1)
        } else {
            ws.skip(1)
        };
        if tagged {
            assert(ro.drop_last() =~= between);
        }
        assert forall|i: int| 0 <= i < between.len() implies is_word(#[trigger] between[i]) by {
            assert(between[i] == ws[i + 1]);
        }
        lemma_words_of_join(between);
    }
}

/// The installed version of an `Inst` line is what its first `[...]` holds, trimmed:
/// for text `pre [v] post` where `pre` has no `[` and `v` no `]`, it is `v` trimmed.
pub proof fn lemma_inst_version(pre: Seq<char>, v: Seq<char>, post: Seq<char>)
    requires
        forall|j: int| 0 <= j < pre.len() ==> pre[j] != '[',
        forall|j: int| 0 <= j < v.len() ==> v[j] != ']',
    ensures
        bracket_version(pre + seq!['['] + v + seq![']'] + post) == trim(v),
{
    let rest = pre + seq!['['] + v + seq![']'] + post;
    crate::text::lemma_find_char(rest, '[');
    let s = find(rest, seq!['[']);
    assert(rest[pre.len() as int] == '[');
    if s < pre.len() {
        assert(rest[s] == pre[s]);
    }
    assert(s == pre.len());
    let tail = rest.skip(s + 1);
    assert(tail =~= v + seq![']'] + post);
    crate::text::lemma_find_char(tail, ']');
    let e = find(tail, seq![']']);
    assert(tail[v.len() as int] == ']');
    if e < v.len() {
        assert(tail[e] == v[e]);
    }
    assert(e == v.len());
    assert(tail.take(e) =~= v);
}

/// The packages of the `Inst` lines, in order.
pub open spec fn inst_packages(ls: Seq<Seq<char>>) -> Seq<PackageView>
    decreases ls.len(),
{
    if ls.len() == 0 {
        seq![]
    } else {
        inst_packages(ls.drop_last()) + match inst_line(ls.last()) {
            Some(p) => seq![p],
            None => seq![],
        }
    }
}

fn bracket_version_vec(rest: &[char]) -> (r: Vec<char>)
    ensures
        r@ == bracket_version(rest@),
{
    let open = vec!['['];
    let close = vec![']'];
    assert(open@ =~= seq!['[']);
    assert(close@ =~= seq![']']);
    let n = rest.len();
    match find_vec(rest, open.as_slice()) {
        None => Vec::new(),
        Some(s) => {
            proof {
                assert(s as int == find(rest@, seq!['[']));
                crate::text::lemma_find_in_range(rest@, seq!['[']);
            }
            let tail = slice_vec(rest, s + 1, n);
            assert(tail@ =~= rest@.skip(s + 1));
            match find_vec(tail.as_slice(), close.as_slice()) {
                None => Vec::new(),
                Some(e) => {
                    proof {
                        crate::text::lemma_find_in_range(tail@, seq![']']);
                    }
                    let inner = slice_vec(tail.as_slice(), 0, e);
                    assert(inner@ =~= tail@.take(e as int));
                    trim_vec(inner.as_slice())
                },
            }
        },
    }
}

fn paren_fields_vec(rest: &[char]) -> (r: (Vec<char>, Vec<char>, Vec<char>))
    ensures
        (r.0@, r.1@, r.2@) == paren_fields(rest@),
{
    let open = vec!['('];
    let close = vec![')'];
    assert(open@ =~= seq!['(']);
    assert(close@ =~= seq![')']);
    let so = find_vec(rest, open.as_slice());
    let eo = rfind_vec(rest, close.as_slice());
    proof {
        crate::text::lemma_find_in_range(rest@, seq!['(']);
        crate::text::lemma_rfind_to(rest@, seq![')'], rest@.len() - 1);
    }
    match (so, eo) {
        (Some(s), Some(e)) => {
            if e > s {
                let inner = slice_vec(rest, s + 1, e);
                let t = trim_vec(inner.as_slice());
                let ws = words_of(t.as_slice());
                let ghost wd = ws.deep_view();
                let avail = if ws.len() > 0 {
                    slice_vec(ws[0].as_slice(), 0, ws[0].len())
                } else {
                    Vec::new()
                };
                proof {
                    if wd.len() > 0 {
                        lemma_deep_char(ws@[0]);
                        assert(avail@ =~= wd[0]);
                    }
                }
                let mut ro: Vec<Vec<char>> = Vec::new();
                let mut i: usize = 1;
                let n = if ws.len() > 0 { ws.len() } else { 1 };
                proof {
                    crate::text::lemma_dv_empty(ro@);
                }
                while i < n
                    invariant
                        1 <= i <= n,
                        n == if ws.len() > 0 { ws.len() } else { 1 },
                        wd == ws.deep_view(),
                        crate::text::dv(ro@) == (if wd.len() > 0 { wd.subrange(1, i as int) } else { Seq::<Seq<char>>::empty() }),
                    decreases n - i,
                {
                    let w = slice_vec(ws[i].as_slice(), 0, ws[i].len());
                    proof {
                        lemma_deep_char(ws@[i as int]);
                        assert(w@ =~= wd[i as int]);
                    }
                    let ghost ro0 = ro@;
                    let ghost wg = w;
                    ro.push(w);
                    proof {
                        crate::text::lemma_dv_push(ro0, wg, ro@);
                        assert(crate::text::dv(ro@) =~= wd.subrange(1, i as int + 1));
                    }
                    i += 1;
                }
                let ghost rd = crate::text::dv(ro@);
                assert(ro.deep_view() =~= rd);
                proof {
                    if wd.len() > 0 {
                        assert(rd =~= wd.skip(1));
                    } else {
                        assert(rd =~= Seq::<Seq<char>>::empty());
                    }
                }
                let sp = vec![' '];
                proof {
                    reveal_strlit(" ");
                    assert(sp@ =~= " "@);
                }
                if ro.len() > 0 {
                    let last = ro.len() - 1;
                    proof {
                        lemma_deep_char(ro@[last as int]);
                        assert(ro@[last as int]@ == rd.last());
                    }
                    if starts_with_str(ro[last].as_slice(), "[") && ends_with_str(
                        ro[last].as_slice(),
                        "]",
                    ) {
                        let arch = trim_brackets_vec(ro[last].as_slice());
                        let _ = ro.pop();
                        proof {
                            assert(ro.deep_view() =~= rd.drop_last());
                        }
                        let origin = join_vec(&ro, sp.as_slice());
                        return (avail, origin, arch);
                    }
                }
                let origin = join_vec(&ro, sp.as_slice());
                (avail, origin, Vec::new())
            } else {
                (Vec::new(), Vec::new(), Vec::new())
            }
        },
        _ => (Vec::new(), Vec::new(), Vec::new()),
    }
}

fn inst_line_vec(line: &[char]) -> (r: Option<UpdatePackage>)
    ensures
        match r {
            Some(p) => inst_line(line@) == Some(p@),
            None => inst_line(line@) is None,
        },
{
    let t = trim_vec(line);
    if !starts_with_str(t.as_slice(), "Inst ") {
        return None;
    }
    proof {
        reveal_strlit("Inst ");
    }
    let rest = slice_vec(t.as_slice(), 5, t.len());
    assert(rest@ =~= t@.skip(5));
    let ws = words_of(rest.as_slice());
    if ws.len() == 0 {
        return None;
    }
    let version = bracket_version_vec(rest.as_slice());
    let (available, origin, arch) = paren_fields_vec(rest.as_slice());
    proof {
        lemma_deep_char(ws@[0]);
    }
    Some(
        UpdatePackage {
            name: string_of(ws[0].as_slice()),
            version: string_of(version.as_slice()),
            available: string_of(available.as_slice()),
            arch: string_of(arch.as_slice()),
            origin: string_of(origin.as_slice()),
        },
    )
}

proof fn lemma_deep_char(v: Vec<char>)
    ensures
        v.deep_view() == v@,
{
    crate::text::lemma_char_vec_dv(v);
}

/// The pending upgrades listed by a simulated `dist-upgrade`: one per `Inst` line, in order.
pub fn parse_inst_lines(text: &str) -> (r: Vec<UpdatePackage>)
    ensures
        package_views(r@) == inst_packages(lines(text@)),
{
    let v = chars_of(text);
    let ls = lines_of(v.as_slice());
    let ghost ld = ls.deep_view();
    let mut out: Vec<UpdatePackage> = Vec::new();
    let mut i: usize = 0;
    while i < ls.len()
        invariant
            i <= ls.len(),
            ld == ls.deep_view(),
            package_views(out@) == inst_packages(ld.take(i as int)),
        decreases ls.len() - i,
    {
        let p = inst_line_vec(ls[i].as_slice());
        proof {
            lemma_deep_char(ls@[i as int]);
            assert(ld.take(i as int + 1).drop_last() =~= ld.take(i as int));
            assert(ld.take(i as int + 1).last() == ld[i as int]);
        }
        match p {
            Some(pk) => {
                out.push(pk);
                assert(package_views(out@) =~= inst_packages(ld.take(i as int + 1)));
            },
            None => {
                assert(inst_packages(ld.take(i as int)) + Seq::<PackageView>::empty() =~= inst_packages(ld.take(i as int)));
            },
        }
        i += 1;
    }
    assert(ld.take(ls.len() as int) =~= ld);
    out
}

/// Whether an apt log shows a failed name lookup.
pub fn apt_dns_failed(log: &str) -> (r: bool)
    ensures
        r == (contains(log@, "Temporary failure resolving"@) || contains(
            log@,
            "Could not resolve '"@,
        ) || contains(log@, "Failed to resolve"@)),
{
    let v = chars_of(log);
    contains_str(v.as_slice(), "Temporary failure resolving") || contains_str(
        v.as_slice(),
        "Could not resolve '",
    ) || contains_str(v.as_slice(), "Failed to resolve")
}

/// Whether `/etc/resolv.conf` must be replaced by public resolvers before apt runs: it
/// points at the local stub resolver, is a link, or names no server.
pub fn resolv_needs_fallback(text: &str, is_symlink: bool) -> (r: bool)
    ensures
        r == (contains(text@, "127.0.0.53"@) || is_symlink || !contains(text@, "nameserver"@)),
{
    let v = chars_of(text);
    contains_str(v.as_slice(), "127.0.0.53") || is_symlink || !contains_str(v.as_slice(), "nameserver")
}

// ---------------------------------------------------------------------------
// apt-get output
// ---------------------------------------------------------------------------

/// Standard output, then standard error on a line of its own.
pub open spec fn combine_log(out: Seq<char>, err: Seq<char>) -> Seq<char> {
    if err.len() == 0 {
        out
    } else if out.len() > 0 && out.last() != '\n' {
        out + seq!['\n'] + err
    } else {
        out + err
    }
}

/// Each carriage return (progress overwrite) made a line break.
pub open spec fn cr_to_lf(s: Seq<char>) -> Seq<char> {
    s.map_values(|c: char| if c == '\r' { '\n' } else { c })
}

/// The trimmed lines that are not blank, in order.
pub open spec fn kept_lines(ls: Seq<Seq<char>>) -> Seq<Seq<char>>
    decreases ls.len(),
{
    if ls.len() == 0 {
        seq![]
    } else {
        kept_lines(ls.drop_last()) + if trim(ls.last()).len() > 0 {
            seq![trim(ls.last())]
        } else {
            seq![]
        }
    }
}

/// An apt log as shown: both streams, one trimmed non-blank line per line.
pub open spec fn tidy_text(out: Seq<char>, err: Seq<char>) -> Seq<char> {
    join(kept_lines(lines(cr_to_lf(combine_log(out, err)))), "\n"@)
}

/// The shown log of decoded standard output and standard error.
pub fn tidy_apt_text(out: &str, err: &str) -> (r: String)
    ensures
        r@ == tidy_text(out@, err@),
{
    let mut raw = chars_of(out);
    let e = chars_of(err);
    if e.len() > 0 {
        if raw.len() > 0 && raw[raw.len() - 1] != '\n' {
            raw.push('\n');
        }
        append_chars(&mut raw, e.as_slice());
    }
    assert(raw@ =~= combine_log(out@, err@));
    let mut lf: Vec<char> = Vec::new();
    let mut i: usize = 0;
    while i < raw.len()
        invariant
            i <= raw.len(),
            lf@ == cr_to_lf(raw@.take(i as int)),
        decreases raw.len() - i,
    {
        let c = raw[i];
        lf.push(if c == '\r' { '\n' } else { c });
        assert(lf@ =~= cr_to_lf(raw@.take(i as int + 1)));
        i += 1;
    }
    assert(raw@.take(raw.len() as int) =~= raw@);
    let ls = lines_of(lf.as_slice());
    let ghost ld = ls.deep_view();
    let mut kept: Vec<Vec<char>> = Vec::new();
    let mut j: usize = 0;
    proof {
        crate::text::lemma_dv_empty(kept@);
    }
    while j < ls.len()
        invariant
            j <= ls.len(),
            ld == ls.deep_view(),
            crate::text::dv(kept@) == kept_lines(ld.take(j as int)),
        decreases ls.len() - j,
    {
        let t = trim_vec(ls[j].as_slice());
        proof {
            lemma_deep_char(ls@[j as int]);
            assert(ld.take(j as int + 1).drop_last() =~= ld.take(j as int));
        }
        if t.len() > 0 {
            let ghost k0 = kept@;
            let ghost tg = t;
            kept.push(t);
            proof {
                crate::text::lemma_dv_push(k0, tg, kept@);
            }
        } else {
            assert(kept_lines(ld.take(j as int)) + Seq::<Seq<char>>::empty() =~= kept_lines(ld.take(j as int)));
        }
        j += 1;
    }
    assert(ld.take(ls.len() as int) =~= ld);
    assert(kept.deep_view() =~= crate::text::dv(kept@));
    let nl = vec!['\n'];
    proof {
        reveal_strlit("\n");
        assert(nl@ =~= "\n"@);
    }
    let joined = join_vec(&kept, nl.as_slice());
    string_of(joined.as_slice())
}

/// The shown log of `apt-get`'s raw standard output and standard error.
pub fn tidy_apt_log(stdout: &[u8], stderr: &[u8]) -> (r: String)
    ensures
        r@ == tidy_text(utf8_lossy(stdout@), utf8_lossy(stderr@)),
{
    let out = decode_lossy(stdout);
    let err = decode_lossy(stderr);
    tidy_apt_text(out.as_str(), err.as_str())
}

pub open spec fn dns_failed(log: Seq<char>) -> bool {
    contains(log, "Temporary failure resolving"@) || contains(log, "Could not resolve '"@)
        || contains(log, "Failed to resolve"@)
}

/// What a finished `apt-get` run amounts to: a timeout (exit status 124), a failed name
/// lookup, a failure (the log, or the exit status when the log is blank), or the log;
/// after `update`, a log that lacks `Finished.` gets it as its last line.
pub open spec fn spec_apt_outcome(
    log: Seq<char>,
    timed_out: bool,
    success: bool,
    status: Seq<char>,
    is_update: bool,
) -> Result<Seq<char>, Seq<char>> {
    if timed_out {
        Err("apt-get timed out after 120s (mirror or DNS too slow)"@)
    } else if dns_failed(log) {
        Err(
            "No DNS: cannot reach deb.debian.org. Plug the LAN in, wait for DHCP, then Refresh again."@,
        )
    } else if !success {
        Err(
            if trim(log).len() == 0 {
                "apt-get failed ("@ + status + ")"@
            } else {
                log
            },
        )
    } else if is_update && !contains(log, "Finished."@) {
        Ok(
            if log.len() > 0 && log.last() != '\n' {
                log + "\n"@ + "Finished.\n"@
            } else {
                log + "Finished.\n"@
            },
        )
    } else {
        Ok(log)
    }
}

pub open spec fn res_view(r: Result<String, String>) -> Result<Seq<char>, Seq<char>> {
    match r {
        Ok(s) => Ok(s@),
        Err(e) => Err(e@),
    }
}

/// Bytes of a character in UTF-8.
pub open spec fn utf8_len(c: char) -> nat {
    if (c as u32) < 0x80 {
        1
    } else if (c as u32) < 0x800 {
        2
    } else if (c as u32) < 0x10000 {
        3
    } else {
        4
    }
}

/// Bytes of a text in UTF-8 (what `str::len` counts).
pub open spec fn byte_len(s: Seq<char>) -> nat
    decreases s.len(),
{
    if s.len() == 0 {
        0
    } else {
        utf8_len(s[0]) + byte_len(s.drop_first())
    }
}

/// The longest log shown: 64 KiB.
pub const LOG_KEEP: u64 = 65536;

/// A log can be cut to its last 64 KiB at a character boundary (or needs no cut).
pub open spec fn log_cut_ok(s: Seq<char>) -> bool {
    byte_len(s) <= LOG_KEEP || exists|j: int| 0 <= j <= s.len() && #[trigger] byte_len(s.skip(j)) == LOG_KEEP
}

/// A log longer than 64 KiB keeps its last 64 KiB after a `…` line.
pub open spec fn spec_cap_log(s: Seq<char>) -> Seq<char> {
    if byte_len(s) <= LOG_KEEP {
        s
    } else {
        "…\n"@ + s.skip(choose|j: int| 0 <= j <= s.len() && byte_len(s.skip(j)) == LOG_KEEP)
    }
}

pub proof fn lemma_byte_len_skip(s: Seq<char>, j: int)
    requires
        0 <= j < s.len(),
    ensures
        byte_len(s.skip(j)) == utf8_len(s[j]) + byte_len(s.skip(j + 1)),
{
    assert(s.skip(j).drop_first() =~= s.skip(j + 1));
}

proof fn lemma_byte_len_mono(s: Seq<char>, j: int, k: int)
    requires
        0 <= j <= k <= s.len(),
    ensures
        byte_len(s.skip(k)) + (k - j) <= byte_len(s.skip(j)),
    decreases k - j,
{
    if j < k {
        lemma_byte_len_skip(s, j);
        lemma_byte_len_mono(s, j + 1, k);
    }
}

pub(crate) fn utf8_len_exec(c: char) -> (r: u64)
    ensures
        r == utf8_len(c),
{
    let n = c as u32;
    if n < 0x80 {
        1
    } else if n < 0x800 {
        2
    } else if n < 0x10000 {
        3
    } else {
        4
    }
}

/// Whether a text takes at least `n` bytes in UTF-8 (what `str::len` counts).
pub fn byte_len_at_least(s: &str, n: u64) -> (r: bool)
    requires
        n <= u64::MAX - 4,
    ensures
        r == (byte_len(s@) >= n),
{
    let v = chars_of(s);
    let mut acc: u64 = 0;
    let mut j: usize = 0;
    assert(v@.skip(0) =~= v@);
    while j < v.len() && acc < n
        invariant
            j <= v@.len(),
            v@ == s@,
            n <= u64::MAX - 4,
            acc <= n + 3,
            acc + byte_len(v@.skip(j as int)) == byte_len(s@),
        decreases v@.len() - j,
    {
        proof {
            lemma_byte_len_skip(v@, j as int);
        }
        acc = acc + utf8_len_exec(v[j]);
        j += 1;
    }
    if acc >= n {
        return true;
    }
    assert(v@.skip(j as int) =~= Seq::<char>::empty());
    false
}

/// Where the last 64 KiB of `v` start: `(j, bytes)` with `bytes` the UTF-8 length of
/// `v[j..]`, walking back from the end until 64 KiB are reached or the start.
fn tail_start(v: &[char]) -> (r: (usize, u64))
    ensures
        r.0 <= v@.len(),
        r.1 == byte_len(v@.skip(r.0 as int)),
        r.1 < LOG_KEEP ==> r.0 == 0,
        r.1 <= LOG_KEEP + 3,
        forall|k: int| r.0 < k <= v@.len() ==> byte_len(#[trigger] v@.skip(k)) < LOG_KEEP,
{
    let mut j: usize = v.len();
    let mut acc: u64 = 0;
    assert(v@.skip(j as int) =~= Seq::<char>::empty());
    while j > 0 && acc < LOG_KEEP
        invariant
            j <= v@.len(),
            acc == byte_len(v@.skip(j as int)),
            acc <= LOG_KEEP + 3,
            forall|k: int| j < k <= v@.len() ==> byte_len(#[trigger] v@.skip(k)) < LOG_KEEP,
        decreases j,
    {
        proof {
            lemma_byte_len_skip(v@, j as int - 1);
        }
        acc = acc + utf8_len_exec(v[j - 1]);
        j -= 1;
    }
    (j, acc)
}

proof fn lemma_cut_unique(s: Seq<char>, j: int, acc: nat)
    requires
        0 <= j <= s.len(),
        acc == byte_len(s.skip(j)),
        acc > LOG_KEEP,
        forall|k: int| j < k <= s.len() ==> byte_len(#[trigger] s.skip(k)) < LOG_KEEP,
    ensures
        forall|k: int| 0 <= k <= s.len() ==> byte_len(#[trigger] s.skip(k)) != LOG_KEEP,
{
    assert forall|k: int| 0 <= k <= s.len() implies byte_len(#[trigger] s.skip(k)) != LOG_KEEP by {
        if k <= j {
            lemma_byte_len_mono(s, k, j);
        }
    }
}

/// Whether `cap_log` can cut `log` (the cut of the last 64 KiB falls between characters).
pub fn log_cut_fits(log: &str) -> (r: bool)
    ensures
        r == log_cut_ok(log@),
{
    let v = chars_of(log);
    let (j, acc) = tail_start(v.as_slice());
    proof {
        assert(v@.skip(0) =~= v@);
    }
    if acc < LOG_KEEP {
        return true;
    }
    if acc == LOG_KEEP {
        proof {
            if j > 0 {
                lemma_byte_len_mono(v@, 0, j as int);
            }
            assert(byte_len(v@.skip(j as int)) == LOG_KEEP);
            assert(v@.skip(0) =~= v@);
        }
        return true;
    }
    proof {
        lemma_cut_unique(v@, j as int, acc as nat);
        lemma_byte_len_mono(v@, 0, j as int);
        assert(v@.skip(0) =~= v@);
    }
    false
}

/// The log as shown: a log of more than 64 KiB keeps only its last 64 KiB, after `…`.
pub fn cap_log(log: String) -> (r: String)
    requires
        log_cut_ok(log@),
    ensures
        r@ == spec_cap_log(log@),
{
    let v = chars_of(log.as_str());
    let (j, acc) = tail_start(v.as_slice());
    proof {
        assert(v@.skip(0) =~= v@);
    }
    if acc < LOG_KEEP {
        return log;
    }
    if j == 0 {
        return log;
    }
    proof {
        lemma_byte_len_mono(v@, 0, j as int);
        if acc > LOG_KEEP {
            lemma_cut_unique(v@, j as int, acc as nat);
        }
        assert(acc == LOG_KEEP);
        let c = choose|k: int| 0 <= k <= v@.len() && byte_len(v@.skip(k)) == LOG_KEEP;
        if c < j {
            lemma_byte_len_skip(v@, c);
            lemma_byte_len_mono(v@, c + 1, j as int);
        }
        assert(c == j as int);
    }
    let mut m = chars_of("…\n");
    let tail = crate::text::slice_vec(v.as_slice(), j, v.len());
    assert(tail@ =~= v@.skip(j as int));
    append_chars(&mut m, tail.as_slice());
    string_of(m.as_slice())
}

/// The outcome of an `apt-get` run from its raw output: the shown log (both streams
/// tidied, cut to its last 64 KiB) judged by `apt_outcome`. None when the 64 KiB cut would
/// fall inside a character (where slicing the log panics).
pub fn apt_run_outcome(
    stdout: &[u8],
    stderr: &[u8],
    timed_out: bool,
    success: bool,
    status: &str,
    is_update: bool,
) -> (r: Option<Result<String, String>>)
    ensures
        ({
            let log = tidy_text(utf8_lossy(stdout@), utf8_lossy(stderr@));
            if log_cut_ok(log) {
                r matches Some(o) && res_view(o) == spec_apt_outcome(
                    spec_cap_log(log),
                    timed_out,
                    success,
                    status@,
                    is_update,
                )
            } else {
                r is None
            }
        }),
{
    let log = tidy_apt_log(stdout, stderr);
    if !log_cut_fits(log.as_str()) {
        return None;
    }
    Some(apt_outcome(cap_log(log), timed_out, success, status, is_update))
}

fn err_of(s: &str) -> (r: Result<String, String>)
    ensures
        res_view(r) == Err::<Seq<char>, Seq<char>>(s@),
{
    Err(string_of(chars_of(s).as_slice()))
}

/// The result of an `apt-get` run from its shown log, whether it timed out, whether it
/// succeeded, how its exit status reads, and whether it was `update`.
pub fn apt_outcome(log: String, timed_out: bool, success: bool, status: &str, is_update: bool) -> (r:
    Result<String, String>)
    ensures
        res_view(r) == spec_apt_outcome(log@, timed_out, success, status@, is_update),
{
    if timed_out {
        return err_of("apt-get timed out after 120s (mirror or DNS too slow)");
    }
    if apt_dns_failed(log.as_str()) {
        return err_of(
            "No DNS: cannot reach deb.debian.org. Plug the LAN in, wait for DHCP, then Refresh again.",
        );
    }
    let v = chars_of(log.as_str());
    if !success {
        let t = trim_vec(v.as_slice());
        if t.len() == 0 {
            let mut m = chars_of("apt-get failed (");
            append_str(&mut m, status);
            append_str(&mut m, ")");
            return Err(string_of(m.as_slice()));
        }
        return Err(log);
    }
    if is_update && !contains_str(v.as_slice(), "Finished.") {
        let mut m = v;
        if m.len() > 0 && m[m.len() - 1] != '\n' {
            append_str(&mut m, "\n");
        }
        append_str(&mut m, "Finished.\n");
        proof {
            reveal_strlit("\n");
        }
        return Ok(string_of(m.as_slice()));
    }
    Ok(log)
}

// ---------------------------------------------------------------------------
// Source lists
// ---------------------------------------------------------------------------

/// One apt source entry. Its id is `<file>:<n>`: the line number in a one-line-style
/// list, the stanza number in a deb822 `.sources` file.
pub struct AptRepository {
    pub id: String,
    pub enabled: bool,
    pub file: String,
    pub types: String,
    pub uri: String,
    pub suite: String,
    pub components: String,
}

pub struct RepoView {
    pub id: Seq<char>,
    pub enabled: bool,
    pub file: Seq<char>,
    pub types: Seq<char>,
    pub uri: Seq<char>,
    pub suite: Seq<char>,
    pub components: Seq<char>,
}

impl View for AptRepository {
    type V = RepoView;

    open spec fn view(&self) -> RepoView {
        RepoView {
            id: self.id@,
            enabled: self.enabled,
            file: self.file@,
            types: self.types@,
            uri: self.uri@,
            suite: self.suite@,
            components: self.components@,
        }
    }
}

pub open spec fn repo_views(v: Seq<AptRepository>) -> Seq<RepoView> {
    Seq::new(v.len(), |i: int| v[i]@)
}

pub open spec fn entry_id(file: Seq<char>, i: nat) -> Seq<char> {
    file + ":"@ + dec(i)
}

pub open spec fn opt_seq<T>(o: Option<T>) -> Seq<T> {
    match o {
        Some(x) => seq![x],
        None => seq![],
    }
}

/// `deb [options] URI SUITE COMPONENTS...` (or `deb-src ...`): type, URI, suite and
/// the components joined by single spaces.
pub open spec fn deb_line(line: Seq<char>) -> Option<(Seq<char>, Seq<char>, Seq<char>, Seq<char>)> {
    let t = trim(line);
    if !starts_with(t, "deb"@) {
        None
    } else {
        let src = starts_with(t, "deb-src"@);
        let types = if src {
            "deb-src"@
        } else {
            "deb"@
        };
        let r0 = if src {
            trim(t.skip(7))
        } else {
            trim(t.skip(3))
        };
        let e = find(r0, "]"@);
        if starts_with(r0, "["@) && e < 0 {
            None
        } else {
            let r1 = if starts_with(r0, "["@) {
                trim(r0.skip(e + 1))
            } else {
                r0
            };
            let ws = words(r1);
            if ws.len() < 2 {
                None
            } else {
                Some((types, ws[0], ws[1], join(ws.skip(2), " "@)))
            }
        }
    }
}

/// Whether a one-line-style list line is an entry, and if so whether it is enabled
/// (not commented out) and its text.
pub open spec fn list_entry(raw: Seq<char>) -> Option<(bool, Seq<char>)> {
    let t = trim(raw);
    if t.len() == 0 {
        None
    } else if t[0] == '#' {
        let r = trim(t.skip(1));
        if starts_with(r, "deb"@) {
            Some((false, r))
        } else {
            None
        }
    } else {
        Some((true, t))
    }
}

pub open spec fn list_repo(file: Seq<char>, i: nat, raw: Seq<char>) -> Option<RepoView> {
    match list_entry(raw) {
        None => None,
        Some((enabled, body)) => match deb_line(body) {
            None => None,
            Some((types, uri, suite, components)) => Some(
                RepoView { id: entry_id(file, i), enabled, file, types, uri, suite, components },
            ),
        },
    }
}

/// The entries of a one-line-style list, in line order.
pub open spec fn list_repos_of(file: Seq<char>, ls: Seq<Seq<char>>) -> Seq<RepoView>
    decreases ls.len(),
{
    if ls.len() == 0 {
        seq![]
    } else {
        list_repos_of(file, ls.drop_last()) + opt_seq(
            list_repo(file, (ls.len() - 1) as nat, ls.last()),
        )
    }
}

fn copy_vec(v: &[char]) -> (r: Vec<char>)
    ensures
        r@ == v@,
{
    slice_vec(v, 0, v.len())
}

fn string_eq_str(a: &String, b: &str) -> (r: bool)
    ensures
        r == (a@ == b@),
{
    let av = chars_of(a.as_str());
    crate::text::eq_str(av.as_slice(), b)
}

/// A one-line-style `deb` line, parsed.
pub fn parse_deb_line(line: &str) -> (r: Option<(String, String, String, String)>)
    ensures
        match r {
            Some(x) => deb_line(line@) == Some((x.0@, x.1@, x.2@, x.3@)),
            None => deb_line(line@) is None,
        },
{
    proof {
        reveal_strlit("deb");
        reveal_strlit("deb-src");
        reveal_strlit("[");
        reveal_strlit("]");
        reveal_strlit(" ");
    }
    let v = chars_of(line);
    let t = trim_vec(v.as_slice());
    if !starts_with_str(t.as_slice(), "deb") {
        return None;
    }
    let src = starts_with_str(t.as_slice(), "deb-src");
    let types = if src {
        "deb-src"
    } else {
        "deb"
    };
    let r0 = if src {
        let x = slice_vec(t.as_slice(), 7, t.len());
        assert(x@ =~= t@.skip(7));
        trim_vec(x.as_slice())
    } else {
        let x = slice_vec(t.as_slice(), 3, t.len());
        assert(x@ =~= t@.skip(3));
        trim_vec(x.as_slice())
    };
    let close = vec![']'];
    assert(close@ =~= "]"@);
    let e = find_vec(r0.as_slice(), close.as_slice());
    let bracket = starts_with_str(r0.as_slice(), "[");
    let r1 = if bracket {
        match e {
            None => {
                return None;
            },
            Some(k) => {
                let n0 = r0.len();
                proof {
                    assert(k as int == find(r0@, "]"@));
                    crate::text::lemma_find_in_range(r0@, "]"@);
                }
                let x = slice_vec(r0.as_slice(), k + 1, n0);
                assert(x@ =~= r0@.skip(k + 1));
                trim_vec(x.as_slice())
            },
        }
    } else {
        r0
    };
    let ws = words_of(r1.as_slice());
    if ws.len() < 2 {
        return None;
    }
    let ghost wd = ws.deep_view();
    let mut rest: Vec<Vec<char>> = Vec::new();
    let mut i: usize = 2;
    proof {
        crate::text::lemma_dv_empty(rest@);
    }
    while i < ws.len()
        invariant
            2 <= i <= ws.len(),
            wd == ws.deep_view(),
            crate::text::dv(rest@) == wd.subrange(2, i as int),
        decreases ws.len() - i,
    {
        let w = copy_vec(ws[i].as_slice());
        proof {
            lemma_deep_char(ws@[i as int]);
        }
        let ghost r0s = rest@;
        let ghost wg = w;
        rest.push(w);
        proof {
            crate::text::lemma_dv_push(r0s, wg, rest@);
            assert(crate::text::dv(rest@) =~= wd.subrange(2, i as int + 1));
        }
        i += 1;
    }
    assert(rest.deep_view() =~= wd.skip(2));
    let sp = vec![' '];
    assert(sp@ =~= " "@);
    let comps = join_vec(&rest, sp.as_slice());
    proof {
        lemma_deep_char(ws@[0]);
        lemma_deep_char(ws@[1]);
    }
    Some(
        (
            string_of(chars_of(types).as_slice()),
            string_of(ws[0].as_slice()),
            string_of(ws[1].as_slice()),
            string_of(comps.as_slice()),
        ),
    )
}

fn entry_id_string(file: &str, i: usize) -> (r: String)
    ensures
        r@ == entry_id(file@, i as nat),
{
    let mut v = chars_of(file);
    append_str(&mut v, ":");
    let d = crate::text::dec_vec(i as u64);
    append_chars(&mut v, d.as_slice());
    string_of(v.as_slice())
}

fn list_entry_vec(raw: &[char]) -> (r: Option<(bool, Vec<char>)>)
    ensures
        match r {
            Some(x) => list_entry(raw@) == Some((x.0, x.1@)),
            None => list_entry(raw@) is None,
        },
{
    let t = trim_vec(raw);
    if t.len() == 0 {
        None
    } else if t[0] == '#' {
        let x = slice_vec(t.as_slice(), 1, t.len());
        assert(x@ =~= t@.skip(1));
        let r = trim_vec(x.as_slice());
        if starts_with_str(r.as_slice(), "deb") {
            Some((false, r))
        } else {
            None
        }
    } else {
        Some((true, t))
    }
}

/// The entries of a one-line-style list file named `file`, in line order.
pub fn parse_list_text(file: &str, text: &str) -> (r: Vec<AptRepository>)
    ensures
        repo_views(r@) == list_repos_of(file@, lines(text@)),
{
    let v = chars_of(text);
    let ls = lines_of(v.as_slice());
    let ghost ld = ls.deep_view();
    let mut out: Vec<AptRepository> = Vec::new();
    let mut i: usize = 0;
    while i < ls.len()
        invariant
            i <= ls.len(),
            ld == ls.deep_view(),
            repo_views(out@) == list_repos_of(file@, ld.take(i as int)),
        decreases ls.len() - i,
    {
        proof {
            lemma_deep_char(ls@[i as int]);
            assert(ld.take(i as int + 1).drop_last() =~= ld.take(i as int));
        }
        let ghost before = repo_views(out@);
        match list_entry_vec(ls[i].as_slice()) {
            None => {
                assert(before + Seq::<RepoView>::empty() =~= before);
            },
            Some((enabled, body)) => {
                let body_s = string_of(body.as_slice());
                match parse_deb_line(body_s.as_str()) {
                    None => {
                        assert(before + Seq::<RepoView>::empty() =~= before);
                    },
                    Some((types, uri, suite, components)) => {
                        out.push(
                            AptRepository {
                                id: entry_id_string(file, i),
                                enabled,
                                file: string_of(chars_of(file).as_slice()),
                                types,
                                uri,
                                suite,
                                components,
                            },
                        );
                        assert(repo_views(out@) =~= before.push(out@.last()@));
                    },
                }
            },
        }
        i += 1;
    }
    assert(ld.take(ls.len() as int) =~= ld);
    out
}

// ---------------------------------------------------------------------------
// deb822 `.sources` files
// ---------------------------------------------------------------------------

/// The text of the current stanza, if it is not blank.
pub open spec fn flush(cur: Seq<Seq<char>>) -> Seq<Seq<char>> {
    if trim(join(cur, "\n"@)).len() > 0 {
        seq![join(cur, "\n"@)]
    } else {
        seq![]
    }
}

/// Stanzas: runs of non-blank lines, each run joined by newlines.
pub open spec fn stanzas_from(ls: Seq<Seq<char>>, cur: Seq<Seq<char>>) -> Seq<Seq<char>>
    decreases ls.len(),
{
    if ls.len() == 0 {
        flush(cur)
    } else if trim(ls[0]).len() == 0 {
        flush(cur) + stanzas_from(ls.drop_first(), seq![])
    } else {
        stanzas_from(ls.drop_first(), cur.push(ls[0]))
    }
}

pub open spec fn split_stanzas_of(text: Seq<char>) -> Seq<Seq<char>> {
    stanzas_from(lines(text), seq![])
}

pub open spec fn strings_view(v: Seq<String>) -> Seq<Seq<char>> {
    Seq::new(v.len(), |i: int| v[i]@)
}

/// The stanzas of a deb822 file.
pub fn split_stanzas(text: &str) -> (r: Vec<String>)
    ensures
        strings_view(r@) == split_stanzas_of(text@),
{
    let v = chars_of(text);
    let ls = lines_of(v.as_slice());
    let ghost ld = ls.deep_view();
    let mut out: Vec<String> = Vec::new();
    let mut cur: Vec<char> = Vec::new();
    let mut has: bool = false;
    let ghost mut curl: Seq<Seq<char>> = seq![];
    let mut i: usize = 0;
    proof {
        assert(ld.skip(0) =~= ld);
        assert(strings_view(out@) + stanzas_from(ld.skip(0), curl) =~= split_stanzas_of(text@));
    }
    while i < ls.len()
        invariant
            i <= ls.len(),
            ld == ls.deep_view(),
            cur@ == join(curl, "\n"@),
            has == (curl.len() > 0),
            split_stanzas_of(text@) == strings_view(out@) + stanzas_from(ld.skip(i as int), curl),
        decreases ls.len() - i,
    {
        proof {
            lemma_deep_char(ls@[i as int]);
            assert(ld.skip(i as int)[0] == ld[i as int]);
            assert(ld.skip(i as int).drop_first() =~= ld.skip(i as int + 1));
        }
        let t = trim_vec(ls[i].as_slice());
        if t.len() == 0 {
            let ct = trim_vec(cur.as_slice());
            let ghost before = strings_view(out@);
            if ct.len() > 0 {
                let c = string_of(cur.as_slice());
                out.push(c);
                assert(strings_view(out@) =~= before + flush(curl));
            } else {
                assert(strings_view(out@) =~= before + flush(curl));
            }
            cur = Vec::new();
            has = false;
            proof {
                curl = seq![];
                assert(cur@ =~= join(curl, "\n"@));
            }
        } else {
            if has {
                cur.push('\n');
            }
            append_chars(&mut cur, ls[i].as_slice());
            proof {
                let nl = curl.push(ld[i as int]);
                if curl.len() > 0 {
                    assert(nl.drop_last() =~= curl);
                    assert(join(nl, "\n"@) == join(curl, "\n"@) + "\n"@ + ld[i as int]);
                    reveal_strlit("\n");
                    assert(cur@ =~= join(nl, "\n"@));
                } else {
                    assert(nl.len() == 1);
                    assert(cur@ =~= join(nl, "\n"@));
                }
                curl = nl;
            }
            has = true;
        }
        i += 1;
    }
    let ct = trim_vec(cur.as_slice());
    let ghost before = strings_view(out@);
    proof {
        assert(ld.skip(ls.len() as int).len() == 0);
    }
    if ct.len() > 0 {
        out.push(string_of(cur.as_slice()));
        assert(strings_view(out@) =~= before + flush(curl));
    } else {
        assert(strings_view(out@) =~= before + flush(curl));
    }
    out
}

pub type Fields = Seq<(Seq<char>, Seq<char>)>;

/// First index at or after `i` whose key is `k`, or -1.
pub open spec fn key_index_from(f: Fields, k: Seq<char>, i: int) -> int
    decreases f.len() - i,
{
    if i < 0 || i >= f.len() {
        -1
    } else if f[i].0 == k {
        i
    } else {
        key_index_from(f, k, i + 1)
    }
}

/// Set `k` to `v`: in place when present, else appended.
pub open spec fn upsert_field(f: Fields, k: Seq<char>, v: Seq<char>) -> Fields {
    let i = key_index_from(f, k, 0);
    if i >= 0 {
        f.update(i, (k, v))
    } else {
        f.push((k, v))
    }
}

pub open spec fn get_field(f: Fields, k: Seq<char>) -> Option<Seq<char>> {
    let i = key_index_from(f, k, 0);
    if i >= 0 {
        Some(f[i].1)
    } else {
        None
    }
}

pub struct FieldState {
    pub fields: Fields,
    pub key: Seq<char>,
    pub val: Seq<char>,
}

/// One line of a stanza: a continuation (leading space) extends the current value; any
/// other line closes the current field and, with a `:`, opens the next.
pub open spec fn field_step(st: FieldState, line: Seq<char>) -> FieldState {
    if line.len() > 0 && line[0] == ' ' && st.key.len() > 0 {
        FieldState {
            val: if st.val.len() == 0 {
                trim(line.skip(1))
            } else {
                st.val + " "@ + trim(line.skip(1))
            },
            ..st
        }
    } else {
        let closed = if st.key.len() > 0 {
            FieldState { fields: upsert_field(st.fields, st.key, st.val), key: seq![], val: seq![] }
        } else {
            st
        };
        let c = find(line, ":"@);
        if c >= 0 {
            FieldState { fields: closed.fields, key: trim(line.take(c)), val: trim(line.skip(c + 1)) }
        } else {
            closed
        }
    }
}

pub open spec fn fields_fold(ls: Seq<Seq<char>>) -> FieldState
    decreases ls.len(),
{
    if ls.len() == 0 {
        FieldState { fields: seq![], key: seq![], val: seq![] }
    } else {
        field_step(fields_fold(ls.drop_last()), ls.last())
    }
}

/// The fields of a deb822 stanza, one per key, in order of first appearance;
/// a repeated key keeps its last value.
pub open spec fn fields_of(stanza: Seq<char>) -> Fields {
    let st = fields_fold(lines(stanza));
    if st.key.len() > 0 {
        upsert_field(st.fields, st.key, st.val)
    } else {
        st.fields
    }
}

pub open spec fn pairs_view(v: Seq<(String, String)>) -> Fields {
    Seq::new(v.len(), |i: int| (v[i].0@, v[i].1@))
}

fn key_index(f: &Vec<(String, String)>, k: &[char]) -> (r: Option<usize>)
    ensures
        match r {
            Some(i) => i as int == key_index_from(pairs_view(f@), k@, 0) && i < f.len(),
            None => key_index_from(pairs_view(f@), k@, 0) == -1,
        },
{
    let mut i: usize = 0;
    while i < f.len()
        invariant
            i <= f.len(),
            key_index_from(pairs_view(f@), k@, 0) == key_index_from(pairs_view(f@), k@, i as int),
        decreases f.len() - i,
    {
        let kv = chars_of(f[i].0.as_str());
        if crate::text::chars_eq(kv.as_slice(), k) {
            return Some(i);
        }
        i += 1;
    }
    None
}

fn upsert(f: &mut Vec<(String, String)>, k: Vec<char>, v: Vec<char>)
    ensures
        pairs_view(final(f)@) == upsert_field(pairs_view(old(f)@), k@, v@),
{
    let ks = string_of(k.as_slice());
    let vs = string_of(v.as_slice());
    match key_index(f, k.as_slice()) {
        Some(i) => {
            f.set(i, (ks, vs));
            assert(pairs_view(f@) =~= upsert_field(pairs_view(old(f)@), k@, v@));
        },
        None => {
            f.push((ks, vs));
            assert(pairs_view(f@) =~= upsert_field(pairs_view(old(f)@), k@, v@));
        },
    }
}

/// The fields of a deb822 stanza.
pub fn parse_deb822_fields(stanza: &str) -> (r: Vec<(String, String)>)
    ensures
        pairs_view(r@) == fields_of(stanza@),
{
    proof {
        reveal_strlit(" ");
        reveal_strlit(":");
    }
    let sv = chars_of(stanza);
    let ls = lines_of(sv.as_slice());
    let ghost ld = ls.deep_view();
    let mut fields: Vec<(String, String)> = Vec::new();
    let mut key: Vec<char> = Vec::new();
    let mut val: Vec<char> = Vec::new();
    let colon = vec![':'];
    assert(colon@ =~= ":"@);
    let mut i: usize = 0;
    proof {
        assert(pairs_view(fields@) =~= Seq::<(Seq<char>, Seq<char>)>::empty());
        assert(ld.take(0) =~= Seq::<Seq<char>>::empty());
    }
    while i < ls.len()
        invariant
            i <= ls.len(),
            ld == ls.deep_view(),
            colon@ == ":"@,
            fields_fold(ld.take(i as int)) == (FieldState {
                fields: pairs_view(fields@),
                key: key@,
                val: val@,
            }),
        decreases ls.len() - i,
    {
        proof {
            lemma_deep_char(ls@[i as int]);
            assert(ld.take(i as int + 1).drop_last() =~= ld.take(i as int));
        }
        proof {
            reveal_strlit(" ");
            reveal_strlit(":");
        }
        let line = &ls[i];
        let n = line.len();
        let ghost st0 = FieldState { fields: pairs_view(fields@), key: key@, val: val@ };
        if n > 0 && line[0] == ' ' && key.len() > 0 {
            let x = slice_vec(line.as_slice(), 1, n);
            assert(x@ =~= line@.skip(1));
            let t = trim_vec(x.as_slice());
            if val.len() > 0 {
                val.push(' ');
            }
            append_chars(&mut val, t.as_slice());
            assert(val@ =~= field_step(st0, ld[i as int]).val);
        } else {
            if key.len() > 0 {
                upsert(&mut fields, key, val);
                key = Vec::new();
                val = Vec::new();
            }
            match find_vec(line.as_slice(), colon.as_slice()) {
                Some(c) => {
                    proof {
                        assert(c as int == find(line@, ":"@));
                        crate::text::lemma_find_in_range(line@, ":"@);
                    }
                    let kpart = slice_vec(line.as_slice(), 0, c);
                    let vpart = slice_vec(line.as_slice(), c + 1, n);
                    assert(kpart@ =~= line@.take(c as int));
                    assert(vpart@ =~= line@.skip(c + 1));
                    key = trim_vec(kpart.as_slice());
                    val = trim_vec(vpart.as_slice());
                },
                None => {},
            }
        }
        assert(fields_fold(ld.take(i as int + 1)) == field_step(st0, ld[i as int]));
        i += 1;
    }
    assert(ld.take(ls.len() as int) =~= ld);
    if key.len() > 0 {
        upsert(&mut fields, key, val);
    }
    fields
}

pub open spec fn get_or_empty(f: Fields, k: Seq<char>) -> Seq<char> {
    match get_field(f, k) {
        Some(v) => v,
        None => seq![],
    }
}

/// The entry a deb822 stanza describes, when its `Types` name `deb` or `deb-src`;
/// it is disabled only by `Enabled: no` or `Enabled: false` in any letter case.
pub open spec fn deb822_repo(file: Seq<char>, i: nat, stanza: Seq<char>) -> Option<RepoView> {
    let f = fields_of(stanza);
    let tw = words(get_or_empty(f, "Types"@));
    if !(tw.contains("deb"@) || tw.contains("deb-src"@)) {
        None
    } else {
        Some(
            RepoView {
                id: entry_id(file, i),
                enabled: match get_field(f, "Enabled"@) {
                    Some(v) => !(crate::text::lower_seq(v) == "no"@ || crate::text::lower_seq(v)
                        == "false"@),
                    None => true,
                },
                file,
                types: if tw.contains("deb"@) {
                    "deb"@
                } else {
                    "deb-src"@
                },
                uri: get_or_empty(f, "URIs"@),
                suite: get_or_empty(f, "Suites"@),
                components: get_or_empty(f, "Components"@),
            },
        )
    }
}

pub open spec fn deb822_repos_of(file: Seq<char>, st: Seq<Seq<char>>) -> Seq<RepoView>
    decreases st.len(),
{
    if st.len() == 0 {
        seq![]
    } else {
        deb822_repos_of(file, st.drop_last()) + opt_seq(
            deb822_repo(file, (st.len() - 1) as nat, st.last()),
        )
    }
}

fn field_or_empty(f: &Vec<(String, String)>, k: &str) -> (r: Vec<char>)
    ensures
        r@ == get_or_empty(pairs_view(f@), k@),
{
    let kv = chars_of(k);
    match key_index(f, kv.as_slice()) {
        Some(i) => chars_of(f[i].1.as_str()),
        None => Vec::new(),
    }
}

fn has_word(ws: &Vec<Vec<char>>, w: &str) -> (r: bool)
    ensures
        r == ws.deep_view().contains(w@),
{
    let mut i: usize = 0;
    while i < ws.len()
        invariant
            i <= ws.len(),
            forall|j: int| 0 <= j < i ==> ws.deep_view()[j] != w@,
        decreases ws.len() - i,
    {
        proof {
            lemma_deep_char(ws@[i as int]);
        }
        if crate::text::eq_str(ws[i].as_slice(), w) {
            assert(ws.deep_view()[i as int] == w@);
            return true;
        }
        i += 1;
    }
    false
}

fn deb822_repo_vec(file: &str, i: usize, stanza: &str) -> (r: Option<AptRepository>)
    ensures
        match r {
            Some(x) => deb822_repo(file@, i as nat, stanza@) == Some(x@),
            None => deb822_repo(file@, i as nat, stanza@) is None,
        },
{
    proof {
        reveal_strlit("deb");
        reveal_strlit("deb-src");
    }
    let f = parse_deb822_fields(stanza);
    let types = field_or_empty(&f, "Types");
    let tw = words_of(types.as_slice());
    let has_deb = has_word(&tw, "deb");
    let has_src = has_word(&tw, "deb-src");
    if !(has_deb || has_src) {
        return None;
    }
    let ek = chars_of("Enabled");
    let enabled = match key_index(&f, ek.as_slice()) {
        Some(j) => {
            let lv = crate::text::lower_vec(chars_of(f[j].1.as_str()).as_slice());
            !(crate::text::eq_str(lv.as_slice(), "no") || crate::text::eq_str(
                lv.as_slice(),
                "false",
            ))
        },
        None => true,
    };
    let kind = if has_deb {
        "deb"
    } else {
        "deb-src"
    };
    Some(
        AptRepository {
            id: entry_id_string(file, i),
            enabled,
            file: string_of(chars_of(file).as_slice()),
            types: string_of(chars_of(kind).as_slice()),
            uri: string_of(field_or_empty(&f, "URIs").as_slice()),
            suite: string_of(field_or_empty(&f, "Suites").as_slice()),
            components: string_of(field_or_empty(&f, "Components").as_slice()),
        },
    )
}

/// The entries of a deb822 file named `file`, in stanza order.
pub fn parse_deb822_text(file: &str, text: &str) -> (r: Vec<AptRepository>)
    ensures
        repo_views(r@) == deb822_repos_of(file@, split_stanzas_of(text@)),
{
    let st = split_stanzas(text);
    let ghost sd = strings_view(st@);
    let mut out: Vec<AptRepository> = Vec::new();
    let mut i: usize = 0;
    while i < st.len()
        invariant
            i <= st.len(),
            sd == strings_view(st@),
            repo_views(out@) == deb822_repos_of(file@, sd.take(i as int)),
        decreases st.len() - i,
    {
        proof {
            assert(sd.take(i as int + 1).drop_last() =~= sd.take(i as int));
        }
        let ghost before = repo_views(out@);
        match deb822_repo_vec(file, i, st[i].as_str()) {
            Some(x) => {
                out.push(x);
                assert(repo_views(out@) =~= before.push(out@.last()@));
            },
            None => {
                assert(before + Seq::<RepoView>::empty() =~= before);
            },
        }
        i += 1;
    }
    assert(sd.take(st.len() as int) =~= sd);
    out
}

// ---------------------------------------------------------------------------
// Enabling and disabling entries
// ---------------------------------------------------------------------------

pub open spec fn enabled_line(enabled: bool) -> Seq<char> {
    "Enabled: "@ + if enabled {
        "yes"@
    } else {
        "no"@
    }
}

pub open spec fn is_enabled_line(l: Seq<char>) -> bool {
    starts_with(crate::text::lower_seq(l), "enabled:"@)
}

/// A stanza with every `Enabled:` line (any letter case) replaced, or one appended.
pub open spec fn rewrite_enabled(stanza: Seq<char>, enabled: bool) -> Seq<char> {
    let ls = lines(stanza);
    let rl = Seq::new(
        ls.len(),
        |i: int|
            if is_enabled_line(ls[i]) {
                enabled_line(enabled)
            } else {
                ls[i]
            },
    );
    join(
        if exists|i: int| 0 <= i < ls.len() && is_enabled_line(#[trigger] ls[i]) {
            rl
        } else {
            rl.push(enabled_line(enabled))
        },
        "\n"@,
    )
}

pub fn rewrite_enabled_field(stanza: &str, enabled: bool) -> (r: String)
    ensures
        r@ == rewrite_enabled(stanza@, enabled),
{
    let value = if enabled {
        "yes"
    } else {
        "no"
    };
    let mut el = chars_of("Enabled: ");
    append_str(&mut el, value);
    assert(el@ == enabled_line(enabled));
    let sv = chars_of(stanza);
    let ls = lines_of(sv.as_slice());
    let ghost ld = ls.deep_view();
    let mut out: Vec<Vec<char>> = Vec::new();
    let mut seen = false;
    let mut i: usize = 0;
    proof {
        crate::text::lemma_dv_empty(out@);
    }
    while i < ls.len()
        invariant
            i <= ls.len(),
            ld == ls.deep_view(),
            el@ == enabled_line(enabled),
            crate::text::dv(out@) == Seq::new(
                i as nat,
                |j: int|
                    if is_enabled_line(ld[j]) {
                        enabled_line(enabled)
                    } else {
                        ld[j]
                    },
            ),
            seen == exists|j: int| 0 <= j < i && is_enabled_line(#[trigger] ld[j]),
        decreases ls.len() - i,
    {
        proof {
            lemma_deep_char(ls@[i as int]);
        }
        let lw = crate::text::lower_vec(ls[i].as_slice());
        let ghost o0 = out@;
        if starts_with_str(lw.as_slice(), "enabled:") {
            let x = copy_vec(el.as_slice());
            let ghost xg = x;
            out.push(x);
            proof {
                crate::text::lemma_dv_push(o0, xg, out@);
                assert(ls@[i as int]@ == ld[i as int]);
                assert(is_enabled_line(ld[i as int]));
            }
            seen = true;
        } else {
            let x = copy_vec(ls[i].as_slice());
            let ghost xg = x;
            out.push(x);
            proof {
                crate::text::lemma_dv_push(o0, xg, out@);
                assert(!is_enabled_line(ld[i as int]));
                assert forall|j: int| 0 <= j < i + 1 && is_enabled_line(#[trigger] ld[j]) implies 0
                    <= j < i by {}
            }
        }
        assert(crate::text::dv(out@) =~= Seq::new(
            i as nat + 1,
            |j: int|
                if is_enabled_line(ld[j]) {
                    enabled_line(enabled)
                } else {
                    ld[j]
                },
        ));
        i += 1;
    }
    if !seen {
        let ghost o0 = out@;
        let x = copy_vec(el.as_slice());
        let ghost xg = x;
        out.push(x);
        proof {
            crate::text::lemma_dv_push(o0, xg, out@);
        }
    }
    assert(out.deep_view() =~= crate::text::dv(out@));
    let nl = vec!['\n'];
    proof {
        reveal_strlit("\n");
        assert(nl@ =~= "\n"@);
    }
    let j = join_vec(&out, nl.as_slice());
    string_of(j.as_slice())
}

/// A one-line-style line switched on (uncommented) or off (commented with `# `).
pub open spec fn list_line_out(raw: Seq<char>, enabled: bool) -> Seq<char> {
    let t = trim(raw);
    let commented = starts_with(t, "#"@);
    let body = if commented {
        trim(t.skip(1))
    } else {
        t
    };
    if enabled {
        body
    } else if commented {
        raw
    } else {
        "# "@ + body
    }
}

/// The list with the line whose id is `id` rewritten; every line ends in a newline.
pub open spec fn list_text_out(ls: Seq<Seq<char>>, file: Seq<char>, id: Seq<char>, enabled: bool) -> Seq<
    char,
>
    decreases ls.len(),
{
    if ls.len() == 0 {
        seq![]
    } else {
        list_text_out(ls.drop_last(), file, id, enabled) + (if entry_id(
            file,
            (ls.len() - 1) as nat,
        ) == id {
            list_line_out(ls.last(), enabled)
        } else {
            ls.last()
        }) + "\n"@
    }
}

pub open spec fn spec_set_list(text: Seq<char>, file: Seq<char>, id: Seq<char>, enabled: bool) -> Result<
    Seq<char>,
    Seq<char>,
> {
    if exists|i: nat| i < lines(text).len() && #[trigger] entry_id(file, i) == id {
        Ok(list_text_out(lines(text), file, id, enabled))
    } else {
        Err("repository line not found in file"@)
    }
}

/// A one-line-style list with `repo` switched on or off.
pub fn set_list_enabled(text: &str, repo: &AptRepository, enabled: bool) -> (r: Result<String, String>)
    ensures
        res_view(r) == spec_set_list(text@, repo.file@, repo.id@, enabled),
{
    let tv = chars_of(text);
    let ls = lines_of(tv.as_slice());
    let ghost ld = ls.deep_view();
    let idv = chars_of(repo.id.as_str());
    let mut out: Vec<char> = Vec::new();
    let mut found = false;
    let mut i: usize = 0;
    while i < ls.len()
        invariant
            i <= ls.len(),
            ld == ls.deep_view(),
            idv@ == repo.id@,
            out@ == list_text_out(ld.take(i as int), repo.file@, repo.id@, enabled),
            found == exists|j: nat| j < i && #[trigger] entry_id(repo.file@, j) == repo.id@,
        decreases ls.len() - i,
    {
        proof {
            lemma_deep_char(ls@[i as int]);
            assert(ld.take(i as int + 1).drop_last() =~= ld.take(i as int));
            reveal_strlit("#");
            reveal_strlit("# ");
            reveal_strlit("\n");
        }
        let eid = entry_id_string(repo.file.as_str(), i);
        let ev = chars_of(eid.as_str());
        let raw = &ls[i];
        if !crate::text::chars_eq(ev.as_slice(), idv.as_slice()) {
            append_chars(&mut out, raw.as_slice());
            out.push('\n');
            proof {
                assert forall|j: nat| j < i + 1 && #[trigger] entry_id(repo.file@, j) == repo.id@ implies j
                    < i by {}
            }
        } else {
            found = true;
            let t = trim_vec(raw.as_slice());
            let commented = t.len() > 0 && t[0] == '#';
            proof {
                assert("#"@ =~= seq!['#']);
                if t@.len() > 0 {
                    if t@[0] == '#' {
                        assert(t@.take(1) =~= "#"@);
                    } else {
                        assert(t@.take(1)[0] != "#"@[0]);
                    }
                }
                assert(commented == starts_with(t@, "#"@));
            }
            let body = if commented {
                let x = slice_vec(t.as_slice(), 1, t.len());
                assert(x@ =~= t@.skip(1));
                trim_vec(x.as_slice())
            } else {
                t
            };
            if enabled {
                append_chars(&mut out, body.as_slice());
            } else if commented {
                append_chars(&mut out, raw.as_slice());
            } else {
                append_str(&mut out, "# ");
                append_chars(&mut out, body.as_slice());
            }
            out.push('\n');
            assert(entry_id(repo.file@, i as nat) == repo.id@);
            assert(out@ =~= list_text_out(ld.take(i as int), repo.file@, repo.id@, enabled)
                + list_line_out(ld[i as int], enabled) + "\n"@);
        }
        assert(out@ =~= list_text_out(ld.take(i as int + 1), repo.file@, repo.id@, enabled));
        i += 1;
    }
    assert(ld.take(ls.len() as int) =~= ld);
    if !found {
        return err_of("repository line not found in file");
    }
    Ok(string_of(out.as_slice()))
}

/// The stanza number after the last `:` of an id.
pub open spec fn stanza_number(id: Seq<char>) -> Option<nat> {
    let c = rfind(id, ":"@);
    if c < 0 {
        None
    } else {
        crate::text::parse_unsigned(id.skip(c + 1), usize::MAX as nat)
    }
}

pub open spec fn spec_set_deb822(text: Seq<char>, id: Seq<char>, enabled: bool) -> Result<
    Seq<char>,
    Seq<char>,
> {
    match stanza_number(id) {
        None => Err("invalid repository id"@),
        Some(w) => {
            let st = split_stanzas_of(text);
            if w >= st.len() {
                Err("repository stanza not found"@)
            } else {
                let out = join(st.update(w as int, rewrite_enabled(st[w as int], enabled)), "\n\n"@);
                Ok(
                    if ends_with(out, "\n"@) {
                        out
                    } else {
                        out + "\n"@
                    },
                )
            }
        },
    }
}

/// A deb822 file with `repo`'s stanza switched on or off.
pub fn set_deb822_enabled(text: &str, repo: &AptRepository, enabled: bool) -> (r: Result<
    String,
    String,
>)
    ensures
        res_view(r) == spec_set_deb822(text@, repo.id@, enabled),
{
    let idv = chars_of(repo.id.as_str());
    let colon = vec![':'];
    proof {
        reveal_strlit(":");
        assert(colon@ =~= ":"@);
    }
    let want = match rfind_vec(idv.as_slice(), colon.as_slice()) {
        None => None,
        Some(c) => {
            let n = idv.len();
            proof {
                crate::text::lemma_rfind_to(idv@, ":"@, idv@.len() - 1);
            }
            let tail = slice_vec(idv.as_slice(), c + 1, n);
            assert(tail@ =~= idv@.skip(c + 1));
            match crate::text::parse_unsigned_vec(tail.as_slice(), usize::MAX as u64) {
                Some(w) => Some(w as usize),
                None => None,
            }
        },
    };
    let want = match want {
        Some(w) => w,
        None => {
            return err_of("invalid repository id");
        },
    };
    assert(stanza_number(repo.id@) == Some(want as nat));
    let stanzas = split_stanzas(text);
    let ghost sd = strings_view(stanzas@);
    if want >= stanzas.len() {
        return err_of("repository stanza not found");
    }
    let mut rebuilt: Vec<Vec<char>> = Vec::new();
    let mut i: usize = 0;
    let ghost target = sd.update(want as int, rewrite_enabled(sd[want as int], enabled));
    proof {
        crate::text::lemma_dv_empty(rebuilt@);
    }
    while i < stanzas.len()
        invariant
            i <= stanzas.len(),
            want < stanzas.len(),
            sd == strings_view(stanzas@),
            target == sd.update(want as int, rewrite_enabled(sd[want as int], enabled)),
            crate::text::dv(rebuilt@) == target.take(i as int),
        decreases stanzas.len() - i,
    {
        let x = if i != want {
            chars_of(stanzas[i].as_str())
        } else {
            let rw = rewrite_enabled_field(stanzas[i].as_str(), enabled);
            chars_of(rw.as_str())
        };
        let ghost r0 = rebuilt@;
        let ghost xg = x;
        rebuilt.push(x);
        proof {
            crate::text::lemma_dv_push(r0, xg, rebuilt@);
            assert(crate::text::dv(rebuilt@) =~= target.take(i as int + 1));
        }
        i += 1;
    }
    assert(target.take(stanzas.len() as int) =~= target);
    assert(rebuilt.deep_view() =~= crate::text::dv(rebuilt@));
    let sep = vec!['\n', '\n'];
    proof {
        reveal_strlit("\n\n");
        reveal_strlit("\n");
        assert(sep@ =~= "\n\n"@);
    }
    let mut out = join_vec(&rebuilt, sep.as_slice());
    assert(out@ == join(target, "\n\n"@));
    if !(out.len() > 0 && out[out.len() - 1] == '\n') {
        out.push('\n');
    }
    proof {
        let j = join(target, "\n\n"@);
        assert("\n"@ =~= seq!['\n']);
        if j.len() > 0 && j.last() == '\n' {
            assert(j.skip(j.len() - 1) =~= "\n"@);
        } else if j.len() > 0 {
            assert(j.skip(j.len() - 1)[0] == j.last());
            assert(!ends_with(j, "\n"@));
        }
        assert(sd == split_stanzas_of(text@));
        assert(out@ =~= (if ends_with(j, "\n"@) { j } else { j + "\n"@ }));
    }
    Ok(string_of(out.as_slice()))
}

pub open spec fn repo_name_char(c: char) -> bool {
    crate::text::is_alnum(c) || c == '-' || c == '_' || c == '.'
}

/// A repository file name: trimmed, not empty, letters, digits, `.`, `-` and `_` only,
/// and not starting with `.`.
pub open spec fn spec_sanitize_repo_name(name: Seq<char>) -> Result<Seq<char>, Seq<char>> {
    let t = trim(name);
    if t.len() == 0 {
        Err("name is required"@)
    } else if !(forall|i: int| 0 <= i < t.len() ==> repo_name_char(#[trigger] t[i])) || t[0]
        == '.' {
        Err("name may only contain letters, digits, '.', '-' and '_'"@)
    } else {
        Ok(t)
    }
}

pub fn sanitize_repo_name(name: &str) -> (r: Result<String, String>)
    ensures
        res_view(r) == spec_sanitize_repo_name(name@),
{
    let t = trim_vec(chars_of(name).as_slice());
    if t.len() == 0 {
        return err_of("name is required");
    }
    let mut ok = true;
    let mut i: usize = 0;
    while i < t.len()
        invariant
            i <= t.len(),
            ok == forall|j: int| 0 <= j < i ==> repo_name_char(#[trigger] t@[j]),
        decreases t.len() - i,
    {
        let c = t[i];
        if !(crate::text::is_alnum_char(c) || c == '-' || c == '_' || c == '.') {
            ok = false;
        }
        i += 1;
    }
    if !ok || t[0] == '.' {
        return err_of("name may only contain letters, digits, '.', '-' and '_'");
    }
    Ok(string_of(t.as_slice()))
}

// ---------------------------------------------------------------------------
// Operations
// ---------------------------------------------------------------------------

/// A repository to add as its own one-line-style list file.
pub struct AddRepositoryRequest {
    pub name: String,
    pub uri: String,
    pub suite: String,
    pub components: String,
}

/// Switch one entry on or off.
pub struct SetRepositoryRequest {
    pub id: String,
    pub enabled: bool,
}

/// A list file to write: its name under `sources.list.d` and its text.
pub struct RepoFile {
    pub file_name: String,
    pub body: String,
}

/// One source file as read: its name relative to the root, its text, and whether it is
/// a deb822 `.sources` file.
pub struct RepoSource {
    pub file: String,
    pub text: String,
    pub deb822: bool,
}

pub struct UpdatesStatus {
    pub apt: bool,
    pub reason: Option<String>,
    pub packages: Vec<UpdatePackage>,
    pub reboot_required: bool,
}

pub struct AptActionResult {
    pub ok: bool,
    pub log: String,
    pub reboot_required: bool,
}

pub open spec fn spec_add_repo(name: Seq<char>, uri: Seq<char>, suite: Seq<char>, components: Seq<
    char,
>) -> Result<(Seq<char>, Seq<char>), Seq<char>> {
    match spec_sanitize_repo_name(name) {
        Err(e) => Err(e),
        Ok(n) => if trim(uri).len() == 0 || trim(suite).len() == 0 {
            Err("uri and suite are required"@)
        } else {
            Ok(
                (
                    n + ".list"@,
                    "deb "@ + trim(uri) + " "@ + trim(suite) + " "@ + (if trim(components).len()
                        == 0 {
                        "main"@
                    } else {
                        trim(components)
                    }) + "\n"@,
                ),
            )
        },
    }
}

/// The list file that adds a repository: `<name>.list` holding
/// `deb <uri> <suite> <components>` (components default to `main`).
pub fn add_repo(req: &AddRepositoryRequest) -> (r: Result<RepoFile, String>)
    ensures
        match r {
            Ok(f) => spec_add_repo(req.name@, req.uri@, req.suite@, req.components@) == Ok::<
                (Seq<char>, Seq<char>),
                Seq<char>,
            >((f.file_name@, f.body@)),
            Err(e) => spec_add_repo(req.name@, req.uri@, req.suite@, req.components@) == Err::<
                (Seq<char>, Seq<char>),
                Seq<char>,
            >(e@),
        },
{
    let name = match sanitize_repo_name(req.name.as_str()) {
        Ok(n) => n,
        Err(e) => {
            return Err(e);
        },
    };
    let uri = trim_vec(chars_of(req.uri.as_str()).as_slice());
    let suite = trim_vec(chars_of(req.suite.as_str()).as_slice());
    let comps = trim_vec(chars_of(req.components.as_str()).as_slice());
    if uri.len() == 0 || suite.len() == 0 {
        return Err(string_of(chars_of("uri and suite are required").as_slice()));
    }
    let mut f = chars_of(name.as_str());
    append_str(&mut f, ".list");
    let mut b = chars_of("deb ");
    append_chars(&mut b, uri.as_slice());
    append_str(&mut b, " ");
    append_chars(&mut b, suite.as_slice());
    append_str(&mut b, " ");
    if comps.len() == 0 {
        append_str(&mut b, "main");
    } else {
        append_chars(&mut b, comps.as_slice());
    }
    append_str(&mut b, "\n");
    Ok(RepoFile { file_name: string_of(f.as_slice()), body: string_of(b.as_slice()) })
}

/// Index of the first entry whose id is `id`.
pub fn find_repo(repos: &Vec<AptRepository>, id: &str) -> (r: Result<usize, String>)
    ensures
        match r {
            Ok(i) => i < repos@.len() && repos@[i as int].id@ == id@ && forall|j: int|
                0 <= j < i ==> (#[trigger] repos@[j]).id@ != id@,
            Err(e) => e@ == "repository not found: "@ + id@ && forall|j: int|
                0 <= j < repos@.len() ==> (#[trigger] repos@[j]).id@ != id@,
        },
{
    let mut i: usize = 0;
    while i < repos.len()
        invariant
            i <= repos.len(),
            forall|j: int| 0 <= j < i ==> (#[trigger] repos@[j]).id@ != id@,
        decreases repos.len() - i,
    {
        if string_eq_str(&repos[i].id, id) {
            return Ok(i);
        }
        i += 1;
    }
    let mut m = chars_of("repository not found: ");
    append_str(&mut m, id);
    Err(string_of(m.as_slice()))
}

/// The text of `repo`'s file with the entry switched on or off: by stanza in a deb822
/// file, by line in a one-line-style list.
pub fn set_repo(repo: &AptRepository, enabled: bool, text: &str, deb822: bool) -> (r: Result<
    String,
    String,
>)
    ensures
        deb822 ==> res_view(r) == spec_set_deb822(text@, repo.id@, enabled),
        !deb822 ==> res_view(r) == spec_set_list(text@, repo.file@, repo.id@, enabled),
{
    if deb822 {
        set_deb822_enabled(text, repo, enabled)
    } else {
        set_list_enabled(text, repo, enabled)
    }
}

pub open spec fn source_repos(s: RepoSource) -> Seq<RepoView> {
    if s.deb822 {
        deb822_repos_of(s.file@, split_stanzas_of(s.text@))
    } else {
        list_repos_of(s.file@, lines(s.text@))
    }
}

pub open spec fn all_source_repos(ss: Seq<RepoSource>) -> Seq<RepoView>
    decreases ss.len(),
{
    if ss.len() == 0 {
        seq![]
    } else {
        all_source_repos(ss.drop_last()) + source_repos(ss.last())
    }
}

/// Every entry of the source files, file by file in the given order.
pub fn list_repos(sources: &Vec<RepoSource>) -> (r: Vec<AptRepository>)
    ensures
        repo_views(r@) == all_source_repos(sources@),
{
    let mut out: Vec<AptRepository> = Vec::new();
    let mut i: usize = 0;
    while i < sources.len()
        invariant
            i <= sources.len(),
            repo_views(out@) == all_source_repos(sources@.take(i as int)),
        decreases sources.len() - i,
    {
        proof {
            assert(sources@.take(i as int + 1).drop_last() =~= sources@.take(i as int));
        }
        let src = &sources[i];
        let mut more = if src.deb822 {
            parse_deb822_text(src.file.as_str(), src.text.as_str())
        } else {
            parse_list_text(src.file.as_str(), src.text.as_str())
        };
        let ghost before = repo_views(out@);
        let ghost add = repo_views(more@);
        out.append(&mut more);
        assert(repo_views(out@) =~= before + add);
        i += 1;
    }
    assert(sources@.take(sources.len() as int) =~= sources@);
    out
}

/// The pending upgrades: none with a reason when apt is missing or the simulation
/// failed, else the packages of its `Inst` lines.
pub fn list_updates(apt_found: bool, simulation: Result<String, String>, reboot_required: bool) -> (r:
    Result<UpdatesStatus, String>)
    ensures
        r is Ok,
        r matches Ok(st) && st.reboot_required == reboot_required && st.apt == apt_found,
        r matches Ok(st) ==> (!apt_found ==> (st.reason matches Some(m) && m@
            == "apt-get not found on this node"@) && st.packages@.len() == 0),
        r matches Ok(st) ==> (apt_found ==> match simulation {
            Err(e) => st.reason == Some(e) && st.packages@.len() == 0,
            Ok(log) => st.reason is None && package_views(st.packages@) == inst_packages(
                lines(log@),
            ),
        }),
{
    if !apt_found {
        return Ok(
            UpdatesStatus {
                apt: false,
                reason: Some(string_of(chars_of("apt-get not found on this node").as_slice())),
                packages: Vec::new(),
                reboot_required,
            },
        );
    }
    match simulation {
        Err(e) => Ok(
            UpdatesStatus { apt: true, reason: Some(e), packages: Vec::new(), reboot_required },
        ),
        Ok(log) => Ok(
            UpdatesStatus {
                apt: true,
                reason: None,
                packages: parse_inst_lines(log.as_str()),
                reboot_required,
            },
        ),
    }
}

/// The result of `apt-get update`: its log, or its error.
pub fn refresh(run: Result<String, String>, reboot_required: bool) -> (r: Result<
    AptActionResult,
    String,
>)
    ensures
        match run {
            Ok(log) => r matches Ok(a) && a.ok && a.log == log && a.reboot_required
                == reboot_required,
            Err(e) => r == Err::<AptActionResult, String>(e),
        },
{
    match run {
        Ok(log) => Ok(AptActionResult { ok: true, log, reboot_required }),
        Err(e) => Err(e),
    }
}

/// The result of `apt-get dist-upgrade`: its log, or its error.
pub fn upgrade(run: Result<String, String>, reboot_required: bool) -> (r: Result<
    AptActionResult,
    String,
>)
    ensures
        match run {
            Ok(log) => r matches Ok(a) && a.ok && a.log == log && a.reboot_required
                == reboot_required,
            Err(e) => r == Err::<AptActionResult, String>(e),
        },
{
    refresh(run, reboot_required)
}

} // verus!
