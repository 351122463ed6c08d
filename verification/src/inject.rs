//! A guest's login, written into its disk: SSH keys, user and host names, and the
//! account files and cloud-init seed that carry them.
use vstd::prelude::*;

use crate::text::{
    append_chars, append_str, chars_of, is_alnum, is_alnum_char, is_digit, lines, lines_of,
    lower, push_piece, starts_with, starts_with_str, string_of, trim, trim_vec,
};
use crate::urls::{trim_end_char, trim_end_char_vec};

verus! {

/// Who logs in to a guest, and as what host.
pub struct GuestIdentity<'a> {
    pub hostname: &'a str,
    pub user: &'a str,
    pub password: Option<&'a str>,
    pub ssh_authorized_keys: &'a [String],
}

/// A public key line: not blank, not a comment, and of an OpenSSH key type.
pub open spec fn spec_looks_like_ssh_key(line: Seq<char>) -> bool {
    let t = trim(line);
    &&& t.len() > 0
    &&& !starts_with(t, "#"@)
    &&& (starts_with(t, "ssh-"@) || starts_with(t, "ecdsa-"@) || starts_with(t, "sk-ssh-"@)
        || starts_with(t, "sk-ecdsa-"@))
}

pub fn looks_like_ssh_key(line: &str) -> (r: bool)
    ensures
        r == spec_looks_like_ssh_key(line@),
{
    let t = trim_vec(chars_of(line).as_slice());
    t.len() > 0 && !starts_with_str(t.as_slice(), "#") && (starts_with_str(t.as_slice(), "ssh-")
        || starts_with_str(t.as_slice(), "ecdsa-") || starts_with_str(t.as_slice(), "sk-ssh-")
        || starts_with_str(t.as_slice(), "sk-ecdsa-"))
}

/// The trimmed key lines, each kept once, first occurrence first.
pub open spec fn keys_fold(ls: Seq<Seq<char>>) -> Seq<Seq<char>>
    decreases ls.len(),
{
    if ls.len() == 0 {
        seq![]
    } else {
        let prev = keys_fold(ls.drop_last());
        let t = trim(ls.last());
        if spec_looks_like_ssh_key(t) && !prev.contains(t) {
            prev.push(t)
        } else {
            prev
        }
    }
}

pub open spec fn strings_view(v: Seq<String>) -> Seq<Seq<char>> {
    Seq::new(v.len(), |i: int| v[i]@)
}

fn contains_string(v: &Vec<String>, s: &[char]) -> (r: bool)
    ensures
        r == strings_view(v@).contains(s@),
{
    let mut i: usize = 0;
    while i < v.len()
        invariant
            i <= v.len(),
            forall|j: int| 0 <= j < i ==> strings_view(v@)[j] != s@,
        decreases v.len() - i,
    {
        let c = chars_of(v[i].as_str());
        if crate::text::chars_eq(c.as_slice(), s) {
            assert(strings_view(v@)[i as int] == s@);
            return true;
        }
        i += 1;
    }
    false
}

/// Adds the trimmed `line` when it is a key not yet present.
fn add_key(out: &mut Vec<String>, line: &[char])
    ensures
        strings_view(final(out)@) == ({
            let t = trim(line@);
            if spec_looks_like_ssh_key(t) && !strings_view(old(out)@).contains(t) {
                strings_view(old(out)@).push(t)
            } else {
                strings_view(old(out)@)
            }
        }),
{
    let t = trim_vec(line);
    let ts = string_of(t.as_slice());
    if looks_like_ssh_key(ts.as_str()) && !contains_string(out, t.as_slice()) {
        out.push(ts);
        assert(strings_view(out@) =~= strings_view(old(out)@).push(t@));
    }
}

/// The public keys of an `authorized_keys` text.
pub fn parse_ssh_keys(text: &str) -> (r: Vec<String>)
    ensures
        strings_view(r@) == keys_fold(lines(text@)),
{
    let ls = lines_of(chars_of(text).as_slice());
    let ghost ld = ls.deep_view();
    let mut out: Vec<String> = Vec::new();
    let mut i: usize = 0;
    assert(strings_view(out@) =~= keys_fold(ld.take(0)));
    while i < ls.len()
        invariant
            i <= ls.len(),
            ld == ls.deep_view(),
            strings_view(out@) == keys_fold(ld.take(i as int)),
        decreases ls.len() - i,
    {
        proof {
            crate::text::lemma_char_vec_dv(ls@[i as int]);
            assert(ld.take(i as int + 1).drop_last() =~= ld.take(i as int));
        }
        add_key(&mut out, ls[i].as_slice());
        i += 1;
    }
    assert(ld.take(ls.len() as int) =~= ld);
    out
}

/// The keys to install: the guest's own, then the operator's, trimmed, keys only, once each.
pub fn collect_guest_keys(own: &[String], operator: &Vec<String>) -> (r: Vec<String>)
    ensures
        strings_view(r@) == keys_fold(strings_view(own@) + strings_view(operator@)),
{
    let ghost all = strings_view(own@) + strings_view(operator@);
    let mut out: Vec<String> = Vec::new();
    let mut i: usize = 0;
    assert(strings_view(out@) =~= keys_fold(all.take(0)));
    while i < own.len()
        invariant
            i <= own.len(),
            all == strings_view(own@) + strings_view(operator@),
            strings_view(out@) == keys_fold(all.take(i as int)),
        decreases own.len() - i,
    {
        proof {
            assert(all.take(i as int + 1).drop_last() =~= all.take(i as int));
            assert(all.take(i as int + 1).last() == own@[i as int]@);
        }
        let c = chars_of(own[i].as_str());
        add_key(&mut out, c.as_slice());
        i += 1;
    }
    let mut j: usize = 0;
    while j < operator.len()
        invariant
            j <= operator.len(),
            all == strings_view(own@) + strings_view(operator@),
            strings_view(out@) == keys_fold(all.take(own@.len() + j as int)),
        decreases operator.len() - j,
    {
        proof {
            let n = own@.len() + j as int;
            assert(all.take(n + 1).drop_last() =~= all.take(n));
            assert(all.take(n + 1).last() == operator@[j as int]@);
        }
        let c = chars_of(operator[j].as_str());
        add_key(&mut out, c.as_slice());
        j += 1;
    }
    assert(all.take((own@.len() + operator@.len()) as int) =~= all);
    out
}

/// Keys come out trimmed, each a key line, none twice.
pub proof fn lemma_keys_distinct(ls: Seq<Seq<char>>)
    ensures
        forall|i: int, j: int|
            0 <= i < j < keys_fold(ls).len() ==> keys_fold(ls)[i] != keys_fold(ls)[j],
        forall|i: int|
            0 <= i < keys_fold(ls).len() ==> spec_looks_like_ssh_key(#[trigger] keys_fold(ls)[i]),
    decreases ls.len(),
{
    if ls.len() > 0 {
        lemma_keys_distinct(ls.drop_last());
        let prev = keys_fold(ls.drop_last());
        let t = trim(ls.last());
        if spec_looks_like_ssh_key(t) && !prev.contains(t) {
            assert forall|i: int, j: int|
                0 <= i < j < keys_fold(ls).len() implies keys_fold(ls)[i] != keys_fold(ls)[j] by {
                if j == prev.len() {
                    assert(prev[i] == keys_fold(ls)[i]);
                    if prev[i] == t {
                        assert(prev.contains(t));
                    }
                }
            }
        }
    }
}

// ---------------------------------------------------------------------------
// Names
// ---------------------------------------------------------------------------

pub open spec fn user_char(c: char) -> bool {
    ('a' <= c && c <= 'z') || is_digit(c) || c == '-' || c == '_'
}

/// A login name: lower-cased, only `a-z0-9-_`, at most 32 characters; `cloud-user` when
/// nothing is left or the name is `root`.
pub open spec fn spec_sanitize_user(raw: Seq<char>) -> Seq<char> {
    let f = crate::text::lower_seq(trim(raw)).filter(|c: char| user_char(c));
    if f.len() == 0 || f == "root"@ {
        "cloud-user"@
    } else if f.len() > 32 {
        f.take(32)
    } else {
        f
    }
}

pub fn sanitize_user(raw: &str) -> (r: String)
    ensures
        r@ == spec_sanitize_user(raw@),
{
    let t = trim_vec(chars_of(raw).as_slice());
    let l = crate::text::lower_vec(t.as_slice());
    let ghost ls = l@;
    let mut out: Vec<char> = Vec::new();
    let mut i: usize = 0;
    proof {
        reveal(Seq::filter);
        assert(ls.take(0) =~= Seq::<char>::empty());
    }
    while i < l.len()
        invariant
            i <= l.len(),
            ls == l@,
            out@ == ls.take(i as int).filter(|c: char| user_char(c)),
        decreases l.len() - i,
    {
        proof {
            reveal(Seq::filter);
            assert(ls.take(i as int + 1).drop_last() =~= ls.take(i as int));
            assert(ls.take(i as int + 1).last() == ls[i as int]);
        }
        let c = l[i];
        if ('a' <= c && c <= 'z') || ('0' <= c && c <= '9') || c == '-' || c == '_' {
            out.push(c);
        }
        i += 1;
    }
    assert(ls.take(l.len() as int) =~= ls);
    proof {
        reveal_strlit("root");
        reveal_strlit("cloud-user");
    }
    if out.len() == 0 || crate::text::eq_str(out.as_slice(), "root") {
        return string_of(chars_of("cloud-user").as_slice());
    }
    if out.len() > 32 {
        let x = crate::text::slice_vec(out.as_slice(), 0, 32);
        assert(x@ =~= out@.take(32));
        return string_of(x.as_slice());
    }
    string_of(out.as_slice())
}

/// Characters kept from a raw host name: letters, digits and `-`, other runs made one `-`.
pub open spec fn host_fold(s: Seq<char>) -> Seq<char>
    decreases s.len(),
{
    if s.len() == 0 {
        seq![]
    } else {
        let o = host_fold(s.drop_last());
        let c = s.last();
        if is_alnum(c) || c == '-' {
            o.push(c)
        } else if o.len() > 0 && o.last() != '-' {
            o.push('-')
        } else {
            o
        }
    }
}

/// Leading `-` count.
pub open spec fn lead_dashes(s: Seq<char>, i: int) -> int
    decreases s.len() - i,
{
    if i < 0 || i >= s.len() {
        if i < 0 {
            0
        } else {
            s.len() as int
        }
    } else if s[i] == '-' {
        lead_dashes(s, i + 1)
    } else {
        i
    }
}

/// A host name: the trimmed input's letters, digits and dashes, each run of other
/// characters turned into one dash (none at the start, none after a dash), then no dash
/// at either end and at most 63 characters; `pertisk` when nothing is left.
pub open spec fn spec_sanitize_host(raw: Seq<char>) -> Seq<char> {
    let o = host_fold(trim(raw));
    let t = trim_end_char(o.skip(lead_dashes(o, 0)), '-');
    let u = if t.len() > 63 {
        t.take(63)
    } else {
        t
    };
    if u.len() == 0 {
        "pertisk"@
    } else {
        u
    }
}

proof fn lemma_lead_dashes(s: Seq<char>, i: int)
    requires
        0 <= i <= s.len(),
    ensures
        i <= lead_dashes(s, i) <= s.len(),
    decreases s.len() - i,
{
    if i < s.len() && s[i] == '-' {
        lemma_lead_dashes(s, i + 1);
    }
}

pub fn sanitize_host(raw: &str) -> (r: String)
    ensures
        r@ == spec_sanitize_host(raw@),
{
    let t = trim_vec(chars_of(raw).as_slice());
    let ghost ts = t@;
    let mut out: Vec<char> = Vec::new();
    let mut i: usize = 0;
    assert(ts.take(0) =~= Seq::<char>::empty());
    while i < t.len()
        invariant
            i <= t.len(),
            ts == t@,
            out@ == host_fold(ts.take(i as int)),
        decreases t.len() - i,
    {
        proof {
            assert(ts.take(i as int + 1).drop_last() =~= ts.take(i as int));
            assert(ts.take(i as int + 1).last() == ts[i as int]);
        }
        let c = t[i];
        if is_alnum_char(c) || c == '-' {
            out.push(c);
        } else if out.len() > 0 && out[out.len() - 1] != '-' {
            out.push('-');
        }
        i += 1;
    }
    assert(ts.take(t.len() as int) =~= ts);
    let mut lo: usize = 0;
    proof {
        lemma_lead_dashes(out@, 0);
    }
    while lo < out.len() && out[lo] == '-'
        invariant
            lo <= out.len(),
            lead_dashes(out@, lo as int) == lead_dashes(out@, 0),
        decreases out.len() - lo,
    {
        lo += 1;
    }
    let rest = crate::text::slice_vec(out.as_slice(), lo, out.len());
    assert(rest@ =~= out@.skip(lo as int));
    let tt = trim_end_char_vec(rest.as_slice(), '-');
    let u = if tt.len() > 63 {
        let x = crate::text::slice_vec(tt.as_slice(), 0, 63);
        assert(x@ =~= tt@.take(63));
        x
    } else {
        tt
    };
    if u.len() == 0 {
        proof {
            reveal_strlit("pertisk");
        }
        return string_of(chars_of("pertisk").as_slice());
    }
    string_of(u.as_slice())
}

// ---------------------------------------------------------------------------
// Account files
// ---------------------------------------------------------------------------

/// `text` with `line` appended as a line of its own.
pub open spec fn spec_append_line(text: Seq<char>, line: Seq<char>) -> Seq<char> {
    (if text.len() > 0 && text.last() != '\n' {
        text + "\n"@
    } else {
        text
    }) + line + "\n"@
}

pub fn append_line_text(text: &str, line: &str) -> (r: String)
    ensures
        r@ == spec_append_line(text@, line@),
{
    let mut v = chars_of(text);
    if v.len() > 0 && v[v.len() - 1] != '\n' {
        append_str(&mut v, "\n");
    }
    append_str(&mut v, line);
    append_str(&mut v, "\n");
    string_of(v.as_slice())
}

pub open spec fn user_prefix(user: Seq<char>) -> Seq<char> {
    user + ":"@
}

/// Whether an account file has a line for `user`.
pub open spec fn spec_has_user(text: Seq<char>, user: Seq<char>) -> bool {
    exists|i: int| 0 <= i < lines(text).len() && starts_with(#[trigger] lines(text)[i], user_prefix(user))
}

fn prefix_of(user: &str) -> (r: Vec<char>)
    ensures
        r@ == user_prefix(user@),
{
    let mut p = chars_of(user);
    append_str(&mut p, ":");
    p
}

pub fn shadow_has(text: &str, user: &str) -> (r: bool)
    ensures
        r == spec_has_user(text@, user@),
{
    let p = prefix_of(user);
    let ls = lines_of(chars_of(text).as_slice());
    let ghost ld = ls.deep_view();
    let mut i: usize = 0;
    while i < ls.len()
        invariant
            i <= ls.len(),
            ld == ls.deep_view(),
            ld == lines(text@),
            p@ == user_prefix(user@),
            forall|j: int| 0 <= j < i ==> !starts_with(#[trigger] ld[j], user_prefix(user@)),
        decreases ls.len() - i,
    {
        proof {
            crate::text::lemma_char_vec_dv(ls@[i as int]);
        }
        if crate::text::starts_with_vec(ls[i].as_slice(), p.as_slice()) {
            assert(starts_with(ld[i as int], user_prefix(user@)));
            return true;
        }
        i += 1;
    }
    false
}

/// The fields of a colon-separated line.
pub open spec fn fields(line: Seq<char>) -> Seq<Seq<char>> {
    crate::text::split_char(line, ':')
}

/// UID, GID and home of `user` in `/etc/passwd`: from the first line for the user with at
/// least six fields; none if its numbers do not parse.
pub open spec fn passwd_home_from(ls: Seq<Seq<char>>, user: Seq<char>) -> Option<(u32, u32, Seq<char>)>
    decreases ls.len(),
{
    if ls.len() == 0 {
        None
    } else {
        let l = ls[0];
        let f = fields(l);
        if starts_with(l, user_prefix(user)) && f.len() >= 6 {
            match (
                crate::text::parse_unsigned(f[2], u32::MAX as nat),
                crate::text::parse_unsigned(f[3], u32::MAX as nat),
            ) {
                (Some(u), Some(g)) => Some((u as u32, g as u32, f[5])),
                _ => None,
            }
        } else {
            passwd_home_from(ls.drop_first(), user)
        }
    }
}

pub open spec fn spec_passwd_home(text: Seq<char>, user: Seq<char>) -> Option<(u32, u32, Seq<char>)> {
    passwd_home_from(lines(text), user)
}

pub fn passwd_home(text: &str, user: &str) -> (r: Option<(u32, u32, String)>)
    ensures
        match r {
            Some(x) => spec_passwd_home(text@, user@) == Some((x.0, x.1, x.2@)),
            None => spec_passwd_home(text@, user@) is None,
        },
{
    let p = prefix_of(user);
    let ls = lines_of(chars_of(text).as_slice());
    let ghost ld = ls.deep_view();
    let mut i: usize = 0;
    assert(ld.skip(0) =~= ld);
    while i < ls.len()
        invariant
            i <= ls.len(),
            ld == ls.deep_view(),
            ld == lines(text@),
            p@ == user_prefix(user@),
            spec_passwd_home(text@, user@) == passwd_home_from(ld.skip(i as int), user@),
        decreases ls.len() - i,
    {
        proof {
            crate::text::lemma_char_vec_dv(ls@[i as int]);
            assert(ld.skip(i as int)[0] == ld[i as int]);
            assert(ld.skip(i as int).drop_first() =~= ld.skip(i as int + 1));
        }
        if crate::text::starts_with_vec(ls[i].as_slice(), p.as_slice()) {
            let f = crate::text::split_on(ls[i].as_slice(), ':');
            if f.len() >= 6 {
                proof {
                    crate::text::lemma_char_vec_dv(f@[2]);
                    crate::text::lemma_char_vec_dv(f@[3]);
                    crate::text::lemma_char_vec_dv(f@[5]);
                }
                let u = crate::text::parse_unsigned_vec(f[2].as_slice(), u32::MAX as u64);
                let g = crate::text::parse_unsigned_vec(f[3].as_slice(), u32::MAX as u64);
                return match (u, g) {
                    (Some(u), Some(g)) => Some((u as u32, g as u32, string_of(f[5].as_slice()))),
                    _ => None,
                };
            }
        }
        i += 1;
    }
    None
}

/// The UID a passwd line names in its third field, if it parses.
pub open spec fn third_uid(l: Seq<char>) -> Option<nat> {
    if fields(l).len() >= 3 {
        crate::text::parse_unsigned(fields(l)[2], u32::MAX as nat)
    } else {
        None
    }
}

pub open spec fn used_uid(ls: Seq<Seq<char>>, u: nat) -> bool {
    exists|i: int| 0 <= i < ls.len() && third_uid(#[trigger] ls[i]) == Some(u)
}

/// The first UID from 1000 up that no passwd line uses.
pub open spec fn is_next_uid(text: Seq<char>, uid: u32) -> bool {
    &&& 1000 <= uid
    &&& !used_uid(lines(text), uid as nat)
    &&& forall|u: nat| 1000 <= u < uid ==> used_uid(lines(text), u)
}

fn parsed_uids(text: &str) -> (r: Vec<Option<u64>>)
    ensures
        r@.len() == lines(text@).len(),
        forall|k: int|
            0 <= k < r@.len() ==> match #[trigger] r@[k] {
                Some(v) => third_uid(lines(text@)[k]) == Some(v as nat),
                None => third_uid(lines(text@)[k]) is None,
            },
{
    let ls = lines_of(chars_of(text).as_slice());
    let ghost ld = ls.deep_view();
    let mut out: Vec<Option<u64>> = Vec::new();
    let mut i: usize = 0;
    while i < ls.len()
        invariant
            i <= ls.len(),
            ld == ls.deep_view(),
            ld == lines(text@),
            out@.len() == i,
            forall|k: int|
                0 <= k < i ==> match #[trigger] out@[k] {
                    Some(v) => third_uid(ld[k]) == Some(v as nat),
                    None => third_uid(ld[k]) is None,
                },
        decreases ls.len() - i,
    {
        proof {
            crate::text::lemma_char_vec_dv(ls@[i as int]);
        }
        let f = crate::text::split_on(ls[i].as_slice(), ':');
        if f.len() >= 3 {
            proof {
                crate::text::lemma_char_vec_dv(f@[2]);
            }
            out.push(crate::text::parse_unsigned_vec(f[2].as_slice(), u32::MAX as u64));
        } else {
            out.push(None);
        }
        i += 1;
    }
    out
}

/// The UID for a new user.
pub fn next_uid(passwd: &str) -> (r: u32)
    requires
        exists|u: nat| 1000 <= u <= u32::MAX && !used_uid(lines(passwd@), u),
    ensures
        is_next_uid(passwd@, r),
{
    let used = parsed_uids(passwd);
    let ghost ld = lines(passwd@);
    let ghost w = choose|u: nat| 1000 <= u <= u32::MAX && !used_uid(lines(passwd@), u);
    let mut uid: u32 = 1000;
    loop
        invariant
            1000 <= uid <= w,
            w <= u32::MAX,
            ld == lines(passwd@),
            !used_uid(ld, w),
            used@.len() == ld.len(),
            forall|k: int|
                0 <= k < used@.len() ==> match #[trigger] used@[k] {
                    Some(v) => third_uid(ld[k]) == Some(v as nat),
                    None => third_uid(ld[k]) is None,
                },
            forall|u: nat| 1000 <= u < uid ==> used_uid(ld, u),
        decreases w - uid,
    {
        let mut found = false;
        let mut k: usize = 0;
        while k < used.len()
            invariant
                k <= used.len(),
                found == exists|j: int| 0 <= j < k && #[trigger] used@[j] == Some(uid as u64),
            decreases used.len() - k,
        {
            if used[k] == Some(uid as u64) {
                found = true;
            }
            k += 1;
        }
        if !found {
            assert forall|i: int| 0 <= i < ld.len() implies third_uid(#[trigger] ld[i]) != Some(
                uid as nat,
            ) by {
                if third_uid(ld[i]) == Some(uid as nat) {
                    assert(used@[i] == Some(uid as u64));
                }
            }
            return uid;
        }
        proof {
            let j = choose|j: int| 0 <= j < used@.len() && #[trigger] used@[j] == Some(uid as u64);
            assert(third_uid(ld[j]) == Some(uid as nat));
            assert(used_uid(ld, uid as nat));
            assert(uid as nat != w);
        }
        uid = uid + 1;
    }
}

fn join_lines(parts: &Vec<Vec<char>>) -> (r: Vec<char>)
    ensures
        r@ == crate::text::join(parts.deep_view(), "\n"@),
{
    let nl = vec!['\n'];
    proof {
        reveal_strlit("\n");
        assert(nl@ =~= "\n"@);
    }
    crate::text::join_vec(parts, nl.as_slice())
}

fn join_fields(parts: &Vec<Vec<char>>) -> (r: Vec<char>)
    ensures
        r@ == crate::text::join(parts.deep_view(), ":"@),
{
    let c = vec![':'];
    proof {
        reveal_strlit(":");
        assert(c@ =~= ":"@);
    }
    crate::text::join_vec(parts, c.as_slice())
}

/// The GID of group `name` in `/etc/group`: the third field of its first line, or
/// `default` when that does not parse; none when the group is missing.
pub open spec fn group_gid_from(ls: Seq<Seq<char>>, name: Seq<char>, default: u32) -> Option<u32>
    decreases ls.len(),
{
    if ls.len() == 0 {
        None
    } else if starts_with(ls[0], user_prefix(name)) {
        Some(
            match third_uid(ls[0]) {
                Some(g) => g as u32,
                None => default,
            },
        )
    } else {
        group_gid_from(ls.drop_first(), name, default)
    }
}

pub fn group_gid(text: &str, name: &str, default: u32) -> (r: Option<u32>)
    ensures
        r == group_gid_from(lines(text@), name@, default),
{
    let p = prefix_of(name);
    let ls = lines_of(chars_of(text).as_slice());
    let ghost ld = ls.deep_view();
    let mut i: usize = 0;
    assert(ld.skip(0) =~= ld);
    while i < ls.len()
        invariant
            i <= ls.len(),
            ld == ls.deep_view(),
            p@ == user_prefix(name@),
            group_gid_from(lines(text@), name@, default) == group_gid_from(ld.skip(i as int), name@, default),
            ld == lines(text@),
        decreases ls.len() - i,
    {
        proof {
            crate::text::lemma_char_vec_dv(ls@[i as int]);
            assert(ld.skip(i as int)[0] == ld[i as int]);
            assert(ld.skip(i as int).drop_first() =~= ld.skip(i as int + 1));
        }
        if crate::text::starts_with_vec(ls[i].as_slice(), p.as_slice()) {
            let f = crate::text::split_on(ls[i].as_slice(), ':');
            if f.len() >= 3 {
                proof {
                    crate::text::lemma_char_vec_dv(f@[2]);
                }
                match crate::text::parse_unsigned_vec(f[2].as_slice(), u32::MAX as u64) {
                    Some(g) => {
                        return Some(g as u32);
                    },
                    None => {
                        return Some(default);
                    },
                }
            }
            return Some(default);
        }
        i += 1;
    }
    None
}

/// A shadow line of `user` with the hash and the last-change day replaced.
pub open spec fn shadow_line_out(l: Seq<char>, user: Seq<char>, hash: Seq<char>, lastchg: Seq<char>) -> Seq<
    char,
> {
    if starts_with(l, user_prefix(user)) {
        let f = fields(l);
        let f1 = if f.len() >= 2 {
            f.update(1, hash)
        } else {
            f
        };
        let f2 = if f.len() >= 3 {
            f1.update(2, lastchg)
        } else {
            f1
        };
        crate::text::join(f2, ":"@)
    } else {
        l
    }
}

/// `/etc/shadow` with `user`'s password hash set (the entry added when missing), each
/// line newline-terminated.
pub open spec fn spec_set_shadow_hash(text: Seq<char>, user: Seq<char>, hash: Seq<char>, lastchg: Seq<
    char,
>) -> Seq<char> {
    let ls = lines(text);
    let m = ls.map_values(|l: Seq<char>| shadow_line_out(l, user, hash, lastchg));
    let m2 = if spec_has_user(text, user) {
        m
    } else {
        m.push(user + ":"@ + hash + ":"@ + lastchg + ":0:99999:7:::"@)
    };
    crate::text::join(m2.push(seq![]), "\n"@)
}

pub fn set_shadow_hash_text(text: &str, user: &str, hash: &str, lastchg: &str) -> (r: String)
    ensures
        r@ == spec_set_shadow_hash(text@, user@, hash@, lastchg@),
{
    let p = prefix_of(user);
    let ls = lines_of(chars_of(text).as_slice());
    let ghost ld = ls.deep_view();
    let mut out: Vec<Vec<char>> = Vec::new();
    let mut found = false;
    let mut i: usize = 0;
    while i < ls.len()
        invariant
            i <= ls.len(),
            ld == ls.deep_view(),
            ld == lines(text@),
            p@ == user_prefix(user@),
            out.deep_view() == ld.take(i as int).map_values(
                |l: Seq<char>| shadow_line_out(l, user@, hash@, lastchg@),
            ),
            found == exists|j: int| 0 <= j < i && starts_with(#[trigger] ld[j], user_prefix(user@)),
        decreases ls.len() - i,
    {
        proof {
            crate::text::lemma_char_vec_dv(ls@[i as int]);
        }
        let line = ls[i].as_slice();
        let x = if crate::text::starts_with_vec(line, p.as_slice()) {
            found = true;
            let mut f = crate::text::split_on(line, ':');
            let ghost fd = f.deep_view();
            let ghost f0 = f@;
            if f.len() >= 2 {
                f.set(1, chars_of(hash));
            }
            if f.len() >= 3 {
                f.set(2, chars_of(lastchg));
            }
            proof {
                let f1 = if fd.len() >= 2 { fd.update(1, hash@) } else { fd };
                let f2 = if fd.len() >= 3 { f1.update(2, lastchg@) } else { f1 };
                assert forall|k: int| 0 <= k < f@.len() implies f.deep_view()[k] == f2[k] by {
                    crate::text::lemma_char_vec_dv(f@[k]);
                    crate::text::lemma_char_vec_dv(f0[k]);
                }
                assert(f.deep_view() =~= f2);
            }
            join_fields(&f)
        } else {
            slice_vec_all(line)
        };
        push_piece(&mut out, x);
        proof {
            assert(ld.take(i as int + 1) =~= ld.take(i as int).push(ld[i as int]));
            assert(out.deep_view() =~= ld.take(i as int + 1).map_values(
                |l: Seq<char>| shadow_line_out(l, user@, hash@, lastchg@),
            ));
        }
        i += 1;
    }
    assert(ld.take(ls.len() as int) =~= ld);
    if !found {
        let mut extra = chars_of(user);
        append_str(&mut extra, ":");
        append_str(&mut extra, hash);
        append_str(&mut extra, ":");
        append_str(&mut extra, lastchg);
        append_str(&mut extra, ":0:99999:7:::");
        push_piece(&mut out, extra);
    }
    push_piece(&mut out, Vec::new());
    let j = join_lines(&out);
    string_of(j.as_slice())
}

fn slice_vec_all(v: &[char]) -> (r: Vec<char>)
    ensures
        r@ == v@,
{
    let x = crate::text::slice_vec(v, 0, v.len());
    assert(x@ =~= v@);
    x
}

/// A passwd line of `user` whose password field is a lock (`!`, `*`, `!!`) gets `x`.
pub open spec fn unlock_line_out(l: Seq<char>, user: Seq<char>) -> Seq<char> {
    if starts_with(l, user_prefix(user)) {
        let f = fields(l);
        crate::text::join(
            if f.len() >= 2 && (f[1] == "!"@ || f[1] == "*"@ || f[1] == "!!"@) {
                f.update(1, "x"@)
            } else {
                f
            },
            ":"@,
        )
    } else {
        l
    }
}

pub open spec fn spec_unlock_passwd(text: Seq<char>, user: Seq<char>) -> Seq<char> {
    crate::text::join(
        lines(text).map_values(|l: Seq<char>| unlock_line_out(l, user)).push(seq![]),
        "\n"@,
    )
}

pub fn unlock_passwd_text(text: &str, user: &str) -> (r: String)
    ensures
        r@ == spec_unlock_passwd(text@, user@),
{
    let p = prefix_of(user);
    let ls = lines_of(chars_of(text).as_slice());
    let ghost ld = ls.deep_view();
    let mut out: Vec<Vec<char>> = Vec::new();
    let mut i: usize = 0;
    while i < ls.len()
        invariant
            i <= ls.len(),
            ld == ls.deep_view(),
            ld == lines(text@),
            p@ == user_prefix(user@),
            out.deep_view() == ld.take(i as int).map_values(|l: Seq<char>| unlock_line_out(l, user@)),
        decreases ls.len() - i,
    {
        proof {
            crate::text::lemma_char_vec_dv(ls@[i as int]);
        }
        let line = ls[i].as_slice();
        let x = if crate::text::starts_with_vec(line, p.as_slice()) {
            let mut f = crate::text::split_on(line, ':');
            let ghost fd = f.deep_view();
            let ghost f0 = f@;
            if f.len() >= 2 {
                proof {
                    crate::text::lemma_char_vec_dv(f@[1]);
                }
                let locked = crate::text::eq_str(f[1].as_slice(), "!") || crate::text::eq_str(
                    f[1].as_slice(),
                    "*",
                ) || crate::text::eq_str(f[1].as_slice(), "!!");
                if locked {
                    f.set(1, chars_of("x"));
                }
            }
            proof {
                let g = if fd.len() >= 2 && (fd[1] == "!"@ || fd[1] == "*"@ || fd[1] == "!!"@) {
                    fd.update(1, "x"@)
                } else {
                    fd
                };
                assert forall|k: int| 0 <= k < f@.len() implies f.deep_view()[k] == g[k] by {
                    crate::text::lemma_char_vec_dv(f@[k]);
                    crate::text::lemma_char_vec_dv(f0[k]);
                }
                assert(f.deep_view() =~= g);
            }
            join_fields(&f)
        } else {
            slice_vec_all(line)
        };
        push_piece(&mut out, x);
        proof {
            assert(ld.take(i as int + 1) =~= ld.take(i as int).push(ld[i as int]));
            assert(out.deep_view() =~= ld.take(i as int + 1).map_values(
                |l: Seq<char>| unlock_line_out(l, user@),
            ));
        }
        i += 1;
    }
    assert(ld.take(ls.len() as int) =~= ld);
    push_piece(&mut out, Vec::new());
    let j = join_lines(&out);
    string_of(j.as_slice())
}

pub open spec fn keep_host_line(l: Seq<char>, hostname: Seq<char>) -> bool {
    !crate::text::contains(l, hostname) && !starts_with(l, "127.0.1.1"@)
}

/// `/etc/hosts` naming this host at 127.0.1.1 only, with a 127.0.0.1 line first when
/// there is none.
pub open spec fn spec_patch_hosts(existing: Seq<char>, hostname: Seq<char>) -> Seq<char> {
    let kept = lines(existing).filter(|l: Seq<char>| keep_host_line(l, hostname));
    let with_local = if exists|i: int| 0 <= i < kept.len() && starts_with(#[trigger] kept[i], "127.0.0.1"@) {
        kept
    } else {
        seq!["127.0.0.1 localhost"@] + kept
    };
    crate::text::join(with_local.push("127.0.1.1 "@ + hostname).push(seq![]), "\n"@)
}

pub fn patch_hosts_text(existing: &str, hostname: &str) -> (r: String)
    ensures
        r@ == spec_patch_hosts(existing@, hostname@),
{
    let hv = chars_of(hostname);
    let ls = lines_of(chars_of(existing).as_slice());
    let ghost ld = ls.deep_view();
    let mut kept: Vec<Vec<char>> = Vec::new();
    let mut has_local = false;
    let mut i: usize = 0;
    proof {
        reveal(Seq::filter);
        assert(ld.take(0) =~= Seq::<Seq<char>>::empty());
    }
    while i < ls.len()
        invariant
            i <= ls.len(),
            ld == ls.deep_view(),
            ld == lines(existing@),
            hv@ == hostname@,
            kept.deep_view() == ld.take(i as int).filter(|l: Seq<char>| keep_host_line(l, hostname@)),
            has_local == exists|j: int| 0 <= j < kept.deep_view().len() && starts_with(
                #[trigger] kept.deep_view()[j],
                "127.0.0.1"@,
            ),
        decreases ls.len() - i,
    {
        proof {
            reveal(Seq::filter);
            crate::text::lemma_char_vec_dv(ls@[i as int]);
            assert(ld.take(i as int + 1).drop_last() =~= ld.take(i as int));
            assert(ld.take(i as int + 1).last() == ld[i as int]);
        }
        let line = ls[i].as_slice();
        if !crate::text::contains_vec(line, hv.as_slice()) && !starts_with_str(line, "127.0.1.1") {
            let x = slice_vec_all(line);
            let ghost k0 = kept.deep_view();
            let local = starts_with_str(line, "127.0.0.1");
            push_piece(&mut kept, x);
            proof {
                assert forall|j: int| 0 <= j < kept.deep_view().len() && starts_with(
                    #[trigger] kept.deep_view()[j],
                    "127.0.0.1"@,
                ) implies (j < k0.len() && starts_with(k0[j], "127.0.0.1"@)) || local by {
                    if j < k0.len() {
                        assert(kept.deep_view()[j] == k0[j]);
                    }
                }
                if local {
                    assert(kept.deep_view()[k0.len() as int] == ld[i as int]);
                }
                if has_local {
                    let j0 = choose|j: int| 0 <= j < k0.len() && starts_with(#[trigger] k0[j], "127.0.0.1"@);
                    assert(kept.deep_view()[j0] == k0[j0]);
                }
            }
            has_local = has_local || local;
        }
        i += 1;
    }
    assert(ld.take(ls.len() as int) =~= ld);
    let ghost kd = kept.deep_view();
    let mut all: Vec<Vec<char>> = Vec::new();
    if !has_local {
        push_piece(&mut all, chars_of("127.0.0.1 localhost"));
    }
    let mut j: usize = 0;
    let ghost base = all.deep_view();
    while j < kept.len()
        invariant
            j <= kept.len(),
            kd == kept.deep_view(),
            all.deep_view() == base + kd.take(j as int),
        decreases kept.len() - j,
    {
        proof {
            crate::text::lemma_char_vec_dv(kept@[j as int]);
        }
        let x = slice_vec_all(kept[j].as_slice());
        push_piece(&mut all, x);
        assert(all.deep_view() =~= base + kd.take(j as int + 1));
        j += 1;
    }
    proof {
        assert(kd.take(kept.len() as int) =~= kd);
        if !has_local {
            assert(base =~= seq!["127.0.0.1 localhost"@]);
        } else {
            assert(base =~= Seq::<Seq<char>>::empty());
            assert(all.deep_view() =~= kd);
        }
    }
    let mut last = chars_of("127.0.1.1 ");
    append_chars(&mut last, hv.as_slice());
    push_piece(&mut all, last);
    push_piece(&mut all, Vec::new());
    let out = join_lines(&all);
    string_of(out.as_slice())
}

/// An sshd configuration line switched to allow passwords and keyboard-interactive login.
pub open spec fn sshd_line(l: Seq<char>) -> Seq<char> {
    let t = crate::text::trim_start(l);
    if starts_with(t, "PasswordAuthentication"@) || starts_with(t, "#PasswordAuthentication"@) {
        "PasswordAuthentication yes"@
    } else if starts_with(t, "KbdInteractiveAuthentication"@) || starts_with(
        t,
        "#KbdInteractiveAuthentication"@,
    ) {
        "KbdInteractiveAuthentication yes"@
    } else {
        l
    }
}

pub open spec fn spec_patch_sshd(text: Seq<char>) -> Seq<char> {
    crate::text::join(lines(text).map_values(|l: Seq<char>| sshd_line(l)), "\n"@) + "\n"@
}

pub fn patch_sshd_text(text: &str) -> (r: String)
    ensures
        r@ == spec_patch_sshd(text@),
{
    let ls = lines_of(chars_of(text).as_slice());
    let ghost ld = ls.deep_view();
    let mut out: Vec<Vec<char>> = Vec::new();
    let mut i: usize = 0;
    while i < ls.len()
        invariant
            i <= ls.len(),
            ld == ls.deep_view(),
            ld == lines(text@),
            out.deep_view() == ld.take(i as int).map_values(|l: Seq<char>| sshd_line(l)),
        decreases ls.len() - i,
    {
        proof {
            crate::text::lemma_char_vec_dv(ls@[i as int]);
        }
        let line = ls[i].as_slice();
        let t = crate::text::trim_start_vec(line);
        let x = if starts_with_str(t.as_slice(), "PasswordAuthentication") || starts_with_str(
            t.as_slice(),
            "#PasswordAuthentication",
        ) {
            chars_of("PasswordAuthentication yes")
        } else if starts_with_str(t.as_slice(), "KbdInteractiveAuthentication") || starts_with_str(
            t.as_slice(),
            "#KbdInteractiveAuthentication",
        ) {
            chars_of("KbdInteractiveAuthentication yes")
        } else {
            slice_vec_all(line)
        };
        push_piece(&mut out, x);
        proof {
            assert(ld.take(i as int + 1) =~= ld.take(i as int).push(ld[i as int]));
            assert(out.deep_view() =~= ld.take(i as int + 1).map_values(|l: Seq<char>| sshd_line(l)));
        }
        i += 1;
    }
    assert(ld.take(ls.len() as int) =~= ld);
    let mut j = join_lines(&out);
    append_str(&mut j, "\n");
    string_of(j.as_slice())
}

/// The NoCloud `meta-data` naming the host.
pub open spec fn spec_meta_data(h: Seq<char>) -> Seq<char> {
    "instance-id: iid-"@ + h + "\nlocal-hostname: "@ + h + "\nhostname: "@ + h + "\n"@
}

pub fn nocloud_meta_data(hostname: &str) -> (r: String)
    ensures
        r@ == spec_meta_data(hostname@),
{
    let mut v = chars_of("instance-id: iid-");
    append_str(&mut v, hostname);
    append_str(&mut v, "\nlocal-hostname: ");
    append_str(&mut v, hostname);
    append_str(&mut v, "\nhostname: ");
    append_str(&mut v, hostname);
    append_str(&mut v, "\n");
    string_of(v.as_slice())
}

pub open spec fn key_items(keys: Seq<Seq<char>>) -> Seq<char>
    decreases keys.len(),
{
    if keys.len() == 0 {
        seq![]
    } else {
        key_items(keys.drop_last()) + if trim(keys.last()).len() > 0 {
            "  - "@ + trim(keys.last()) + "\n"@
        } else {
            seq![]
        }
    }
}

/// The NoCloud `user-data`: host names, password login, the user's password when one is
/// set, and the authorized keys.
pub open spec fn spec_user_data(
    h: Seq<char>,
    user: Seq<char>,
    password: Option<Seq<char>>,
    keys: Seq<Seq<char>>,
) -> Seq<char> {
    "#cloud-config\nhostname: "@ + h + "\nfqdn: "@ + h
        + "\npreserve_hostname: false\nssh_pwauth: true\n"@ + (match password {
        Some(p) => if p.len() > 0 {
            "chpasswd:\n  expire: false\n  list: |\n    "@ + user + ":"@ + p + "\n"@
        } else {
            seq![]
        },
        None => seq![],
    }) + if keys.len() > 0 {
        "ssh_authorized_keys:\n"@ + key_items(keys)
    } else {
        seq![]
    }
}

pub open spec fn opt_str(o: Option<&str>) -> Option<Seq<char>> {
    match o {
        Some(s) => Some(s@),
        None => None,
    }
}

pub fn nocloud_user_data(hostname: &str, user: &str, password: Option<&str>, keys: &[String]) -> (r:
    String)
    ensures
        r@ == spec_user_data(hostname@, user@, opt_str(password), strings_view(keys@)),
{
    let mut v = chars_of("#cloud-config\nhostname: ");
    append_str(&mut v, hostname);
    append_str(&mut v, "\nfqdn: ");
    append_str(&mut v, hostname);
    append_str(&mut v, "\npreserve_hostname: false\nssh_pwauth: true\n");
    match password {
        Some(p) => {
            if chars_of(p).len() > 0 {
                append_str(&mut v, "chpasswd:\n  expire: false\n  list: |\n    ");
                append_str(&mut v, user);
                append_str(&mut v, ":");
                append_str(&mut v, p);
                append_str(&mut v, "\n");
            }
        },
        None => {},
    }
    if keys.len() > 0 {
        append_str(&mut v, "ssh_authorized_keys:\n");
        let ghost kv = strings_view(keys@);
        let ghost head = v@;
        let mut i: usize = 0;
        while i < keys.len()
            invariant
                i <= keys.len(),
                kv == strings_view(keys@),
                v@ == head + key_items(kv.take(i as int)),
            decreases keys.len() - i,
        {
            proof {
                assert(kv.take(i as int + 1).drop_last() =~= kv.take(i as int));
                assert(kv.take(i as int + 1).last() == keys@[i as int]@);
            }
            let t = trim_vec(chars_of(keys[i].as_str()).as_slice());
            if t.len() > 0 {
                append_str(&mut v, "  - ");
                append_chars(&mut v, t.as_slice());
                append_str(&mut v, "\n");
            }
            i += 1;
        }
        assert(kv.take(keys.len() as int) =~= kv);
    }
    string_of(v.as_slice())
}

pub open spec fn nonblank_keys(keys: Seq<Seq<char>>) -> Seq<Seq<char>> {
    keys.map_values(|k: Seq<char>| trim(k)).filter(|k: Seq<char>| k.len() > 0)
}

/// The `authorized_keys` text of the non-blank trimmed keys, one per line; none when
/// there are none.
pub open spec fn spec_authorized_keys(keys: Seq<Seq<char>>) -> Option<Seq<char>> {
    let ks = nonblank_keys(keys);
    if ks.len() == 0 {
        None
    } else {
        Some(crate::text::join(ks, "\n"@) + "\n"@)
    }
}

pub fn authorized_keys_text(keys: &[String]) -> (r: Option<String>)
    ensures
        match r {
            Some(t) => spec_authorized_keys(strings_view(keys@)) == Some(t@),
            None => spec_authorized_keys(strings_view(keys@)) is None,
        },
{
    let ghost kv = strings_view(keys@);
    let ghost tv = kv.map_values(|k: Seq<char>| trim(k));
    let mut ks: Vec<Vec<char>> = Vec::new();
    let mut i: usize = 0;
    proof {
        reveal(Seq::filter);
        assert(tv.take(0) =~= Seq::<Seq<char>>::empty());
    }
    while i < keys.len()
        invariant
            i <= keys.len(),
            kv == strings_view(keys@),
            tv == kv.map_values(|k: Seq<char>| trim(k)),
            ks.deep_view() == tv.take(i as int).filter(|k: Seq<char>| k.len() > 0),
        decreases keys.len() - i,
    {
        proof {
            reveal(Seq::filter);
            assert(tv.take(i as int + 1).drop_last() =~= tv.take(i as int));
            assert(tv.take(i as int + 1).last() == trim(keys@[i as int]@));
        }
        let t = trim_vec(chars_of(keys[i].as_str()).as_slice());
        if t.len() > 0 {
            push_piece(&mut ks, t);
        }
        i += 1;
    }
    assert(tv.take(keys.len() as int) =~= tv);
    if ks.len() == 0 {
        return None;
    }
    let mut j = join_lines(&ks);
    append_str(&mut j, "\n");
    Some(string_of(j.as_slice()))
}

/// The shadow last-change day: days since the epoch, at least 1 (0 would force a change
/// at first login); 1 when the clock reads before the epoch.
pub fn shadow_lastchg(unix_secs: Option<u64>) -> (r: String)
    ensures
        r@ == crate::text::dec(
            match unix_secs {
                Some(s) => if s / 86400 >= 1 {
                    (s / 86400) as nat
                } else {
                    1
                },
                None => 1,
            },
        ),
{
    let d = match unix_secs {
        Some(s) => s / 86400,
        None => 1,
    };
    let d = if d >= 1 {
        d
    } else {
        1
    };
    crate::text::dec_string(d)
}

/// The passwd line of a new cloud user.
pub fn passwd_line(user: &str, uid: u32, gid: u32) -> (r: String)
    ensures
        r@ == user@ + ":x:"@ + crate::text::dec(uid as nat) + ":"@ + crate::text::dec(gid as nat)
            + ":Cloud User:/home/"@ + user@ + ":/bin/bash"@,
{
    let mut v = chars_of(user);
    append_str(&mut v, ":x:");
    append_chars(&mut v, crate::text::dec_vec(uid as u64).as_slice());
    append_str(&mut v, ":");
    append_chars(&mut v, crate::text::dec_vec(gid as u64).as_slice());
    append_str(&mut v, ":Cloud User:/home/");
    append_str(&mut v, user);
    append_str(&mut v, ":/bin/bash");
    string_of(v.as_slice())
}

/// The shadow line of a new cloud user: no password yet.
pub fn shadow_line(user: &str, lastchg: &str) -> (r: String)
    ensures
        r@ == user@ + ":*:"@ + lastchg@ + ":0:99999:7:::"@,
{
    let mut v = chars_of(user);
    append_str(&mut v, ":*:");
    append_str(&mut v, lastchg);
    append_str(&mut v, ":0:99999:7:::");
    string_of(v.as_slice())
}

/// The group line of a new group.
pub fn group_line(name: &str, gid: u32) -> (r: String)
    ensures
        r@ == name@ + ":x:"@ + crate::text::dec(gid as nat) + ":"@,
{
    let mut v = chars_of(name);
    append_str(&mut v, ":x:");
    append_chars(&mut v, crate::text::dec_vec(gid as u64).as_slice());
    append_str(&mut v, ":");
    string_of(v.as_slice())
}

/// A group line naming one of `groups` gets `user` in its member list (when missing).
pub open spec fn group_line_out(l: Seq<char>, user: Seq<char>, groups: Seq<Seq<char>>) -> Seq<char> {
    let f = fields(l);
    if f.len() >= 4 && groups.contains(f[0]) {
        let members = if f[3].len() == 0 {
            seq![]
        } else {
            crate::text::split_char(f[3], ',')
        };
        if members.contains(user) {
            crate::text::join(f, ":"@)
        } else {
            crate::text::join(f.update(3, crate::text::join(members.push(user), ","@)), ":"@)
        }
    } else {
        l
    }
}

/// `/etc/group` with `user` added to each of `groups` that exists.
pub open spec fn spec_add_user_to_groups(text: Seq<char>, user: Seq<char>, groups: Seq<Seq<char>>) -> Seq<
    char,
> {
    crate::text::join(
        lines(text).map_values(|l: Seq<char>| group_line_out(l, user, groups)).push(seq![]),
        "\n"@,
    )
}

fn vec_has(v: &Vec<Vec<char>>, x: &[char]) -> (r: bool)
    ensures
        r == v.deep_view().contains(x@),
{
    let mut i: usize = 0;
    while i < v.len()
        invariant
            i <= v.len(),
            forall|j: int| 0 <= j < i ==> v.deep_view()[j] != x@,
        decreases v.len() - i,
    {
        proof {
            crate::text::lemma_char_vec_dv(v@[i as int]);
        }
        if crate::text::chars_eq(v[i].as_slice(), x) {
            assert(v.deep_view()[i as int] == x@);
            return true;
        }
        i += 1;
    }
    false
}

pub fn add_user_to_groups_text(text: &str, user: &str, groups: &Vec<String>) -> (r: String)
    ensures
        r@ == spec_add_user_to_groups(text@, user@, strings_view(groups@)),
{
    let uv = chars_of(user);
    let mut gv: Vec<Vec<char>> = Vec::new();
    let mut g: usize = 0;
    proof {
        crate::text::lemma_dv_empty(gv@);
    }
    while g < groups.len()
        invariant
            g <= groups.len(),
            crate::text::dv(gv@) == strings_view(groups@).take(g as int),
        decreases groups.len() - g,
    {
        let x = chars_of(groups[g].as_str());
        let ghost g0 = gv@;
        let ghost xg = x;
        gv.push(x);
        proof {
            crate::text::lemma_dv_push(g0, xg, gv@);
            assert(crate::text::dv(gv@) =~= strings_view(groups@).take(g as int + 1));
        }
        g += 1;
    }
    assert(strings_view(groups@).take(groups.len() as int) =~= strings_view(groups@));
    assert(gv.deep_view() =~= crate::text::dv(gv@));
    let ghost gs = strings_view(groups@);
    let ls = lines_of(chars_of(text).as_slice());
    let ghost ld = ls.deep_view();
    let mut out: Vec<Vec<char>> = Vec::new();
    let mut i: usize = 0;
    while i < ls.len()
        invariant
            i <= ls.len(),
            ld == ls.deep_view(),
            ld == lines(text@),
            gv.deep_view() == gs,
            uv@ == user@,
            out.deep_view() == ld.take(i as int).map_values(|l: Seq<char>| group_line_out(l, user@, gs)),
        decreases ls.len() - i,
    {
        proof {
            crate::text::lemma_char_vec_dv(ls@[i as int]);
        }
        let line = ls[i].as_slice();
        let ghost target = group_line_out(ld[i as int], user@, gs);
        let mut f = crate::text::split_on(line, ':');
        let ghost fd = f.deep_view();
        let ghost f0 = f@;
        assert(fd == fields(ld[i as int]));
        let mut named = false;
        if f.len() >= 4 {
            proof {
                crate::text::lemma_char_vec_dv(f@[0]);
            }
            named = vec_has(&gv, f[0].as_slice());
        }
        assert(named == (fd.len() >= 4 && gs.contains(fd[0])));
        let x = if named {
            proof {
                crate::text::lemma_char_vec_dv(f@[0]);
                crate::text::lemma_char_vec_dv(f@[3]);
            }
            let mut members: Vec<Vec<char>> = if f[3].len() == 0 {
                Vec::new()
            } else {
                crate::text::split_on(f[3].as_slice(), ',')
            };
            let ghost md = members.deep_view();
            proof {
                if fd[3].len() == 0 {
                    assert(members.deep_view() =~= Seq::<Seq<char>>::empty());
                }
            }
            if vec_has(&members, uv.as_slice()) {
                let r = join_fields(&f);
                assert(r@ == target);
                r
            } else {
                push_piece(&mut members, slice_vec_all(uv.as_slice()));
                let c = vec![','];
                proof {
                    reveal_strlit(",");
                    assert(c@ =~= ","@);
                }
                let joined = crate::text::join_vec(&members, c.as_slice());
                f.set(3, joined);
                proof {
                    assert forall|k: int| 0 <= k < f@.len() implies f.deep_view()[k] == fd.update(
                        3,
                        crate::text::join(md.push(user@), ","@),
                    )[k] by {
                        crate::text::lemma_char_vec_dv(f@[k]);
                        crate::text::lemma_char_vec_dv(f0[k]);
                    }
                    assert(f.deep_view() =~= fd.update(3, crate::text::join(md.push(user@), ","@)));
                }
                let r = join_fields(&f);
                assert(r@ == target);
                r
            }
        } else {
            let r = slice_vec_all(line);
            assert(r@ == target);
            r
        };
        push_piece(&mut out, x);
        proof {
            assert(ld.take(i as int + 1) =~= ld.take(i as int).push(ld[i as int]));
            assert(out.deep_view() =~= ld.take(i as int + 1).map_values(
                |l: Seq<char>| group_line_out(l, user@, gs),
            ));
        }
        i += 1;
    }
    assert(ld.take(ls.len() as int) =~= ld);
    push_piece(&mut out, Vec::new());
    let j = join_lines(&out);
    string_of(j.as_slice())
}

} // verus!
