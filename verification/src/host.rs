//! Host-side decisions of the daemon: power commands, mail transport security, what a
//! guest's console text and disks say, SSH identities, and counters kept between samples.
use vstd::prelude::*;

use crate::api::Role;
use crate::disk_boot::{file_name, path_file_name};
use crate::ids::{VmId, VolumeId};
use crate::text::{
    append_chars, append_str, chars_of, contains, contains_str, find, find_vec_from, is_digit,
    lower_seq, lower_vec, starts_with, starts_with_str, string_of, trim, trim_vec, trimmed_nonblank, words,
    words_of,
};
use crate::types::DiskSpec;

verus! {

/// Errors of the users, sessions and task store.
#[derive(Debug)]
pub enum ControlError {
    Unauthorized,
    Forbidden,
    UserNotFound(String),
    UserExists(String),
    BadCredentials,
    Message(String),
    Password(String),
}

/// Daemon errors.
#[derive(Debug)]
pub enum DaemonError {
    NotFound(VmId),
    NameTaken(String),
    IdTaken(VmId),
    MustBeStopped(VmId, String),
    IsTemplate(VmId, String),
    /// The hypervisor refuses `op` in this state.
    InvalidState(crate::types::VmState, String),
    VolumeBusy(VolumeId),
    IsoBusy(String),
    BackupNotFound(String),
    NoQuorum,
    Fenced,
    Capacity(String),
    Unschedulable(String),
    Peer(String),
    Apt(String),
    HostPower(String),
    Control(ControlError),
    Types(crate::types::TypesError),
    Storage(crate::storage::StorageError),
    Net(crate::ipam::NetError),
}

/// Power off or restart the hypervisor host.
#[derive(Clone, Copy, Debug, PartialEq, Eq, Structural)]
pub enum HostPowerAction {
    Shutdown,
    Reboot,
}

impl HostPowerAction {
    pub open spec fn spec_as_str(self) -> Seq<char> {
        match self {
            HostPowerAction::Shutdown => "shutdown"@,
            HostPowerAction::Reboot => "reboot"@,
        }
    }

    pub open spec fn spec_unit(self) -> Seq<char> {
        match self {
            HostPowerAction::Shutdown => "poweroff"@,
            HostPowerAction::Reboot => "reboot"@,
        }
    }

    pub fn as_str(self) -> (r: &'static str)
        ensures
            r@ == self.spec_as_str(),
    {
        match self {
            HostPowerAction::Shutdown => "shutdown",
            HostPowerAction::Reboot => "reboot",
        }
    }

    /// The systemd target: `poweroff` or `reboot`.
    pub fn systemd_unit(self) -> (r: &'static str)
        ensures
            r@ == self.spec_unit(),
    {
        match self {
            HostPowerAction::Shutdown => "poweroff",
            HostPowerAction::Reboot => "reboot",
        }
    }
}

/// Every occurrence of `pat` (not empty) in `s` replaced by `rep`, left to right.
pub open spec fn replace_all(s: Seq<char>, pat: Seq<char>, rep: Seq<char>) -> Seq<char>
    decreases s.len(),
{
    let k = find(s, pat);
    if pat.len() == 0 || k < 0 {
        s
    } else {
        proof {
            crate::text::lemma_find_in_range(s, pat);
        }
        s.take(k) + rep + replace_all(s.skip(k + pat.len()), pat, rep)
    }
}

pub fn replace_all_vec(s: &[char], pat: &[char], rep: &[char]) -> (r: Vec<char>)
    requires
        pat@.len() > 0,
    ensures
        r@ == replace_all(s@, pat@, rep@),
{
    let mut out: Vec<char> = Vec::new();
    let mut start: usize = 0;
    assert(s@.skip(0) =~= s@);
    loop
        invariant
            start <= s@.len(),
            pat@.len() > 0,
            replace_all(s@, pat@, rep@) == out@ + replace_all(s@.skip(start as int), pat@, rep@),
        decreases s@.len() - start,
    {
        let ghost rest = s@.skip(start as int);
        let k = find_vec_from(s, pat, start);
        proof {
            crate::text::lemma_find_from(s@, pat@, start as int);
            crate::text::lemma_find_shift(s@, pat@, start as int);
        }
        match k {
            None => {
                let tail = crate::text::slice_vec(s, start, s.len());
                assert(tail@ =~= rest);
                append_chars(&mut out, tail.as_slice());
                return out;
            },
            Some(i) => {
                assert(crate::text::occurs_at(s@, pat@, i as int));
                let plen = pat.len();
                let slen = s.len();
                assert(i + plen <= slen);
                let piece = crate::text::slice_vec(s, start, i);
                append_chars(&mut out, piece.as_slice());
                append_chars(&mut out, rep);
                proof {
                    assert(find(rest, pat@) == i - start);
                    assert(rest.take(i - start) =~= piece@);
                    assert(rest.skip(i - start + pat@.len()) =~= s@.skip(i + pat@.len()));
                }
                start = i + plen;
            },
        }
    }
}

pub open spec fn is_skip_word(t: Seq<char>) -> bool {
    t == ""@ || t == "skip"@ || t == "none"@ || t == "off"@
}

/// The host power command: none to skip (a blank, `skip`, `none` or `off` override; no
/// override when `skip_default`, as under test); an override with `{action}` replaced by the
/// systemd target, split into words; else `systemctl --no-block --no-wall <target>`.
pub open spec fn spec_host_power_argv(
    override_cmd: Option<Seq<char>>,
    action: HostPowerAction,
    skip_default: bool,
) -> Option<Seq<Seq<char>>> {
    match override_cmd {
        Some(raw) => {
            let t = trim(raw);
            if is_skip_word(t) {
                None
            } else {
                let args = words(replace_all(t, "{action}"@, action.spec_unit()));
                if args.len() == 0 {
                    None
                } else {
                    Some(args)
                }
            }
        },
        None => if skip_default {
            None
        } else {
            Some(seq!["systemctl"@, "--no-block"@, "--no-wall"@, action.spec_unit()])
        },
    }
}

pub open spec fn strings_view(v: Seq<String>) -> Seq<Seq<char>> {
    Seq::new(v.len(), |i: int| v[i]@)
}

pub open spec fn opt_str(o: Option<&str>) -> Option<Seq<char>> {
    match o {
        Some(s) => Some(s@),
        None => None,
    }
}

fn to_strings(ws: &Vec<Vec<char>>) -> (r: Vec<String>)
    ensures
        strings_view(r@) == ws.deep_view(),
{
    let mut out: Vec<String> = Vec::new();
    let mut i: usize = 0;
    while i < ws.len()
        invariant
            i <= ws.len(),
            strings_view(out@) == ws.deep_view().take(i as int),
        decreases ws.len() - i,
    {
        proof {
            crate::text::lemma_char_vec_dv(ws@[i as int]);
        }
        let ghost o0 = strings_view(out@);
        out.push(string_of(ws[i].as_slice()));
        assert(strings_view(out@) =~= o0.push(ws@[i as int]@));
        assert(ws.deep_view().take(i as int + 1) =~= ws.deep_view().take(i as int).push(ws.deep_view()[i as int]));
        assert(strings_view(out@) =~= ws.deep_view().take(i as int + 1));
        i += 1;
    }
    assert(ws.deep_view().take(ws.len() as int) =~= ws.deep_view());
    out
}

fn s(x: &str) -> (r: String)
    ensures
        r@ == x@,
{
    string_of(chars_of(x).as_slice())
}

pub fn host_power_argv(override_cmd: Option<&str>, action: HostPowerAction, skip_default: bool) -> (r:
    Option<Vec<String>>)
    ensures
        match r {
            Some(v) => spec_host_power_argv(opt_str(override_cmd), action, skip_default) == Some(
                strings_view(v@),
            ),
            None => spec_host_power_argv(opt_str(override_cmd), action, skip_default) is None,
        },
{
    match override_cmd {
        Some(raw) => {
            let t = trim_vec(chars_of(raw).as_slice());
            if crate::text::eq_str(t.as_slice(), "") || crate::text::eq_str(t.as_slice(), "skip")
                || crate::text::eq_str(t.as_slice(), "none") || crate::text::eq_str(
                t.as_slice(),
                "off",
            ) {
                return None;
            }
            let pat = chars_of("{action}");
            let rep = chars_of(action.systemd_unit());
            proof {
                reveal_strlit("{action}");
            }
            let expanded = replace_all_vec(t.as_slice(), pat.as_slice(), rep.as_slice());
            let ws = words_of(expanded.as_slice());
            if ws.len() == 0 {
                None
            } else {
                Some(to_strings(&ws))
            }
        },
        None => {
            if skip_default {
                None
            } else {
                let v = vec![s("systemctl"), s("--no-block"), s("--no-wall"), s(action.systemd_unit())];
                assert(strings_view(v@) =~= seq!["systemctl"@, "--no-block"@, "--no-wall"@, action.spec_unit()]);
                Some(v)
            }
        },
    }
}

/// Pause before the host power command: a second, or 50 ms under test.
pub fn host_power_delay_ms(testing: bool) -> (r: u64)
    ensures
        r == (if testing {
            50u64
        } else {
            1000u64
        }),
{
    if testing {
        50
    } else {
        1000
    }
}

/// The subject and body of an event mail sent by node `node`.
pub fn event_mail(node: &str, subject: &str, body: &str) -> (r: (String, String))
    ensures
        r.0@ == seq!['['] + node@ + "] "@ + subject@,
        r.1@ == body@ + "\n\n— pertisk on "@ + node@ + seq!['\n'],
{
    let mut sub = vec!['['];
    append_str(&mut sub, node);
    append_str(&mut sub, "] ");
    append_str(&mut sub, subject);
    let mut b = chars_of(body);
    append_str(&mut b, "\n\n— pertisk on ");
    append_str(&mut b, node);
    b.push('\n');
    (string_of(sub.as_slice()), string_of(b.as_slice()))
}

/// The subject and body of the test mail of node `node`.
pub fn test_mail(node: &str) -> (r: (String, String))
    ensures
        r.0@ == seq!['['] + node@ + "] Pertisk test email"@,
        r.1@ == "This is a test message from pertisk on "@ + node@
            + ".\n\nIf you received this, SMTP settings work.\n"@,
{
    let mut sub = vec!['['];
    append_str(&mut sub, node);
    append_str(&mut sub, "] Pertisk test email");
    let mut b = chars_of("This is a test message from pertisk on ");
    append_str(&mut b, node);
    append_str(&mut b, ".\n\nIf you received this, SMTP settings work.\n");
    (string_of(sub.as_slice()), string_of(b.as_slice()))
}

/// The recipients of a mail: the trimmed entries that are not blank, in order; `no
/// recipients` when none is left.
pub fn mail_recipients(raw: &Vec<String>) -> (r: Result<Vec<String>, String>)
    ensures
        match r {
            Ok(v) => v@.len() > 0 && strings_view(v@) == trimmed_nonblank(strings_view(raw@)),
            Err(m) => trimmed_nonblank(strings_view(raw@)).len() == 0 && m@ == "no recipients"@,
        },
{
    let mut out: Vec<String> = Vec::new();
    let mut i: usize = 0;
    while i < raw.len()
        invariant
            i <= raw.len(),
            strings_view(out@) == trimmed_nonblank(strings_view(raw@).take(i as int)),
        decreases raw.len() - i,
    {
        assert(strings_view(raw@).take(i as int + 1).drop_last() =~= strings_view(raw@).take(
            i as int,
        ));
        let t = trim_vec(chars_of(raw[i].as_str()).as_slice());
        if t.len() > 0 {
            let ghost o0 = strings_view(out@);
            out.push(string_of(t.as_slice()));
            assert(strings_view(out@) =~= o0.push(t@));
        }
        i += 1;
    }
    assert(strings_view(raw@).take(raw.len() as int) =~= strings_view(raw@));
    if out.len() == 0 {
        return Err(s("no recipients"));
    }
    Ok(out)
}


/// How mail is secured on the way to the SMTP server.
#[derive(Clone, Copy, Debug, PartialEq, Eq, Structural)]
pub enum SmtpTls {
    Off,
    StartTls,
    Tls,
}

pub open spec fn spec_parse_smtp_tls(raw: Seq<char>) -> Result<SmtpTls, Seq<char>> {
    let v = lower_seq(trim(raw));
    if v == "off"@ || v == "none"@ || v == "plain"@ {
        Ok(SmtpTls::Off)
    } else if v == "starttls"@ || v == "start_tls"@ {
        Ok(SmtpTls::StartTls)
    } else if v == "tls"@ || v == "ssl"@ || v == "wrapper"@ {
        Ok(SmtpTls::Tls)
    } else {
        Err("invalid smtp_tls '"@ + v + "' (expected off|starttls|tls)"@)
    }
}

/// `off`/`none`/`plain`, `starttls`/`start_tls`, or `tls`/`ssl`/`wrapper`, in any case.
pub fn parse_smtp_tls(raw: &str) -> (r: Result<SmtpTls, DaemonError>)
    ensures
        match spec_parse_smtp_tls(raw@) {
            Ok(t) => r == Ok::<SmtpTls, DaemonError>(t),
            Err(m) => r matches Err(DaemonError::Peer(e)) && e@ == m,
        },
{
    let v = lower_vec(trim_vec(chars_of(raw).as_slice()).as_slice());
    let e = |w: &str| -> (b: bool)
        ensures
            b == (v@ == w@),
        { crate::text::eq_str(v.as_slice(), w) };
    if e("off") || e("none") || e("plain") {
        Ok(SmtpTls::Off)
    } else if e("starttls") || e("start_tls") {
        Ok(SmtpTls::StartTls)
    } else if e("tls") || e("ssl") || e("wrapper") {
        Ok(SmtpTls::Tls)
    } else {
        let mut m = chars_of("invalid smtp_tls '");
        append_chars(&mut m, v.as_slice());
        append_str(&mut m, "' (expected off|starttls|tls)");
        Err(DaemonError::Peer(string_of(m.as_slice())))
    }
}

// ---------------------------------------------------------------------------
// Console text
// ---------------------------------------------------------------------------

pub open spec fn token_char(c: char) -> bool {
    is_digit(c) || c == '.'
}

pub struct TokState {
    pub done: Seq<Seq<char>>,
    pub cur: Seq<char>,
}

pub open spec fn tok_fold(s: Seq<char>) -> TokState
    decreases s.len(),
{
    if s.len() == 0 {
        TokState { done: seq![], cur: seq![] }
    } else {
        let st = tok_fold(s.drop_last());
        if token_char(s.last()) {
            TokState { cur: st.cur.push(s.last()), ..st }
        } else if st.cur.len() > 0 {
            TokState { done: st.done.push(st.cur), cur: seq![] }
        } else {
            st
        }
    }
}

/// The maximal runs of digits and dots in a line, in order (candidate IPv4 addresses).
pub open spec fn spec_ipv4_tokens(line: Seq<char>) -> Seq<Seq<char>> {
    let st = tok_fold(line);
    if st.cur.len() > 0 {
        st.done.push(st.cur)
    } else {
        st.done
    }
}

pub fn ipv4_tokens(line: &str) -> (r: Vec<String>)
    ensures
        strings_view(r@) == spec_ipv4_tokens(line@),
{
    let v = chars_of(line);
    let mut done: Vec<String> = Vec::new();
    let mut cur: Vec<char> = Vec::new();
    let mut i: usize = 0;
    assert(line@.take(0) =~= Seq::<char>::empty());
    assert(strings_view(done@) =~= Seq::<Seq<char>>::empty());
    assert(cur@ =~= Seq::<char>::empty());
    while i < v.len()
        invariant
            i <= v.len(),
            v@ == line@,
            tok_fold(line@.take(i as int)) == (TokState { done: strings_view(done@), cur: cur@ }),
        decreases v.len() - i,
    {
        proof {
            assert(line@.take(i as int + 1).drop_last() =~= line@.take(i as int));
            assert(line@.take(i as int + 1).last() == line@[i as int]);
        }
        let c = v[i];
        if ('0' <= c && c <= '9') || c == '.' {
            cur.push(c);
        } else if cur.len() > 0 {
            let ghost d0 = strings_view(done@);
            let ghost c0 = cur@;
            done.push(string_of(cur.as_slice()));
            cur = Vec::new();
            assert(strings_view(done@) =~= d0.push(c0));
        }
        i += 1;
    }
    assert(line@.take(v.len() as int) =~= line@);
    if cur.len() > 0 {
        let ghost d0 = strings_view(done@);
        let ghost c0 = cur@;
        done.push(string_of(cur.as_slice()));
        assert(strings_view(done@) =~= d0.push(c0));
    }
    done
}

// ---------------------------------------------------------------------------
// Disks
// ---------------------------------------------------------------------------

pub open spec fn name_or_empty(o: Option<Seq<char>>) -> Seq<char> {
    match o {
        Some(x) => x,
        None => seq![],
    }
}

pub open spec fn opt_string(o: Option<String>) -> Option<Seq<char>> {
    match o {
        Some(x) => Some(x@),
        None => None,
    }
}

/// A cloud-init seed ISO: its name or its file name says `cidata`, in any case.
pub open spec fn spec_iso_is_cidata(iso_name: Option<Seq<char>>, path: Seq<char>) -> bool {
    contains(lower_seq(name_or_empty(iso_name)), "cidata"@) || contains(
        lower_seq(name_or_empty(path_file_name(path))),
        "cidata"@,
    )
}

fn file_name_or_empty(path: &str) -> (r: Vec<char>)
    ensures
        r@ == name_or_empty(path_file_name(path@)),
{
    match file_name(path) {
        Some(n) => n,
        None => Vec::new(),
    }
}

pub fn iso_is_cidata(disk: &DiskSpec) -> (r: bool)
    ensures
        r == spec_iso_is_cidata(opt_string(disk.iso_name), disk.path@),
{
    let a = match &disk.iso_name {
        Some(n) => chars_of(n.as_str()),
        None => Vec::new(),
    };
    let la = lower_vec(a.as_slice());
    if contains_str(la.as_slice(), "cidata") {
        return true;
    }
    let b = file_name_or_empty(disk.path.as_str());
    let lb = lower_vec(b.as_slice());
    contains_str(lb.as_slice(), "cidata")
}

/// A Talos / metal boot ISO, by its name (or else its file name), in any case.
pub open spec fn spec_iso_is_metal(iso_name: Option<Seq<char>>, path: Seq<char>) -> bool {
    let n = lower_seq(
        match iso_name {
            Some(x) => x,
            None => name_or_empty(path_file_name(path)),
        },
    );
    contains(n, "talos"@) || contains(n, "metal-amd"@) || contains(n, "metal-arm"@)
}

pub fn iso_is_metal(disk: &DiskSpec) -> (r: bool)
    ensures
        r == spec_iso_is_metal(opt_string(disk.iso_name), disk.path@),
{
    let n = match &disk.iso_name {
        Some(x) => chars_of(x.as_str()),
        None => file_name_or_empty(disk.path.as_str()),
    };
    let l = lower_vec(n.as_slice());
    contains_str(l.as_slice(), "talos") || contains_str(l.as_slice(), "metal-amd") || contains_str(
        l.as_slice(),
        "metal-arm",
    )
}

// ---------------------------------------------------------------------------
// SSH and shells
// ---------------------------------------------------------------------------

/// Where to open an interactive SSH session.
pub struct GuestSshTarget {
    pub host: String,
    pub user: String,
    pub identity: Option<String>,
}

/// The arguments of the interactive `ssh` client for a target: a forced TTY, new host
/// keys accepted into the daemon's own known-hosts file, quiet logging, a ten-second
/// connect timeout, key then password logins, the identity when there is one, and
/// `user@host`.
pub open spec fn spec_ssh_args(host: Seq<char>, user: Seq<char>, identity: Option<Seq<char>>) -> Seq<
    Seq<char>,
> {
    let base = seq![
        "-tt"@,
        "-o"@,
        "StrictHostKeyChecking=accept-new"@,
        "-o"@,
        "UserKnownHostsFile=/var/lib/pertisk/ssh/known_hosts"@,
        "-o"@,
        "LogLevel=ERROR"@,
        "-o"@,
        "ConnectTimeout=10"@,
        "-o"@,
        "PreferredAuthentications=publickey,password,keyboard-interactive"@,
    ];
    let with_id = match identity {
        Some(i) => base + seq!["-i"@, i],
        None => base,
    };
    with_id.push(user + seq!['@'] + host)
}

fn push_s(v: &mut Vec<String>, x: String)
    ensures
        strings_view(final(v)@) == strings_view(old(v)@).push(x@),
{
    v.push(x);
    assert(strings_view(v@) =~= strings_view(old(v)@).push(x@));
}

pub fn ssh_args(target: &GuestSshTarget) -> (r: Vec<String>)
    ensures
        strings_view(r@) == spec_ssh_args(target.host@, target.user@, opt_string(target.identity)),
{
    let mut v = vec![
        s("-tt"),
        s("-o"),
        s("StrictHostKeyChecking=accept-new"),
        s("-o"),
        s("UserKnownHostsFile=/var/lib/pertisk/ssh/known_hosts"),
        s("-o"),
        s("LogLevel=ERROR"),
        s("-o"),
        s("ConnectTimeout=10"),
        s("-o"),
        s("PreferredAuthentications=publickey,password,keyboard-interactive"),
    ];
    let ghost base = strings_view(v@);
    if let Some(i) = &target.identity {
        push_s(&mut v, s("-i"));
        push_s(&mut v, s(i.as_str()));
    }
    let mut last = chars_of(target.user.as_str());
    last.push('@');
    append_str(&mut last, target.host.as_str());
    push_s(&mut v, string_of(last.as_slice()));
    proof {
        assert(last@ =~= target.user@ + seq!['@'] + target.host@);
        assert(strings_view(v@) =~= spec_ssh_args(
            target.host@,
            target.user@,
            opt_string(target.identity),
        ));
    }
    v
}

/// The environment of the interactive `ssh` client.
pub fn ssh_env() -> (r: Vec<(String, String)>)
    ensures
        r@.len() == 4,
        r@[0].0@ == "TERM"@ && r@[0].1@ == "xterm-256color"@,
        r@[1].0@ == "COLORTERM"@ && r@[1].1@ == "truecolor"@,
        r@[2].0@ == "LANG"@ && r@[2].1@ == "C.UTF-8"@,
        r@[3].0@ == "LC_ALL"@ && r@[3].1@ == "C.UTF-8"@,
{
    vec![
        (s("TERM"), s("xterm-256color")),
        (s("COLORTERM"), s("truecolor")),
        (s("LANG"), s("C.UTF-8")),
        (s("LC_ALL"), s("C.UTF-8")),
    ]
}

/// The `ssh-keygen` arguments that drop a guest's stale entry from the daemon's
/// known-hosts file; none for a blank host.
pub fn forget_host_args(host: &str) -> (r: Option<Vec<String>>)
    ensures
        match r {
            Some(a) => trim(host@).len() > 0 && strings_view(a@) == seq![
                "-f"@,
                "/var/lib/pertisk/ssh/known_hosts"@,
                "-R"@,
                trim(host@),
            ],
            None => trim(host@).len() == 0,
        },
{
    let h = trim_vec(chars_of(host).as_slice());
    if h.len() == 0 {
        return None;
    }
    let a = vec![s("-f"), s("/var/lib/pertisk/ssh/known_hosts"), s("-R"), string_of(h.as_slice())];
    assert(strings_view(a@) =~= seq!["-f"@, "/var/lib/pertisk/ssh/known_hosts"@, "-R"@, trim(host@)]);
    Some(a)
}

pub open spec fn identity_candidates() -> Seq<Seq<char>> {
    seq![
        "/etc/pertisk/ssh/id_ed25519"@,
        "/etc/pertisk/ssh/id_rsa"@,
        "/root/.ssh/id_ed25519"@,
        "/root/.ssh/id_rsa"@,
    ]
}

pub fn identity_paths() -> (r: Vec<String>)
    ensures
        strings_view(r@) == identity_candidates(),
{
    let v = vec![
        s("/etc/pertisk/ssh/id_ed25519"),
        s("/etc/pertisk/ssh/id_rsa"),
        s("/root/.ssh/id_ed25519"),
        s("/root/.ssh/id_rsa"),
    ];
    assert(strings_view(v@) =~= identity_candidates());
    v
}

/// The first first-present path of `candidates` (`present[i]`: whether file `i` exists).
pub fn first_present(candidates: &Vec<String>, present: &Vec<bool>) -> (r: Option<String>)
    ensures
        match r {
            Some(p) => exists|i: int|
                0 <= i < candidates@.len() && i < present@.len() && present@[i] && p@
                    == candidates@[i]@ && forall|j: int|
                    0 <= j < i && j < present@.len() ==> !present@[j],
            None => forall|i: int|
                0 <= i < candidates@.len() && i < present@.len() ==> !present@[i],
        },
{
    let mut i: usize = 0;
    while i < candidates.len() && i < present.len()
        invariant
            i <= candidates.len(),
            forall|j: int| 0 <= j < i && j < present@.len() ==> !present@[j],
        decreases candidates.len() - i,
    {
        if present[i] {
            return Some(s(candidates[i].as_str()));
        }
        i += 1;
    }
    None
}

/// The node's SSH identity for guests: the first of the standard key files that exists.
pub fn find_identity(present: &Vec<bool>) -> (r: Option<String>)
    ensures
        match r {
            Some(p) => exists|i: int|
                0 <= i < 4 && i < present@.len() && present@[i] && p@ == identity_candidates()[i]
                    && forall|j: int| 0 <= j < i && j < present@.len() ==> !present@[j],
            None => forall|i: int| 0 <= i < 4 && i < present@.len() ==> !present@[i],
        },
{
    let c = identity_paths();
    assert(identity_candidates().len() == 4);
    assert(strings_view(c@).len() == c@.len());
    assert(c@.len() == 4);
    let r = first_present(&c, present);
    proof {
        match &r {
            Some(p) => {
                let i = choose|i: int|
                    0 <= i < c@.len() && i < present@.len() && present@[i] && p@ == c@[i]@ && forall|j: int|
                        0 <= j < i && j < present@.len() ==> !present@[j];
                assert(c@[i]@ == strings_view(c@)[i]);
                assert(p@ == identity_candidates()[i]);
                assert(0 <= i < 4 && i < present@.len() && present@[i]);
            },
            None => {},
        }
    }
    r
}

/// The node's public key: the first trimmed line of the `.pub` file that starts with
/// `ssh-` or `ecdsa-`.
pub open spec fn spec_public_key_from(ls: Seq<Seq<char>>) -> Option<Seq<char>>
    decreases ls.len(),
{
    if ls.len() == 0 {
        None
    } else if starts_with(trim(ls[0]), "ssh-"@) || starts_with(trim(ls[0]), "ecdsa-"@) {
        Some(trim(ls[0]))
    } else {
        spec_public_key_from(ls.drop_first())
    }
}

pub fn public_key_from(text: &str) -> (r: Option<String>)
    ensures
        opt_string(r) == spec_public_key_from(crate::text::lines(text@)),
{
    let ls = crate::text::lines_of(chars_of(text).as_slice());
    let ghost ld = ls.deep_view();
    let mut i: usize = 0;
    assert(ld.skip(0) =~= ld);
    while i < ls.len()
        invariant
            i <= ls.len(),
            ld == ls.deep_view(),
            ld == crate::text::lines(text@),
            spec_public_key_from(ld) == spec_public_key_from(ld.skip(i as int)),
        decreases ls.len() - i,
    {
        proof {
            crate::text::lemma_char_vec_dv(ls@[i as int]);
            assert(ld.skip(i as int)[0] == ld[i as int]);
            assert(ld.skip(i as int).drop_first() =~= ld.skip(i as int + 1));
        }
        let t = trim_vec(ls[i].as_slice());
        if starts_with_str(t.as_slice(), "ssh-") || starts_with_str(t.as_slice(), "ecdsa-") {
            return Some(string_of(t.as_slice()));
        }
        i += 1;
    }
    None
}

/// The login shell for the host terminal: the first present of bash and sh, else `/bin/sh`.
pub fn shell_bin(present: &Vec<bool>) -> (r: String)
    ensures
        r@ == (if exists|i: int| 0 <= i < 4 && i < present@.len() && present@[i] {
            seq!["/bin/bash"@, "/usr/bin/bash"@, "/bin/sh"@, "/usr/bin/sh"@][choose|i: int|
                0 <= i < 4 && i < present@.len() && present@[i] && forall|j: int|
                    0 <= j < i ==> !present@[j]]
        } else {
            "/bin/sh"@
        }),
{
    let c = vec![s("/bin/bash"), s("/usr/bin/bash"), s("/bin/sh"), s("/usr/bin/sh")];
    let ghost names = seq!["/bin/bash"@, "/usr/bin/bash"@, "/bin/sh"@, "/usr/bin/sh"@];
    assert(strings_view(c@) =~= names);
    match first_present(&c, present) {
        Some(p) => {
            proof {
                let i = choose|i: int|
                    0 <= i < c@.len() && i < present@.len() && present@[i] && p@ == c@[i]@ && forall|j: int|
                        0 <= j < i && j < present@.len() ==> !present@[j];
                let k = choose|k: int|
                    0 <= k < 4 && k < present@.len() && present@[k] && forall|j: int| 0 <= j < k ==> !present@[j];
                assert(c@[i]@ == names[i]);
                if k < i {
                    assert(!present@[k]);
                } else if i < k {
                    assert(!present@[i]);
                }
            }
            p
        },
        None => s("/bin/sh"),
    }
}

/// A signed-in API user.
#[derive(Debug)]
pub struct AuthUser {
    pub id: String,
    pub username: String,
    pub role: Role,
}

// ---------------------------------------------------------------------------
// Counters between samples
// ---------------------------------------------------------------------------

/// Cumulative counters of one sampled object at one instant.
#[derive(Clone, Copy, Debug, PartialEq, Eq, Structural)]
pub struct Counters {
    pub cpu_busy: u64,
    pub cpu_total: u64,
    pub net_rx: u64,
    pub net_tx: u64,
    pub at_ms: u64,
}

/// The previous counters of each sampled object (the host, each VM), by key.
pub struct MetricsCache {
    pub prev: Vec<(String, Counters)>,
}

pub open spec fn cache_keys(v: Seq<(String, Counters)>) -> Seq<Seq<char>> {
    Seq::new(v.len(), |i: int| v[i].0@)
}

impl MetricsCache {
    /// One entry per key.
    pub open spec fn wf(&self) -> bool {
        forall|i: int, j: int|
            0 <= i < j < self.prev@.len() ==> (#[trigger] self.prev@[i]).0@ != (#[trigger] self.prev@[j]).0@
    }

    /// The counters stored under each key.
    pub open spec fn view_map(&self) -> Map<Seq<char>, Counters> {
        Map::new(
            |k: Seq<char>| exists|i: int| 0 <= i < self.prev@.len() && self.prev@[i].0@ == k,
            |k: Seq<char>|
                self.prev@[choose|i: int| 0 <= i < self.prev@.len() && self.prev@[i].0@ == k].1,
        )
    }

    pub fn new() -> (r: MetricsCache)
        ensures
            r.wf(),
            r.view_map() == Map::<Seq<char>, Counters>::empty(),
    {
        let r = MetricsCache { prev: Vec::new() };
        assert(r.view_map() =~= Map::<Seq<char>, Counters>::empty());
        r
    }

    fn index_of(&self, key: &str) -> (r: Option<usize>)
        requires
            self.wf(),
        ensures
            match r {
                Some(i) => i < self.prev@.len() && self.prev@[i as int].0@ == key@,
                None => forall|i: int| 0 <= i < self.prev@.len() ==> self.prev@[i].0@ != key@,
            },
    {
        let kv = chars_of(key);
        let mut i: usize = 0;
        while i < self.prev.len()
            invariant
                i <= self.prev.len(),
                kv@ == key@,
                forall|j: int| 0 <= j < i ==> self.prev@[j].0@ != key@,
            decreases self.prev.len() - i,
        {
            let c = chars_of(self.prev[i].0.as_str());
            if crate::text::chars_eq(c.as_slice(), kv.as_slice()) {
                return Some(i);
            }
            i += 1;
        }
        None
    }

    /// The previous counters under `key`.
    pub fn get(&self, key: &str) -> (r: Option<Counters>)
        requires
            self.wf(),
        ensures
            match r {
                Some(c) => self.view_map().dom().contains(key@) && self.view_map()[key@] == c,
                None => !self.view_map().dom().contains(key@),
            },
    {
        match self.index_of(key) {
            Some(i) => {
                proof {
                    let j = choose|j: int| 0 <= j < self.prev@.len() && self.prev@[j].0@ == key@;
                    assert(j == i as int) by {
                        if j != i as int {
                            if j < i as int {
                                assert(self.prev@[j].0@ != self.prev@[i as int].0@);
                            } else {
                                assert(self.prev@[i as int].0@ != self.prev@[j].0@);
                            }
                        }
                    }
                }
                Some(self.prev[i].1)
            },
            None => None,
        }
    }

    /// Store `c` under `key`, replacing what was there.
    pub fn insert(&mut self, key: &str, c: Counters)
        requires
            old(self).wf(),
        ensures
            final(self).wf(),
            final(self).view_map() == old(self).view_map().insert(key@, c),
    {
        let ghost m0 = self.view_map();
        match self.index_of(key) {
            Some(i) => {
                let k = s(key);
                self.prev.set(i, (k, c));
                proof {
                    assert forall|a: int, b: int|
                        0 <= a < b < self.prev@.len() implies (#[trigger] self.prev@[a]).0@ != (#[trigger] self.prev@[b]).0@ by {
                        assert(old(self).prev@[a].0@ != old(self).prev@[b].0@ || a == b);
                    }
                    assert forall|k2: Seq<char>| #[trigger] self.view_map().dom().contains(k2) == m0.insert(key@, c).dom().contains(k2) by {
                        if m0.dom().contains(k2) && k2 != key@ {
                            let j = choose|j: int| 0 <= j < old(self).prev@.len() && old(self).prev@[j].0@ == k2;
                            assert(self.prev@[j].0@ == k2);
                        }
                        if k2 == key@ {
                            assert(self.prev@[i as int].0@ == k2);
                        }
                    }
                    assert forall|k2: Seq<char>| #[trigger] self.view_map().dom().contains(k2) implies self.view_map()[k2] == m0.insert(key@, c)[k2] by {
                        let j = choose|j: int| 0 <= j < self.prev@.len() && self.prev@[j].0@ == k2;
                        if k2 == key@ {
                            if j != i as int {
                                if j < i as int {
                                    assert(self.prev@[j].0@ != self.prev@[i as int].0@);
                                } else {
                                    assert(self.prev@[i as int].0@ != self.prev@[j].0@);
                                }
                            }
                        } else {
                            let j0 = choose|j0: int| 0 <= j0 < old(self).prev@.len() && old(self).prev@[j0].0@ == k2;
                            assert(self.prev@[j0].0@ == k2);
                            if j != j0 {
                                if j < j0 {
                                    assert(self.prev@[j].0@ != self.prev@[j0].0@);
                                } else {
                                    assert(self.prev@[j0].0@ != self.prev@[j].0@);
                                }
                            }
                        }
                    }
                    assert(self.view_map() =~= m0.insert(key@, c));
                }
            },
            None => {
                let k = s(key);
                self.prev.push((k, c));
                proof {
                    let n = old(self).prev@.len();
                    assert forall|a: int, b: int|
                        0 <= a < b < self.prev@.len() implies (#[trigger] self.prev@[a]).0@ != (#[trigger] self.prev@[b]).0@ by {
                        if b == n {
                            assert(old(self).prev@[a].0@ != key@);
                        } else {
                            assert(old(self).prev@[a].0@ != old(self).prev@[b].0@);
                        }
                    }
                    assert forall|k2: Seq<char>| #[trigger] self.view_map().dom().contains(k2) == m0.insert(key@, c).dom().contains(k2) by {
                        if m0.dom().contains(k2) {
                            let j = choose|j: int| 0 <= j < old(self).prev@.len() && old(self).prev@[j].0@ == k2;
                            assert(self.prev@[j].0@ == k2);
                        }
                        if k2 == key@ {
                            assert(self.prev@[n as int].0@ == k2);
                        }
                        if self.view_map().dom().contains(k2) && k2 != key@ {
                            let j = choose|j: int| 0 <= j < self.prev@.len() && self.prev@[j].0@ == k2;
                            assert(j < n);
                            assert(old(self).prev@[j].0@ == k2);
                        }
                    }
                    assert forall|k2: Seq<char>| #[trigger] self.view_map().dom().contains(k2) implies self.view_map()[k2] == m0.insert(key@, c)[k2] by {
                        let j = choose|j: int| 0 <= j < self.prev@.len() && self.prev@[j].0@ == k2;
                        if k2 == key@ {
                            if j < n {
                                assert(old(self).prev@[j].0@ != key@);
                            }
                        } else {
                            assert(j < n);
                            let j0 = choose|j0: int| 0 <= j0 < old(self).prev@.len() && old(self).prev@[j0].0@ == k2;
                            if j != j0 {
                                if j < j0 {
                                    assert(old(self).prev@[j].0@ != old(self).prev@[j0].0@);
                                } else {
                                    assert(old(self).prev@[j0].0@ != old(self).prev@[j].0@);
                                }
                            }
                        }
                    }
                    assert(self.view_map() =~= m0.insert(key@, c));
                }
            },
        }
    }
}

// ---------------------------------------------------------------------------
// Installer boot decisions
// ---------------------------------------------------------------------------

pub open spec fn disk_views_cidata(disks: Seq<DiskSpec>, i: int) -> bool {
    spec_iso_is_cidata(opt_string(disks[i].iso_name), disks[i].path@)
}

/// The installer medium of a guest: its first CD-ROM that is not a cloud-init seed.
pub fn installer_disk(disks: &Vec<DiskSpec>) -> (r: Option<usize>)
    ensures
        match r {
            Some(i) => i < disks@.len() && disks@[i as int].cdrom && !disk_views_cidata(disks@, i as int)
                && forall|j: int| 0 <= j < i ==> !(disks@[j].cdrom && !disk_views_cidata(disks@, j)),
            None => forall|j: int|
                0 <= j < disks@.len() ==> !(disks@[j].cdrom && !disk_views_cidata(disks@, j)),
        },
{
    let mut i: usize = 0;
    while i < disks.len()
        invariant
            i <= disks.len(),
            forall|j: int| 0 <= j < i ==> !(disks@[j].cdrom && !disk_views_cidata(disks@, j)),
        decreases disks.len() - i,
    {
        if disks[i].cdrom && !iso_is_cidata(&disks[i]) {
            return Some(i);
        }
        i += 1;
    }
    None
}

/// Guest memory an installer needs: 2 GiB for Talos (`talos.platform=` on its command
/// line), else eight times its initramfs, at least 1 GiB.
pub open spec fn spec_installer_memory(initrd_mib: u32, cmdline: Seq<char>) -> nat {
    if contains(cmdline, "talos.platform="@) {
        2048
    } else if initrd_mib * 8 > 1024 {
        (initrd_mib * 8) as nat
    } else {
        1024
    }
}

pub fn installer_memory_mib(initrd_mib: u32, cmdline: &str) -> (r: u32)
    requires
        initrd_mib * 8 <= u32::MAX,
    ensures
        r as nat == spec_installer_memory(initrd_mib, cmdline@),
{
    if contains_str(chars_of(cmdline).as_slice(), "talos.platform=") {
        2048
    } else if initrd_mib * 8 > 1024 {
        initrd_mib * 8
    } else {
        1024
    }
}

/// Refuse an installer boot when the guest has less memory than it needs.
pub fn check_installer_memory(name: &str, initrd_mib: u32, needed: u32, memory_mib: u32) -> (r:
    Result<(), crate::types::TypesError>)
    ensures
        memory_mib >= needed ==> r is Ok,
        memory_mib < needed ==> (r matches Err(crate::types::TypesError::InvalidSpec(m)) && m@ == name@
            + " boots a "@ + crate::text::dec(initrd_mib as nat) + " MiB initramfs and needs at least "@
            + crate::text::dec(needed as nat)
            + " MiB of guest memory (VM has "@ + crate::text::dec(memory_mib as nat)
            + "); Linux installers realistically want 2048+ MiB"@),
{
    if memory_mib >= needed {
        return Ok(());
    }
    let mut m = chars_of(name);
    append_str(&mut m, " boots a ");
    append_chars(&mut m, crate::text::dec_vec(initrd_mib as u64).as_slice());
    append_str(&mut m, " MiB initramfs and needs at least ");
    append_chars(&mut m, crate::text::dec_vec(needed as u64).as_slice());
    append_str(&mut m, " MiB of guest memory (VM has ");
    append_chars(&mut m, crate::text::dec_vec(memory_mib as u64).as_slice());
    append_str(&mut m, "); Linux installers realistically want 2048+ MiB");
    Err(crate::types::TypesError::InvalidSpec(string_of(m.as_slice())))
}

/// What follows when an installer ISO offered no kernel to boot directly: a Talos/metal
/// image cannot boot through the firmware, so that is refused; any other ISO is left to
/// the firmware.
pub fn check_iso_without_kernel(name: &str, metal: bool) -> (r: Result<(), crate::types::TypesError>)
    ensures
        !metal ==> r is Ok,
        metal ==> (r matches Err(crate::types::TypesError::InvalidSpec(m)) && m@ == name@
            + " is a Talos/metal ISO but no /boot/vmlinuz was found to kernel-boot; OVMF cannot load the ~100MiB UKI and drops to the EFI shell"@),
{
    if !metal {
        return Ok(());
    }
    let mut m = chars_of(name);
    append_str(
        &mut m,
        " is a Talos/metal ISO but no /boot/vmlinuz was found to kernel-boot; OVMF cannot load the ~100MiB UKI and drops to the EFI shell",
    );
    Err(crate::types::TypesError::InvalidSpec(string_of(m.as_slice())))
}

/// Whether a guest should be recreated to boot from its disk: it still carries an
/// installer medium and a disk looks installed (`installed`).
pub fn prefer_disk_recreate(disks: &Vec<DiskSpec>, installed: bool) -> (r: bool)
    ensures
        r == (installed && exists|j: int|
            0 <= j < disks@.len() && #[trigger] disks@[j].cdrom && !disk_views_cidata(disks@, j)),
{
    let found = installer_disk(disks);
    proof {
        if let Some(i) = found {
            assert(disks@[i as int].cdrom);
        }
    }
    installed && found.is_some()
}

/// Which disks stay in the boot configuration: all of them unless a disk looks installed
/// (`installed`); then installer ISOs drop out, except cloud-init seeds and Talos/metal
/// media, which must stay to be kernel-booted.
pub fn disk_boot_keep(disks: &Vec<DiskSpec>, installed: bool) -> (r: Vec<bool>)
    ensures
        r@.len() == disks@.len(),
        forall|i: int|
            0 <= i < disks@.len() ==> #[trigger] r@[i] == (!installed || !disks@[i].cdrom
                || disk_views_cidata(disks@, i) || spec_iso_is_metal(
                opt_string(disks@[i].iso_name),
                disks@[i].path@,
            )),
{
    let mut out: Vec<bool> = Vec::new();
    let mut i: usize = 0;
    while i < disks.len()
        invariant
            i <= disks.len(),
            out@.len() == i,
            forall|k: int|
                0 <= k < i ==> #[trigger] out@[k] == (!installed || !disks@[k].cdrom
                    || disk_views_cidata(disks@, k) || spec_iso_is_metal(
                    opt_string(disks@[k].iso_name),
                    disks@[k].path@,
                )),
        decreases disks.len() - i,
    {
        let d = &disks[i];
        let keep = !installed || !d.cdrom || iso_is_cidata(d) || iso_is_metal(d);
        out.push(keep);
        i += 1;
    }
    out
}


// ---------------------------------------------------------------------------
// How a guest boots
// ---------------------------------------------------------------------------

/// The first step in choosing how a guest boots.
#[derive(Debug, PartialEq, Eq)]
pub enum BootPlan {
    /// Boot as the spec says: a kernel is set, or the driver is the mock one.
    AsIs,
    /// Cloud Hypervisor, whose firmware cannot load a Secure Boot shim: try kernel-booting
    /// disk `disk` (the first that is not a CD-ROM) first, then an installer ISO.
    DiskFirst { disk: usize },
    /// Look for an installer ISO to kernel-boot.
    Installer,
}

/// Index of the first disk that is no CD-ROM, or -1.
pub open spec fn first_hard_disk(disks: Seq<DiskSpec>) -> int
    decreases disks.len(),
{
    if disks.len() == 0 {
        -1
    } else if first_hard_disk(disks.drop_last()) >= 0 {
        first_hard_disk(disks.drop_last())
    } else if !disks.last().cdrom {
        disks.len() - 1
    } else {
        -1
    }
}

proof fn lemma_first_hard_disk(disks: Seq<DiskSpec>)
    ensures
        -1 <= first_hard_disk(disks) < disks.len(),
        first_hard_disk(disks) >= 0 ==> !disks[first_hard_disk(disks)].cdrom && forall|j: int|
            0 <= j < first_hard_disk(disks) ==> disks[j].cdrom,
        first_hard_disk(disks) < 0 ==> forall|j: int| 0 <= j < disks.len() ==> disks[j].cdrom,
    decreases disks.len(),
{
    if disks.len() > 0 {
        let d = disks.drop_last();
        lemma_first_hard_disk(d);
        assert(forall|j: int| 0 <= j < d.len() ==> d[j] == disks[j]);
    }
}

/// How to start choosing a guest's boot (see `BootPlan`).
#[verifier::loop_isolation(false)]
pub fn boot_plan(spec: &crate::types::VmSpec, driver: crate::types::DriverKind) -> (r: BootPlan)
    ensures
        (spec.kernel is Some || driver == crate::types::DriverKind::Mock) ==> r == BootPlan::AsIs,
        !(spec.kernel is Some || driver == crate::types::DriverKind::Mock) ==> (if driver
            == crate::types::DriverKind::CloudHypervisor && first_hard_disk(spec.disks@) >= 0 {
            r == BootPlan::DiskFirst { disk: first_hard_disk(spec.disks@) as usize }
        } else {
            r == BootPlan::Installer
        }),
{
    if spec.kernel.is_some() {
        return BootPlan::AsIs;
    }
    match driver {
        crate::types::DriverKind::Mock => BootPlan::AsIs,
        crate::types::DriverKind::Qemu => BootPlan::Installer,
        crate::types::DriverKind::CloudHypervisor => {
            proof {
                lemma_first_hard_disk(spec.disks@);
            }
            let mut i: usize = 0;
            while i < spec.disks.len()
                invariant
                    i <= spec.disks@.len(),
                    forall|j: int| 0 <= j < i ==> spec.disks@[j].cdrom,
                    -1 <= first_hard_disk(spec.disks@) < spec.disks@.len(),
                    first_hard_disk(spec.disks@) >= 0 ==> !spec.disks@[first_hard_disk(
                        spec.disks@,
                    )].cdrom && forall|j: int|
                        0 <= j < first_hard_disk(spec.disks@) ==> spec.disks@[j].cdrom,
                    first_hard_disk(spec.disks@) < 0 ==> forall|j: int|
                        0 <= j < spec.disks@.len() ==> spec.disks@[j].cdrom,
                decreases spec.disks.len() - i,
            {
                if !spec.disks[i].cdrom {
                    proof {
                        let f = first_hard_disk(spec.disks@);
                        if f < 0 {
                            assert(spec.disks@[i as int].cdrom);
                        } else if f < i {
                            assert(spec.disks@[f].cdrom);
                        } else if f > i {
                            assert(spec.disks@[i as int].cdrom);
                        }
                    }
                    return BootPlan::DiskFirst { disk: i };
                }
                i += 1;
            }
            BootPlan::Installer
        },
    }
}

/// The installer ISO to kernel-boot, if any: the first CD-ROM that is no cloud-init seed;
/// none when another disk already holds an installed system (`bootable`, per disk),
/// unless the ISO is a Talos/metal image (whose firmware boot fails).
#[verifier::loop_isolation(false)]
pub fn installer_choice(disks: &Vec<DiskSpec>, bootable: &Vec<bool>) -> (r: Option<usize>)
    requires
        bootable@.len() == disks@.len(),
    ensures
        ({
            let installed = exists|j: int| 0 <= j < disks@.len() && !(#[trigger] disks@[j]).cdrom && bootable@[j];
            match r {
                Some(i) => i < disks@.len() && disks@[i as int].cdrom && !disk_views_cidata(disks@, i as int)
                    && (forall|j: int| 0 <= j < i ==> !(disks@[j].cdrom && !disk_views_cidata(disks@, j)))
                    && (spec_iso_is_metal(opt_string(disks@[i as int].iso_name), disks@[i as int].path@) || !installed),
                None => (forall|j: int|
                    0 <= j < disks@.len() ==> !(disks@[j].cdrom && !disk_views_cidata(disks@, j)))
                    || (exists|i: int| 0 <= i < disks@.len() && disks@[i].cdrom && !disk_views_cidata(disks@, i)
                    && (forall|j: int| 0 <= j < i ==> !(disks@[j].cdrom && !disk_views_cidata(disks@, j)))
                    && !spec_iso_is_metal(opt_string(disks@[i].iso_name), disks@[i].path@) && installed),
            }
        }),
{
    let d = match installer_disk(disks) {
        Some(d) => d,
        None => {
            return None;
        },
    };
    if iso_is_metal(&disks[d]) {
        return Some(d);
    }
    let mut j: usize = 0;
    while j < disks.len()
        invariant
            j <= disks@.len(),
            bootable@.len() == disks@.len(),
            forall|k: int| 0 <= k < j ==> !(!(#[trigger] disks@[k]).cdrom && bootable@[k]),
        decreases disks.len() - j,
    {
        if !disks[j].cdrom && bootable[j] {
            assert(!disks@[j as int].cdrom && bootable@[j as int]);
            return None;
        }
        j += 1;
    }
    Some(d)
}

/// `Path::file_stem`: the file name without its last extension; a name whose only dot
/// leads keeps it; none for no file name.
pub open spec fn file_stem(p: Seq<char>) -> Option<Seq<char>> {
    match crate::disk_boot::path_file_name(p) {
        None => None,
        Some(n) => {
            let k = crate::text::rfind(n, seq!['.']);
            if k <= 0 {
                Some(n)
            } else {
                Some(n.take(k))
            }
        },
    }
}

fn file_stem_of(p: &str) -> (r: Option<Vec<char>>)
    ensures
        match file_stem(p@) {
            Some(s) => r matches Some(v) && v@ == s,
            None => r is None,
        },
{
    let n = crate::disk_boot::file_name(p)?;
    let dot = vec!['.'];
    assert(dot@ =~= seq!['.']);
    match crate::text::rfind_vec(n.as_slice(), dot.as_slice()) {
        None => Some(n),
        Some(k) => {
            if k == 0 {
                Some(n)
            } else {
                proof {
                    assert(k as int == crate::text::rfind(n@, seq!['.']));
                    crate::text::lemma_rfind_to(n@, seq!['.'], n@.len() - 1);
                }
                let v = crate::text::slice_vec(n.as_slice(), 0, k);
                assert(v@ =~= n@.take(k as int));
                Some(v)
            }
        },
    }
}

/// The directory name a disk's kernel-boot files go under: its volume's id, else its
/// file's stem, else `disk`.
pub fn disk_boot_dir_name(disk: &DiskSpec) -> (r: String)
    ensures
        r@ == (match disk.volume_id {
            Some(id) => crate::ids::uuid_text(id.0),
            None => match file_stem(disk.path@) {
                Some(s) => s,
                None => "disk"@,
            },
        }),
{
    match disk.volume_id {
        Some(id) => crate::ids::uuid_string(id.0),
        None => match file_stem_of(disk.path.as_str()) {
            Some(v) => string_of(v.as_slice()),
            None => string_of(chars_of("disk").as_slice()),
        },
    }
}

/// The directory name an installer ISO's kernel-boot files go under: the stem of its
/// image's name, else `iso`.
pub fn iso_boot_dir_name(iso_name: &Option<String>) -> (r: String)
    ensures
        r@ == (match opt_string(*iso_name) {
            Some(n) => match file_stem(n) {
                Some(s) => s,
                None => "iso"@,
            },
            None => "iso"@,
        }),
{
    match iso_name {
        Some(n) => match file_stem_of(n.as_str()) {
            Some(v) => string_of(v.as_slice()),
            None => string_of(chars_of("iso").as_slice()),
        },
        None => string_of(chars_of("iso").as_slice()),
    }
}

/// The spec after kernel-boot files were prepared: their kernel and initramfs, and their
/// command line unless the spec has one.
pub fn with_kernel_boot(
    spec: crate::types::VmSpec,
    kernel: String,
    initramfs: String,
    cmdline: String,
) -> (r: crate::types::VmSpec)
    ensures
        r == (crate::types::VmSpec {
            kernel: Some(kernel),
            initramfs: Some(initramfs),
            cmdline: if spec.cmdline is Some {
                spec.cmdline
            } else {
                Some(cmdline)
            },
            ..spec
        }),
{
    let mut r = spec;
    r.kernel = Some(kernel);
    r.initramfs = Some(initramfs);
    if r.cmdline.is_none() {
        r.cmdline = Some(cmdline);
    }
    r
}

}
