//! Mail notification settings: how an update request changes them, how they are shown
//! (never with the SMTP password), and the texts of the event mails.
use std::collections::HashMap;

use vstd::prelude::*;

use crate::cluster::ClusterMemberStatus;
use crate::host::{parse_smtp_tls, spec_parse_smtp_tls, strings_view, DaemonError, SmtpTls};
use crate::ids::{uuid_text, NodeId, VmId};
use crate::text::{
    append_str, chars_of, split_char, split_on, string_of, trim, trim_vec, trimmed_nonblank,
};
use crate::types::VmState;

verus! {

/// Where and how event mails are sent.
#[derive(Debug, PartialEq, Eq)]
pub struct NotifyConfig {
    pub enabled: bool,
    pub smtp_host: String,
    pub smtp_port: u16,
    pub smtp_tls: SmtpTls,
    pub smtp_user: String,
    pub smtp_password: String,
    pub from: String,
    pub recipients: Vec<String>,
    pub events: Vec<String>,
}

/// A settings change: each field given replaces the one in the configuration.
#[derive(Debug)]
pub struct NotifyUpdate {
    pub enabled: Option<bool>,
    pub smtp_host: Option<String>,
    pub smtp_port: Option<u16>,
    pub smtp_tls: Option<String>,
    pub smtp_user: Option<String>,
    pub smtp_password: Option<String>,
    pub from: Option<String>,
    pub recipients: Option<Vec<String>>,
    pub events: Option<Vec<String>>,
}

/// The notification settings as the API shows them: the password only as whether one
/// is set.
#[derive(Debug, PartialEq, Eq)]
pub struct NotifySettingsView {
    pub enabled: bool,
    pub smtp_host: String,
    pub smtp_port: u16,
    pub smtp_tls: String,
    pub smtp_user: String,
    pub smtp_password: String,
    pub smtp_password_set: bool,
    pub from: String,
    pub recipients: Vec<String>,
    pub events: Vec<String>,
}

impl SmtpTls {
    pub open spec fn spec_as_str(self) -> Seq<char> {
        match self {
            SmtpTls::Off => "off"@,
            SmtpTls::StartTls => "starttls"@,
            SmtpTls::Tls => "tls"@,
        }
    }

    /// The setting's name, as `parse_smtp_tls` reads it back.
    pub fn as_str(self) -> (r: String)
        ensures
            r@ == self.spec_as_str(),
    {
        match self {
            SmtpTls::Off => string_of(chars_of("off").as_slice()),
            SmtpTls::StartTls => string_of(chars_of("starttls").as_slice()),
            SmtpTls::Tls => string_of(chars_of("tls").as_slice()),
        }
    }
}

// ---------------------------------------------------------------------------
// Recipients
// ---------------------------------------------------------------------------

/// A line with each `;` and line break read as a comma.
pub open spec fn as_commas(s: Seq<char>) -> Seq<char> {
    s.map_values(|c: char| if c == ';' || c == '\n' {
        ','
    } else {
        c
    })
}

/// The addresses of a list of lines: each line split at `,`, `;` and line breaks, the
/// trimmed non-blank pieces, in order.
pub open spec fn recipient_addresses(lines: Seq<Seq<char>>) -> Seq<Seq<char>>
    decreases lines.len(),
{
    if lines.len() == 0 {
        seq![]
    } else {
        recipient_addresses(lines.drop_last()) + trimmed_nonblank(
            split_char(as_commas(lines.last()), ','),
        )
    }
}

fn push_trimmed_pieces(out: &mut Vec<String>, pieces: &Vec<Vec<char>>)
    ensures
        strings_view(final(out)@) == strings_view(old(out)@) + trimmed_nonblank(
            pieces.deep_view(),
        ),
{
    let ghost start = strings_view(out@);
    let mut i: usize = 0;
    while i < pieces.len()
        invariant
            i <= pieces.len(),
            strings_view(out@) == start + trimmed_nonblank(pieces.deep_view().take(i as int)),
        decreases pieces.len() - i,
    {
        proof {
            crate::text::lemma_char_vec_dv(pieces@[i as int]);
            assert(pieces.deep_view().take(i as int + 1).drop_last() =~= pieces.deep_view().take(
                i as int,
            ));
        }
        let t = trim_vec(pieces[i].as_slice());
        if t.len() > 0 {
            let ghost before = out@;
            out.push(string_of(t.as_slice()));
            assert(strings_view(out@) =~= strings_view(before).push(t@));
        }
        i += 1;
    }
    assert(pieces.deep_view().take(pieces.len() as int) =~= pieces.deep_view());
}

/// The addresses of the recipient lines of a settings update.
pub fn split_recipient_lines(lines: &Vec<String>) -> (r: Vec<String>)
    ensures
        strings_view(r@) == recipient_addresses(strings_view(lines@)),
{
    let mut out: Vec<String> = Vec::new();
    let mut i: usize = 0;
    while i < lines.len()
        invariant
            i <= lines.len(),
            strings_view(out@) == recipient_addresses(strings_view(lines@).take(i as int)),
        decreases lines.len() - i,
    {
        let src = chars_of(lines[i].as_str());
        let mut mapped: Vec<char> = Vec::new();
        let mut j: usize = 0;
        while j < src.len()
            invariant
                j <= src.len(),
                mapped@ == as_commas(src@.take(j as int)),
            decreases src.len() - j,
        {
            let c = src[j];
            mapped.push(
                if c == ';' || c == '\n' {
                    ','
                } else {
                    c
                },
            );
            assert(mapped@ =~= as_commas(src@.take(j as int + 1)));
            j += 1;
        }
        assert(src@.take(src.len() as int) =~= src@);
        let pieces = split_on(mapped.as_slice(), ',');
        push_trimmed_pieces(&mut out, &pieces);
        assert(strings_view(lines@).take(i as int + 1).drop_last() =~= strings_view(lines@).take(
            i as int,
        ));
        i += 1;
    }
    assert(strings_view(lines@).take(lines.len() as int) =~= strings_view(lines@));
    out
}

fn trimmed_nonblank_strings(raw: &Vec<String>) -> (r: Vec<String>)
    ensures
        strings_view(r@) == trimmed_nonblank(strings_view(raw@)),
{
    let mut out: Vec<String> = Vec::new();
    let mut i: usize = 0;
    while i < raw.len()
        invariant
            i <= raw.len(),
            strings_view(out@) == trimmed_nonblank(strings_view(raw@).take(i as int)),
        decreases raw.len() - i,
    {
        assert(strings_view(raw@).take(i as int + 1).drop_last() =~= strings_view(raw@).take(
            i as int,
        ));
        let t = trim_vec(chars_of(raw[i].as_str()).as_slice());
        if t.len() > 0 {
            let ghost before = out@;
            out.push(string_of(t.as_slice()));
            assert(strings_view(out@) =~= strings_view(before).push(t@));
        }
        i += 1;
    }
    assert(strings_view(raw@).take(raw.len() as int) =~= strings_view(raw@));
    out
}

fn trimmed_string(s: &str) -> (r: String)
    ensures
        r@ == trim(s@),
{
    string_of(trim_vec(chars_of(s).as_slice()).as_slice())
}

fn copy_strings(v: &Vec<String>) -> (r: Vec<String>)
    ensures
        strings_view(r@) == strings_view(v@),
{
    let mut out: Vec<String> = Vec::new();
    let mut i: usize = 0;
    while i < v.len()
        invariant
            i <= v.len(),
            strings_view(out@) == strings_view(v@).take(i as int),
        decreases v.len() - i,
    {
        let x = string_of(chars_of(v[i].as_str()).as_slice());
        let ghost before = out@;
        out.push(x);
        assert(strings_view(out@) =~= strings_view(before).push(x@));
        assert(strings_view(v@).take(i as int + 1) =~= strings_view(v@).take(i as int).push(
            v@[i as int]@,
        ));
        i += 1;
    }
    assert(strings_view(v@).take(v.len() as int) =~= strings_view(v@));
    out
}

// ---------------------------------------------------------------------------
// Updating and showing the settings
// ---------------------------------------------------------------------------

/// A node name as set through the settings: trimmed, and refused when blank.
pub fn check_node_name(raw: &str) -> (r: Result<String, DaemonError>)
    ensures
        trim(raw@).len() > 0 ==> (r matches Ok(n) && n@ == trim(raw@)),
        trim(raw@).len() == 0 ==> (r matches Err(DaemonError::Peer(m)) && m@
            == "node_name must not be empty"@),
{
    let t = trim_vec(chars_of(raw).as_slice());
    if t.len() == 0 {
        return Err(DaemonError::Peer(string_of(chars_of("node_name must not be empty").as_slice())));
    }
    Ok(string_of(t.as_slice()))
}

/// `new` when given, else `old`.
pub open spec fn or_keep<T>(new: Option<T>, old: T) -> T {
    match new {
        Some(v) => v,
        None => old,
    }
}

/// The TLS setting of an update does not parse.
pub open spec fn tls_refused(u: NotifyUpdate) -> bool {
    u.smtp_tls matches Some(t) && spec_parse_smtp_tls(t@) is Err
}

/// Applies a settings update in field order. Enabled, host (trimmed) and port are set
/// first; a TLS setting that does not parse is refused and leaves the rest unchanged;
/// else TLS, user (trimmed), password (as given), from (trimmed), the recipient lines
/// split into addresses, and the trimmed non-blank event names are set.
pub fn update_notify(cfg: &mut NotifyConfig, u: NotifyUpdate) -> (r: Result<(), DaemonError>)
    ensures
        final(cfg).enabled == or_keep(u.enabled, old(cfg).enabled),
        final(cfg).smtp_host@ == (match u.smtp_host {
            Some(h) => trim(h@),
            None => old(cfg).smtp_host@,
        }),
        final(cfg).smtp_port == or_keep(u.smtp_port, old(cfg).smtp_port),
        tls_refused(u) ==> (r matches Err(DaemonError::Peer(m)) && spec_parse_smtp_tls(
            u.smtp_tls->0@,
        ) == Err::<SmtpTls, Seq<char>>(m@)),
        tls_refused(u) ==> {
            &&& final(cfg).smtp_tls == old(cfg).smtp_tls
            &&& final(cfg).smtp_user@ == old(cfg).smtp_user@
            &&& final(cfg).smtp_password@ == old(cfg).smtp_password@
            &&& final(cfg).from@ == old(cfg).from@
            &&& strings_view(final(cfg).recipients@) == strings_view(old(cfg).recipients@)
            &&& strings_view(final(cfg).events@) == strings_view(old(cfg).events@)
        },
        !tls_refused(u) ==> {
            &&& r is Ok
            &&& final(cfg).smtp_tls == (match u.smtp_tls {
                Some(t) => spec_parse_smtp_tls(t@)->Ok_0,
                None => old(cfg).smtp_tls,
            })
            &&& final(cfg).smtp_user@ == (match u.smtp_user {
                Some(v) => trim(v@),
                None => old(cfg).smtp_user@,
            })
            &&& final(cfg).smtp_password@ == (match u.smtp_password {
                Some(v) => v@,
                None => old(cfg).smtp_password@,
            })
            &&& final(cfg).from@ == (match u.from {
                Some(v) => trim(v@),
                None => old(cfg).from@,
            })
            &&& strings_view(final(cfg).recipients@) == (match u.recipients {
                Some(v) => recipient_addresses(strings_view(v@)),
                None => strings_view(old(cfg).recipients@),
            })
            &&& strings_view(final(cfg).events@) == (match u.events {
                Some(v) => trimmed_nonblank(strings_view(v@)),
                None => strings_view(old(cfg).events@),
            })
        },
{
    if let Some(v) = u.enabled {
        cfg.enabled = v;
    }
    if let Some(v) = &u.smtp_host {
        cfg.smtp_host = trimmed_string(v.as_str());
    }
    if let Some(v) = u.smtp_port {
        cfg.smtp_port = v;
    }
    if let Some(v) = &u.smtp_tls {
        match parse_smtp_tls(v.as_str()) {
            Ok(t) => {
                cfg.smtp_tls = t;
            },
            Err(e) => {
                return Err(e);
            },
        }
    }
    if let Some(v) = &u.smtp_user {
        cfg.smtp_user = trimmed_string(v.as_str());
    }
    if let Some(v) = u.smtp_password {
        cfg.smtp_password = v;
    }
    if let Some(v) = &u.from {
        cfg.from = trimmed_string(v.as_str());
    }
    if let Some(v) = &u.recipients {
        cfg.recipients = split_recipient_lines(v);
    }
    if let Some(v) = &u.events {
        cfg.events = trimmed_nonblank_strings(v);
    }
    Ok(())
}

/// The settings as shown: everything but the password, which shows only as set or not.
pub fn notify_settings_view(cfg: &NotifyConfig) -> (r: NotifySettingsView)
    ensures
        r.enabled == cfg.enabled,
        r.smtp_host@ == cfg.smtp_host@,
        r.smtp_port == cfg.smtp_port,
        r.smtp_tls@ == cfg.smtp_tls.spec_as_str(),
        r.smtp_user@ == cfg.smtp_user@,
        r.smtp_password@.len() == 0,
        r.smtp_password_set == (cfg.smtp_password@.len() > 0),
        r.from@ == cfg.from@,
        strings_view(r.recipients@) == strings_view(cfg.recipients@),
        strings_view(r.events@) == strings_view(cfg.events@),
{
    NotifySettingsView {
        enabled: cfg.enabled,
        smtp_host: string_of(chars_of(cfg.smtp_host.as_str()).as_slice()),
        smtp_port: cfg.smtp_port,
        smtp_tls: cfg.smtp_tls.as_str(),
        smtp_user: string_of(chars_of(cfg.smtp_user.as_str()).as_slice()),
        smtp_password: String::new(),
        smtp_password_set: chars_of(cfg.smtp_password.as_str()).len() > 0,
        from: string_of(chars_of(cfg.from.as_str()).as_slice()),
        recipients: copy_strings(&cfg.recipients),
        events: copy_strings(&cfg.events),
    }
}

// ---------------------------------------------------------------------------
// Event mails
// ---------------------------------------------------------------------------

/// Subject and body of a guest event mail.
pub open spec fn spec_vm_event_mail(
    kind: Seq<char>,
    name: Seq<char>,
    id: VmId,
    state: VmState,
    detail: Seq<char>,
) -> (Seq<char>, Seq<char>) {
    (
        kind + ": "@ + name,
        "Event: "@ + kind + "\nVM: "@ + name + "\nID: "@ + uuid_text(id.0) + "\nState: "@
            + state.spec_as_str() + "\n"@ + detail,
    )
}

/// The subject and body that report event `kind` of a guest.
pub fn vm_event_mail(kind: &str, name: &str, id: VmId, state: VmState, detail: &str) -> (r: (
    String,
    String,
))
    ensures
        (r.0@, r.1@) == spec_vm_event_mail(kind@, name@, id, state, detail@),
{
    let mut sub = chars_of(kind);
    append_str(&mut sub, ": ");
    append_str(&mut sub, name);
    let mut b = chars_of("Event: ");
    append_str(&mut b, kind);
    append_str(&mut b, "\nVM: ");
    append_str(&mut b, name);
    append_str(&mut b, "\nID: ");
    append_str(&mut b, id.to_string().as_str());
    append_str(&mut b, "\nState: ");
    append_str(&mut b, state.as_str());
    append_str(&mut b, "\n");
    append_str(&mut b, detail);
    (string_of(sub.as_slice()), string_of(b.as_slice()))
}

/// Subject and body of the mail for a peer that went offline.
pub fn node_offline_mail(name: &str, id: NodeId, peer_url: &str) -> (r: (String, String))
    ensures
        r.0@ == "Node offline: "@ + name@,
        r.1@ == "Event: node.offline\nNode: "@ + name@ + "\nID: "@ + uuid_text(id.0)
            + "\nPeer URL: "@ + peer_url@ + "\n"@,
{
    let mut sub = chars_of("Node offline: ");
    append_str(&mut sub, name);
    let mut b = chars_of("Event: node.offline\nNode: ");
    append_str(&mut b, name);
    append_str(&mut b, "\nID: ");
    append_str(&mut b, crate::ids::uuid_string(id.0).as_str());
    append_str(&mut b, "\nPeer URL: ");
    append_str(&mut b, peer_url);
    append_str(&mut b, "\n");
    (string_of(sub.as_slice()), string_of(b.as_slice()))
}


// ---------------------------------------------------------------------------
// Peers going offline
// ---------------------------------------------------------------------------

/// The id and online flag of each member, in order.
pub open spec fn member_states(ms: Seq<ClusterMemberStatus>) -> Seq<(NodeId, bool)> {
    Seq::new(ms.len(), |i: int| (ms[i].id, ms[i].online))
}

/// One status round over the members: this node is remembered online; a peer that was
/// online (or, never seen before, is taken to have been as it is now) and now is not is
/// reported by its index; every member's state is remembered.
pub open spec fn offline_scan(prev: Map<u128, bool>, ms: Seq<(NodeId, bool)>, self_id: NodeId) -> (
    Map<u128, bool>,
    Seq<int>,
)
    decreases ms.len(),
{
    if ms.len() == 0 {
        (prev, seq![])
    } else {
        let (seen, events) = offline_scan(prev, ms.drop_last(), self_id);
        let (id, online) = ms.last();
        if id == self_id {
            (seen.insert(id.0, true), events)
        } else {
            let was = if seen.contains_key(id.0) {
                seen[id.0]
            } else {
                online
            };
            (
                seen.insert(id.0, online),
                if was && !online {
                    events.push(ms.len() - 1)
                } else {
                    events
                },
            )
        }
    }
}

pub open spec fn index_view(v: Seq<usize>) -> Seq<int> {
    v.map_values(|i: usize| i as int)
}

/// The members (by index) to report offline after a status round, with the remembered
/// online state of each node updated.
pub fn node_offline_events(
    seen: &mut HashMap<u128, bool>,
    members: &Vec<ClusterMemberStatus>,
    self_id: NodeId,
) -> (r: Vec<usize>)
    ensures
        (final(seen)@, index_view(r@)) == offline_scan(old(seen)@, member_states(members@), self_id),
{
    broadcast use vstd::std_specs::hash::group_hash_axioms;

    let ghost ms = member_states(members@);
    let mut out: Vec<usize> = Vec::new();
    let mut i: usize = 0;
    while i < members.len()
        invariant
            i <= members.len(),
            ms == member_states(members@),
            (seen@, index_view(out@)) == offline_scan(old(seen)@, ms.take(i as int), self_id),
        decreases members.len() - i,
    {
        assert(ms.take(i as int + 1).drop_last() =~= ms.take(i as int));
        assert(ms.take(i as int + 1).last() == (members@[i as int].id, members@[i as int].online));
        let m = &members[i];
        if m.id == self_id {
            seen.insert(m.id.0, true);
        } else {
            let was = match seen.get(&m.id.0) {
                Some(b) => *b,
                None => m.online,
            };
            if was && !m.online {
                let ghost before = out@;
                out.push(i);
                assert(index_view(out@) =~= index_view(before).push(i as int));
            }
            seen.insert(m.id.0, m.online);
        }
        i += 1;
    }
    assert(ms.take(members.len() as int) =~= ms);
    out
}


/// No two members share an id.
pub open spec fn distinct_ids(ms: Seq<(NodeId, bool)>) -> bool {
    forall|i: int, j: int| 0 <= i < j < ms.len() ==> (#[trigger] ms[i]).0 != (#[trigger] ms[j]).0
}

proof fn lemma_scan_remembers(prev: Map<u128, bool>, ms: Seq<(NodeId, bool)>, self_id: NodeId)
    requires
        distinct_ids(ms),
    ensures
        forall|j: int|
            0 <= j < ms.len() ==> {
                let st = offline_scan(prev, ms, self_id).0;
                &&& st.contains_key((#[trigger] ms[j]).0.0)
                &&& st[ms[j].0.0] == (if ms[j].0 == self_id {
                    true
                } else {
                    ms[j].1
                })
            },
    decreases ms.len(),
{
    if ms.len() > 0 {
        let d = ms.drop_last();
        assert(distinct_ids(d)) by {
            assert forall|i: int, j: int| 0 <= i < j < d.len() implies (#[trigger] d[i]).0 != (
            #[trigger] d[j]).0 by {
                assert(d[i] == ms[i] && d[j] == ms[j]);
            }
        }
        lemma_scan_remembers(prev, d, self_id);
        assert forall|j: int| 0 <= j < ms.len() - 1 implies ms[j].0.0 != ms.last().0.0 by {
            assert(ms[j].0 != ms[ms.len() - 1].0);
        }
        assert forall|j: int| 0 <= j < ms.len() - 1 implies ms[j] == d[j] by {}
    }
}

/// A peer that goes offline is reported once: a second status round over the same
/// members (with distinct ids) reports nobody and remembers nothing new.
pub proof fn lemma_offline_reported_once(prev: Map<u128, bool>, ms: Seq<(NodeId, bool)>, self_id: NodeId)
    requires
        distinct_ids(ms),
    ensures
        offline_scan(offline_scan(prev, ms, self_id).0, ms, self_id) == (
            offline_scan(prev, ms, self_id).0,
            Seq::<int>::empty(),
        ),
{
    let st = offline_scan(prev, ms, self_id).0;
    lemma_scan_remembers(prev, ms, self_id);
    lemma_rescan(st, ms, self_id, ms.len() as int);
    assert(ms.take(ms.len() as int) =~= ms);
}

proof fn lemma_rescan(st: Map<u128, bool>, ms: Seq<(NodeId, bool)>, self_id: NodeId, k: int)
    requires
        0 <= k <= ms.len(),
        forall|j: int|
            0 <= j < ms.len() ==> {
                &&& st.contains_key((#[trigger] ms[j]).0.0)
                &&& st[ms[j].0.0] == (if ms[j].0 == self_id {
                    true
                } else {
                    ms[j].1
                })
            },
    ensures
        offline_scan(st, ms.take(k), self_id) == (st, Seq::<int>::empty()),
    decreases k,
{
    if k == 0 {
        assert(ms.take(0) =~= Seq::<(NodeId, bool)>::empty());
    } else {
        lemma_rescan(st, ms, self_id, k - 1);
        let t = ms.take(k);
        assert(t.drop_last() =~= ms.take(k - 1));
        assert(t.last() == ms[k - 1]);
        let e = ms[k - 1];
        assert(st.contains_key(e.0.0));
        assert(st.insert(e.0.0, st[e.0.0]) =~= st);
    }
}

}
