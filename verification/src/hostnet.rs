//! Host network plumbing: the `ip`, `bridge`, `sysctl` and `iptables` command lines that
//! set up guest bridges and TAP devices, and how the tools' output and failures read.
use vstd::prelude::*;

use crate::ipam::{spec_cidr_string, spec_parse_cidr, Ipv4Net, NetError, NetErrorView};
use crate::netnames::{spec_valid_ifname, valid_ifname};
use crate::storage::{join_args, join_strings, strs_view};
use crate::text::{
    append_chars, append_str, chars_of, contains, contains_str, dec, dec_vec, eq_str, lines,
    lines_of, string_of, trim, trim_vec, words, words_of,
};
use crate::urls::{trim_end_char, trim_end_char_vec};

verus! {

/// What a failed command means for the plan.
#[derive(Clone, Copy, Debug, PartialEq, Eq, Structural)]
pub enum OnFailure {
    /// The step fails the operation.
    Fail,
    /// "Already there" or "not there" counts as done (`ip` only).
    AllowExisting,
    /// The outcome is not looked at.
    Ignore,
}

/// One host command: program, arguments, and what a failure means.
pub struct HostCommand {
    pub program: String,
    pub args: Vec<String>,
    pub on_failure: OnFailure,
}

pub type CommandView = (Seq<char>, Seq<Seq<char>>, OnFailure);

pub open spec fn command_view(c: HostCommand) -> CommandView {
    (c.program@, strs_view(c.args@), c.on_failure)
}

pub open spec fn commands_view(v: Seq<HostCommand>) -> Seq<CommandView> {
    Seq::new(v.len(), |i: int| command_view(v[i]))
}

/// An `ip` step.
pub open spec fn ip_step(args: Seq<Seq<char>>, allow_existing: bool) -> CommandView {
    ("ip"@, args, if allow_existing {
        OnFailure::AllowExisting
    } else {
        OnFailure::Fail
    })
}

/// The refusal of an interface name that `valid_ifname` rejects.
pub open spec fn bad_name(name: Seq<char>) -> NetErrorView {
    NetErrorView::Invalid("unsafe interface name '"@ + name + "'"@)
}

fn s(x: &str) -> (r: String)
    ensures
        r@ == x@,
{
    string_of(chars_of(x).as_slice())
}

fn check_name(name: &str) -> (r: Result<(), NetError>)
    ensures
        spec_valid_ifname(name@) ==> r is Ok,
        !spec_valid_ifname(name@) ==> (r matches Err(e) && e@ == bad_name(name@)),
{
    if valid_ifname(name) {
        Ok(())
    } else {
        let mut m = chars_of("unsafe interface name '");
        append_str(&mut m, name);
        append_str(&mut m, "'");
        Err(NetError::Invalid(string_of(m.as_slice())))
    }
}

fn ip(args: Vec<String>, allow_existing: bool) -> (r: HostCommand)
    ensures
        command_view(r) == ip_step(strs_view(args@), allow_existing),
{
    HostCommand {
        program: s("ip"),
        args,
        on_failure: if allow_existing {
            OnFailure::AllowExisting
        } else {
            OnFailure::Fail
        },
    }
}

fn push_command(out: &mut Vec<HostCommand>, c: HostCommand)
    ensures
        commands_view(final(out)@) == commands_view(old(out)@).push(command_view(c)),
{
    out.push(c);
    assert(commands_view(out@) =~= commands_view(old(out)@).push(command_view(c)));
}

pub open spec fn spec_ensure_bridge(bridge: Seq<char>, gateway: Option<Seq<char>>, prefix: u8) -> Seq<
    CommandView,
> {
    let add = seq![ip_step(seq!["link"@, "add"@, "name"@, bridge, "type"@, "bridge"@], true)];
    let addr = match gateway {
        Some(g) => seq![
            ip_step(seq!["addr"@, "add"@, g + "/"@ + dec(prefix as nat), "dev"@, bridge], true),
        ],
        None => seq![],
    };
    add + addr + seq![ip_step(seq!["link"@, "set"@, "dev"@, bridge, "up"@], false)]
}

pub open spec fn opt_str(o: Option<&str>) -> Option<Seq<char>> {
    match o {
        Some(x) => Some(x@),
        None => None,
    }
}

/// Create `bridge` (an existing one is fine), give it `gateway/prefix` when a gateway is
/// set, and bring it up.
pub fn ensure_bridge(bridge: &str, gateway: Option<&str>, prefix: u8) -> (r: Result<
    Vec<HostCommand>,
    NetError,
>)
    ensures
        match r {
            Ok(v) => spec_valid_ifname(bridge@) && commands_view(v@) == spec_ensure_bridge(
                bridge@,
                opt_str(gateway),
                prefix,
            ),
            Err(e) => !spec_valid_ifname(bridge@) && e@ == bad_name(bridge@),
        },
{
    check_name(bridge)?;
    let mut out: Vec<HostCommand> = Vec::new();
    assert(commands_view(out@) =~= Seq::<CommandView>::empty());
    {
        let a = vec![s("link"), s("add"), s("name"), s(bridge), s("type"), s("bridge")];
        assert(strs_view(a@) =~= seq!["link"@, "add"@, "name"@, bridge@, "type"@, "bridge"@]);
        push_command(&mut out, ip(a, true));
    }
    if let Some(g) = gateway {
        let mut cidr = chars_of(g);
        append_str(&mut cidr, "/");
        append_chars(&mut cidr, dec_vec(prefix as u64).as_slice());
        proof {
            reveal_strlit("/");
        }
        assert(cidr@ =~= g@ + "/"@ + dec(prefix as nat));
        {
        let a = vec![s("addr"), s("add"), string_of(cidr.as_slice()), s("dev"), s(bridge)];
        assert(strs_view(a@) =~= seq!["addr"@, "add"@, cidr@, "dev"@, bridge@]);
        push_command(&mut out, ip(a, true));
    }
    }
    {
        let a = vec![s("link"), s("set"), s("dev"), s(bridge), s("up")];
        assert(strs_view(a@) =~= seq!["link"@, "set"@, "dev"@, bridge@, "up"@]);
        push_command(&mut out, ip(a, false));
    }
    proof {
        reveal_strlit("/");
        assert(commands_view(out@) =~= spec_ensure_bridge(bridge@, opt_str(gateway), prefix));
    }
    Ok(out)
}

/// Remove `bridge`; a missing one is fine.
pub fn delete_bridge(bridge: &str) -> (r: Result<Vec<HostCommand>, NetError>)
    ensures
        match r {
            Ok(v) => spec_valid_ifname(bridge@) && commands_view(v@) == seq![
                ip_step(seq!["link"@, "delete"@, "dev"@, bridge@, "type"@, "bridge"@], true),
            ],
            Err(e) => !spec_valid_ifname(bridge@) && e@ == bad_name(bridge@),
        },
{
    check_name(bridge)?;
    let mut out: Vec<HostCommand> = Vec::new();
    assert(commands_view(out@) =~= Seq::<CommandView>::empty());
    {
        let a = vec![s("link"), s("delete"), s("dev"), s(bridge), s("type"), s("bridge")];
        assert(strs_view(a@) =~= seq!["link"@, "delete"@, "dev"@, bridge@, "type"@, "bridge"@]);
        push_command(&mut out, ip(a, true));
    }
    Ok(out)
}

pub open spec fn delete_tap_step(tap: Seq<char>) -> CommandView {
    ip_step(seq!["link"@, "delete"@, "dev"@, tap], true)
}

/// Remove the TAP device `tap`; a missing one is fine.
pub fn delete_tap(tap: &str) -> (r: Result<Vec<HostCommand>, NetError>)
    ensures
        match r {
            Ok(v) => spec_valid_ifname(tap@) && commands_view(v@) == seq![delete_tap_step(tap@)],
            Err(e) => !spec_valid_ifname(tap@) && e@ == bad_name(tap@),
        },
{
    check_name(tap)?;
    let mut out: Vec<HostCommand> = Vec::new();
    assert(commands_view(out@) =~= Seq::<CommandView>::empty());
    {
        let a = vec![s("link"), s("delete"), s("dev"), s(tap)];
        assert(strs_view(a@) =~= seq!["link"@, "delete"@, "dev"@, tap@]);
        push_command(&mut out, ip(a, true));
    }
    Ok(out)
}

pub open spec fn spec_provision_nic(bridge: Seq<char>, tap: Seq<char>, isolate: bool) -> Seq<
    CommandView,
> {
    let base = seq![
        delete_tap_step(tap),
        ip_step(seq!["tuntap"@, "add"@, "dev"@, tap, "mode"@, "tap"@], true),
        ip_step(seq!["link"@, "set"@, "dev"@, tap, "master"@, bridge], false),
        ip_step(seq!["link"@, "set"@, "dev"@, tap, "up"@], false),
    ];
    if isolate {
        base.push(
            (
                "bridge"@,
                seq!["link"@, "set"@, "dev"@, tap, "isolated"@, "on"@],
                OnFailure::Ignore,
            ),
        )
    } else {
        base
    }
}

/// A fresh TAP device `tap` on `bridge` (a leftover one is removed first), up, and
/// isolated from its bridge neighbours when `isolate` is set. The bridge name is
/// checked before the TAP name.
pub fn provision_nic(
    bridge: &str,
    tap: &str,
    _gateway: Option<&str>,
    _prefix: u8,
    isolate: bool,
) -> (r: Result<Vec<HostCommand>, NetError>)
    ensures
        match r {
            Ok(v) => spec_valid_ifname(bridge@) && spec_valid_ifname(tap@) && commands_view(v@)
                == spec_provision_nic(bridge@, tap@, isolate),
            Err(e) => if !spec_valid_ifname(bridge@) {
                e@ == bad_name(bridge@)
            } else {
                !spec_valid_ifname(tap@) && e@ == bad_name(tap@)
            },
        },
{
    check_name(bridge)?;
    check_name(tap)?;
    let mut out = delete_tap(tap)?;
    {
        let a = vec![s("tuntap"), s("add"), s("dev"), s(tap), s("mode"), s("tap")];
        assert(strs_view(a@) =~= seq!["tuntap"@, "add"@, "dev"@, tap@, "mode"@, "tap"@]);
        push_command(&mut out, ip(a, true));
    }
    {
        let a = vec![s("link"), s("set"), s("dev"), s(tap), s("master"), s(bridge)];
        assert(strs_view(a@) =~= seq!["link"@, "set"@, "dev"@, tap@, "master"@, bridge@]);
        push_command(&mut out, ip(a, false));
    }
    {
        let a = vec![s("link"), s("set"), s("dev"), s(tap), s("up")];
        assert(strs_view(a@) =~= seq!["link"@, "set"@, "dev"@, tap@, "up"@]);
        push_command(&mut out, ip(a, false));
    }
    if isolate {
        let args = vec![s("link"), s("set"), s("dev"), s(tap), s("isolated"), s("on")];
        let c = HostCommand { program: s("bridge"), args, on_failure: OnFailure::Ignore };
        assert(strs_view(c.args@) =~= seq!["link"@, "set"@, "dev"@, tap@, "isolated"@, "on"@]);
        push_command(&mut out, c);
    }
    proof {
        assert(commands_view(out@) =~= spec_provision_nic(bridge@, tap@, isolate));
    }
    Ok(out)
}

// ---------------------------------------------------------------------------
// How a run reads
// ---------------------------------------------------------------------------

/// `ip` standard error that means "already there" or "not there".
pub open spec fn ip_existing(err: Seq<char>) -> bool {
    ||| contains(err, "File exists"@)
    ||| contains(err, "exists"@)
    ||| contains(err, "Address already assigned"@)
    ||| contains(err, "Cannot find device"@)
}

pub open spec fn spec_ip_result(
    args: Seq<Seq<char>>,
    success: bool,
    stderr: Seq<char>,
    allow_existing: bool,
) -> Result<(), NetErrorView> {
    if success || (allow_existing && ip_existing(stderr)) {
        Ok(())
    } else {
        Err(NetErrorView::Host("ip"@ + " "@ + join_args(args) + " failed: "@ + trim(stderr)))
    }
}

/// A finished `ip` run: success; an "already there / not there" failure when that is
/// allowed; else `ip <args> failed: <trimmed stderr>`.
pub fn ip_result(args: &Vec<String>, success: bool, stderr: &str, allow_existing: bool) -> (r:
    Result<(), NetError>)
    ensures
        crate::ipam::res_view(r) == spec_ip_result(strs_view(args@), success, stderr@, allow_existing),
{
    if success {
        return Ok(());
    }
    let e = chars_of(stderr);
    if allow_existing && (contains_str(e.as_slice(), "File exists") || contains_str(
        e.as_slice(),
        "exists",
    ) || contains_str(e.as_slice(), "Address already assigned") || contains_str(
        e.as_slice(),
        "Cannot find device",
    )) {
        return Ok(());
    }
    command_result("ip", args, false, stderr)
}

/// A finished run of another tool: success, or `<command> <args> failed: <trimmed stderr>`.
pub fn command_result(command: &str, args: &Vec<String>, success: bool, stderr: &str) -> (r: Result<
    (),
    NetError,
>)
    ensures
        success ==> r is Ok,
        !success ==> (r matches Err(e) && e@ == NetErrorView::Host(
            command@ + " "@ + join_args(strs_view(args@)) + " failed: "@ + trim(stderr@),
        )),
{
    if success {
        return Ok(());
    }
    let mut m = chars_of(command);
    append_str(&mut m, " ");
    append_chars(&mut m, join_strings(args).as_slice());
    append_str(&mut m, " failed: ");
    append_chars(&mut m, trim_vec(chars_of(stderr).as_slice()).as_slice());
    Err(NetError::Host(string_of(m.as_slice())))
}

// ---------------------------------------------------------------------------
// Egress through the default route
// ---------------------------------------------------------------------------

/// Index of the first word `dev` at or after `i` that has a word after it, or -1.
pub open spec fn dev_index(ws: Seq<Seq<char>>, i: int) -> int
    decreases ws.len() - i,
{
    if i < 0 || i + 1 >= ws.len() {
        -1
    } else if ws[i] == "dev"@ {
        i
    } else {
        dev_index(ws, i + 1)
    }
}

proof fn lemma_dev_index(ws: Seq<Seq<char>>, i: int)
    requires
        0 <= i,
    ensures
        dev_index(ws, i) == -1 || (i <= dev_index(ws, i) && dev_index(ws, i) + 1 < ws.len()),
    decreases ws.len() - i,
{
    if i + 1 < ws.len() && ws[i] != "dev"@ {
        lemma_dev_index(ws, i + 1);
    }
}

pub open spec fn no_uplink() -> NetErrorView {
    NetErrorView::Host("no IPv4 default-route interface found"@)
}

/// The interface after the first `dev` in `ip -o -4 route show to default` output, when
/// it is a valid interface name.
pub open spec fn spec_default_uplink(route: Seq<char>) -> Result<Seq<char>, NetErrorView> {
    let ws = words(route);
    let k = dev_index(ws, 0);
    if k >= 0 && spec_valid_ifname(ws[k + 1]) {
        Ok(ws[k + 1])
    } else {
        Err(no_uplink())
    }
}

pub fn default_uplink(route: &str) -> (r: Result<String, NetError>)
    ensures
        match r {
            Ok(x) => spec_default_uplink(route@) == Ok::<Seq<char>, NetErrorView>(x@),
            Err(e) => spec_default_uplink(route@) == Err::<Seq<char>, NetErrorView>(e@),
        },
{
    let ws = words_of(chars_of(route).as_slice());
    let ghost wd = ws.deep_view();
    proof {
        lemma_dev_index(wd, 0);
    }
    let mut i: usize = 0;
    while i < ws.len() && i + 1 < ws.len()
        invariant
            i <= ws.len(),
            wd == ws.deep_view(),
            wd == words(route@),
            dev_index(wd, 0) == dev_index(wd, i as int),
        decreases ws.len() - i,
    {
        proof {
            crate::text::lemma_char_vec_dv(ws@[i as int]);
        }
        if eq_str(ws[i].as_slice(), "dev") {
            proof {
                crate::text::lemma_char_vec_dv(ws@[i as int + 1]);
            }
            let name = string_of(ws[i + 1].as_slice());
            if valid_ifname(name.as_str()) {
                return Ok(name);
            }
            return Err(NetError::Host(s("no IPv4 default-route interface found")));
        }
        i += 1;
    }
    Err(NetError::Host(s("no IPv4 default-route interface found")))
}

pub open spec fn rules_view(v: Seq<Vec<String>>) -> Seq<Seq<Seq<char>>> {
    Seq::new(v.len(), |i: int| strs_view(v[i]@))
}

/// The three `iptables` rules that masquerade `cidr` out of `uplink` and forward
/// between the bridge and the uplink.
pub open spec fn egress_rules(bridge: Seq<char>, cidr: Seq<char>, uplink: Seq<char>) -> Seq<
    Seq<Seq<char>>,
> {
    seq![
        seq!["-t"@, "nat"@, "POSTROUTING"@, "-s"@, cidr, "-o"@, uplink, "-j"@, "MASQUERADE"@],
        seq!["FORWARD"@, "-i"@, bridge, "-o"@, uplink, "-j"@, "ACCEPT"@],
        seq![
            "FORWARD"@,
            "-i"@,
            uplink,
            "-o"@,
            bridge,
            "-m"@,
            "conntrack"@,
            "--ctstate"@,
            "RELATED,ESTABLISHED"@,
            "-j"@,
            "ACCEPT"@,
        ],
    ]
}

/// IPv4 egress for a guest bridge: turn on forwarding, then make sure each rule exists.
pub struct EgressPlan {
    pub forward: HostCommand,
    pub rules: Vec<Vec<String>>,
}

/// The egress plan for `bridge` and `network`, given what `ip -o -4 route show to
/// default` printed. The bridge name is checked first, then the uplink.
pub fn ensure_ipv4_egress(bridge: &str, network: Ipv4Net, route: &str) -> (r: Result<
    EgressPlan,
    NetError,
>)
    ensures
        match r {
            Ok(p) => {
                &&& spec_valid_ifname(bridge@)
                &&& spec_default_uplink(route@) is Ok
                &&& command_view(p.forward) == (
                    "sysctl"@,
                    seq!["-w"@, "net.ipv4.ip_forward=1"@],
                    OnFailure::Fail,
                )
                &&& rules_view(p.rules@) == egress_rules(
                    bridge@,
                    spec_cidr_string(network),
                    spec_default_uplink(route@)->Ok_0,
                )
            },
            Err(e) => if !spec_valid_ifname(bridge@) {
                e@ == bad_name(bridge@)
            } else {
                spec_default_uplink(route@) == Err::<Seq<char>, NetErrorView>(e@)
            },
        },
{
    check_name(bridge)?;
    let uplink = default_uplink(route)?;
    let cidr = network.to_cidr_string();
    let fa = vec![s("-w"), s("net.ipv4.ip_forward=1")];
    assert(strs_view(fa@) =~= seq!["-w"@, "net.ipv4.ip_forward=1"@]);
    let forward = HostCommand { program: s("sysctl"), args: fa, on_failure: OnFailure::Fail };
    let r1 = vec![
        s("-t"),
        s("nat"),
        s("POSTROUTING"),
        s("-s"),
        s(cidr.as_str()),
        s("-o"),
        s(uplink.as_str()),
        s("-j"),
        s("MASQUERADE"),
    ];
    let r2 = vec![
        s("FORWARD"),
        s("-i"),
        s(bridge),
        s("-o"),
        s(uplink.as_str()),
        s("-j"),
        s("ACCEPT"),
    ];
    let r3 = vec![
        s("FORWARD"),
        s("-i"),
        s(uplink.as_str()),
        s("-o"),
        s(bridge),
        s("-m"),
        s("conntrack"),
        s("--ctstate"),
        s("RELATED,ESTABLISHED"),
        s("-j"),
        s("ACCEPT"),
    ];
    let ghost e = egress_rules(bridge@, cidr@, uplink@);
    assert(strs_view(r1@) =~= e[0]);
    assert(strs_view(r2@) =~= e[1]);
    assert(strs_view(r3@) =~= e[2]);
    let rules = vec![r1, r2, r3];
    assert(rules_view(rules@) =~= e);
    Ok(EgressPlan { forward, rules })
}

/// The `iptables` check (`-C`) and append (`-A`) argument lists of a rule; a leading
/// `-t <table>` stays in front.
pub open spec fn spec_rule_args(rule: Seq<Seq<char>>) -> (Seq<Seq<char>>, Seq<Seq<char>>) {
    let (pre, rest) = if rule.len() >= 2 && rule[0] == "-t"@ {
        (rule.take(2), rule.skip(2))
    } else {
        (seq![], rule)
    };
    (pre + seq!["-C"@] + rest, pre + seq!["-A"@] + rest)
}

fn push_str(v: &mut Vec<String>, x: String)
    ensures
        strs_view(final(v)@) == strs_view(old(v)@).push(x@),
{
    v.push(x);
    assert(strs_view(v@) =~= strs_view(old(v)@).push(x@));
}

pub fn iptables_rule_args(rule: &Vec<String>) -> (r: (Vec<String>, Vec<String>))
    ensures
        (strs_view(r.0@), strs_view(r.1@)) == spec_rule_args(strs_view(rule@)),
{
    let ghost rv = strs_view(rule@);
    let split: usize = if rule.len() >= 2 && eq_str(chars_of(rule[0].as_str()).as_slice(), "-t") {
        2
    } else {
        0
    };
    let mut check: Vec<String> = Vec::new();
    let mut add: Vec<String> = Vec::new();
    assert(strs_view(check@) =~= rv.take(0));
    let mut i: usize = 0;
    while i < split
        invariant
            i <= split <= rule.len(),
            rv == strs_view(rule@),
            strs_view(check@) == rv.take(i as int),
            strs_view(add@) == rv.take(i as int),
        decreases split - i,
    {
        push_str(&mut check, s(rule[i].as_str()));
        push_str(&mut add, s(rule[i].as_str()));
        assert(rv.take(i as int + 1) =~= rv.take(i as int).push(rv[i as int]));
        i += 1;
    }
    push_str(&mut check, s("-C"));
    push_str(&mut add, s("-A"));
    let ghost pc = strs_view(check@);
    let ghost pa = strs_view(add@);
    while i < rule.len()
        invariant
            split <= i <= rule.len(),
            rv == strs_view(rule@),
            strs_view(check@) == pc + rv.subrange(split as int, i as int),
            strs_view(add@) == pa + rv.subrange(split as int, i as int),
        decreases rule.len() - i,
    {
        push_str(&mut check, s(rule[i].as_str()));
        push_str(&mut add, s(rule[i].as_str()));
        assert(rv.subrange(split as int, i as int + 1) =~= rv.subrange(split as int, i as int).push(
            rv[i as int],
        ));
        i += 1;
    }
    proof {
        assert(rv.subrange(split as int, rv.len() as int) =~= rv.skip(split as int));
        if split == 0 {
            assert(rv.take(0) =~= Seq::<Seq<char>>::empty());
            assert(rv.skip(0) =~= rv);
        }
        assert(strs_view(check@) =~= spec_rule_args(rv).0);
        assert(strs_view(add@) =~= spec_rule_args(rv).1);
    }
    (check, add)
}

// ---------------------------------------------------------------------------
// Addresses already on the host
// ---------------------------------------------------------------------------

/// Index of the first word equal to `w` at or after `i`, or -1.
pub open spec fn word_index(ws: Seq<Seq<char>>, w: Seq<char>, i: int) -> int
    decreases ws.len() - i,
{
    if i < 0 || i >= ws.len() {
        -1
    } else if ws[i] == w {
        i
    } else {
        word_index(ws, w, i + 1)
    }
}

proof fn lemma_word_index(ws: Seq<Seq<char>>, w: Seq<char>, i: int)
    requires
        0 <= i,
    ensures
        word_index(ws, w, i) == -1 || (i <= word_index(ws, w, i) < ws.len() && ws[word_index(
            ws,
            w,
            i,
        )] == w),
    decreases ws.len() - i,
{
    if i < ws.len() && ws[i] != w {
        lemma_word_index(ws, w, i + 1);
    }
}

/// A line of `ip -o -4 addr show` whose address overlaps `network`, unless it belongs to
/// the interface `except` (its second word, trailing colons dropped).
pub open spec fn line_overlaps(line: Seq<char>, network: Ipv4Net, except: Option<Seq<char>>) -> bool {
    let f = words(line);
    let k = word_index(f, "inet"@, 0);
    &&& k >= 0
    &&& !(f.len() > 1 && except == Some(trim_end_char(f[1], ':')))
    &&& k + 1 < f.len()
    &&& match spec_parse_cidr(f[k + 1]) {
        Ok(e) => network.spec_contains(e.network) || e.spec_contains(network.network),
        Err(_) => false,
    }
}

/// Does any IPv4 address in `ip -o -4 addr show` output overlap `network` (addresses of
/// `except_interface` aside)?
pub fn overlaps_in_addrs(text: &str, network: Ipv4Net, except_interface: Option<&str>) -> (r: bool)
    requires
        network.prefix <= 32,
    ensures
        r == exists|k: int|
            0 <= k < lines(text@).len() && #[trigger] line_overlaps(
                lines(text@)[k],
                network,
                opt_str(except_interface),
            ),
{
    let ls = lines_of(chars_of(text).as_slice());
    let ghost ld = ls.deep_view();
    let ghost ex = opt_str(except_interface);
    let mut i: usize = 0;
    while i < ls.len()
        invariant
            i <= ls.len(),
            ld == ls.deep_view(),
            ld == lines(text@),
            ex == opt_str(except_interface),
            network.prefix <= 32,
            forall|k: int| 0 <= k < i ==> !#[trigger] line_overlaps(ld[k], network, ex),
        decreases ls.len() - i,
    {
        proof {
            crate::text::lemma_char_vec_dv(ls@[i as int]);
        }
        let f = words_of(ls[i].as_slice());
        let ghost fd = f.deep_view();
        let mut k: usize = 0;
        proof {
            lemma_word_index(fd, "inet"@, 0);
        }
        while k < f.len()
            invariant
                k <= f.len(),
                fd == f.deep_view(),
                word_index(fd, "inet"@, 0) == word_index(fd, "inet"@, k as int),
            ensures
                k <= f.len(),
                word_index(fd, "inet"@, 0) == word_index(fd, "inet"@, k as int),
                k < f.len() ==> fd[k as int] == "inet"@,
            decreases f.len() - k,
        {
            proof {
                crate::text::lemma_char_vec_dv(f@[k as int]);
                reveal_strlit("inet");
            }
            if eq_str(f[k].as_slice(), "inet") {
                break;
            }
            k += 1;
        }
        let ghost idx = word_index(fd, "inet"@, 0);
        assert(idx == (if k < f.len() { k as int } else { -1 }));
        let mut hit = false;
        if k < f.len() {
            let mut skip = false;
            if f.len() > 1 {
                if let Some(x) = except_interface {
                    proof {
                        crate::text::lemma_char_vec_dv(f@[1]);
                    }
                    let t = trim_end_char_vec(f[1].as_slice(), ':');
                    skip = crate::text::chars_eq(t.as_slice(), chars_of(x).as_slice());
                }
            }
            if !skip && k + 1 < f.len() {
                proof {
                    crate::text::lemma_char_vec_dv(f@[k as int + 1]);
                }
                let cidr = string_of(f[k + 1].as_slice());
                match Ipv4Net::parse(cidr.as_str()) {
                    Ok(e) => {
                        hit = network.overlaps(e);
                    },
                    Err(_) => {},
                }
            }
        }
        assert(hit == line_overlaps(ld[i as int], network, ex));
        if hit {
            return true;
        }
        i += 1;
    }
    false
}

/// Where the kernel lists the interface `name`, when the name is a valid one.
pub fn interface_path(name: &str) -> (r: Option<String>)
    ensures
        match r {
            Some(p) => spec_valid_ifname(name@) && p@ == "/sys/class/net/"@ + name@,
            None => !spec_valid_ifname(name@),
        },
{
    if valid_ifname(name) {
        let mut v = chars_of("/sys/class/net/");
        append_str(&mut v, name);
        Some(string_of(v.as_slice()))
    } else {
        None
    }
}

} // verus!
