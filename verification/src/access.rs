//! Who may call which API route, where a request's token comes from, and the HTTP status
//! each daemon error answers with.
use vstd::prelude::*;

use crate::api::Role;
use crate::host::{ControlError, DaemonError};
use crate::ipam::NetError;
use crate::storage::StorageError;
use crate::ids::uuid_text;
use crate::text::{
    append_chars, append_str, chars_of, dec, dec_vec, eq_str, slice_vec, split_char, split_on,
    starts_with, starts_with_str, string_of, trim, trim_vec,
};
use crate::types::TypesError;

verus! {

/// The least role a route needs: any user may change their own password; user
/// management is for admins; reads are for viewers; everything else for operators.
pub open spec fn spec_required_role(method: Seq<char>, path: Seq<char>) -> Role {
    if path == "/v1/session/password"@ {
        Role::Viewer
    } else if starts_with(path, "/v1/users"@) {
        Role::Admin
    } else if method == "GET"@ {
        Role::Viewer
    } else {
        Role::Operator
    }
}

pub fn required_role(method: &str, path: &str) -> (r: Role)
    ensures
        r == spec_required_role(method@, path@),
{
    let p = chars_of(path);
    if eq_str(p.as_slice(), "/v1/session/password") {
        Role::Viewer
    } else if starts_with_str(p.as_slice(), "/v1/users") {
        Role::Admin
    } else if eq_str(chars_of(method).as_slice(), "GET") {
        Role::Viewer
    } else {
        Role::Operator
    }
}

/// The token of an `Authorization: Bearer <token>` header value, trimmed; none when blank.
pub open spec fn spec_bearer_token(authorization: Option<Seq<char>>) -> Option<Seq<char>> {
    match authorization {
        Some(v) => if starts_with(v, "Bearer "@) && trim(v.skip(7)).len() > 0 {
            Some(trim(v.skip(7)))
        } else {
            None
        },
        None => None,
    }
}

pub open spec fn opt_str(o: Option<&str>) -> Option<Seq<char>> {
    match o {
        Some(x) => Some(x@),
        None => None,
    }
}

pub open spec fn opt_string(o: Option<String>) -> Option<Seq<char>> {
    match o {
        Some(x) => Some(x@),
        None => None,
    }
}

pub fn bearer_token(authorization: Option<&str>) -> (r: Option<String>)
    ensures
        opt_string(r) == spec_bearer_token(opt_str(authorization)),
{
    let v = chars_of(authorization?);
    proof {
        reveal_strlit("Bearer ");
    }
    if !starts_with_str(v.as_slice(), "Bearer ") {
        return None;
    }
    let rest = slice_vec(v.as_slice(), 7, v.len());
    assert(rest@ =~= v@.skip(7));
    let t = trim_vec(rest.as_slice());
    if t.len() == 0 {
        return None;
    }
    Some(string_of(t.as_slice()))
}

/// The key and value of a query pair: split at its first `=`; no `=` gives an empty value.
pub open spec fn pair_parts(pair: Seq<char>) -> (Seq<char>, Seq<char>) {
    let k = crate::text::find(pair, seq!['=']);
    if k < 0 {
        (pair, seq![])
    } else {
        (pair.take(k), pair.skip(k + 1))
    }
}

/// Index of the first `token=<non-empty>` pair at or after `i`, or -1.
pub open spec fn token_pair(pairs: Seq<Seq<char>>, i: int) -> int
    decreases pairs.len() - i,
{
    if i < 0 || i >= pairs.len() {
        -1
    } else if pair_parts(pairs[i]).0 == "token"@ && pair_parts(pairs[i]).1.len() > 0 {
        i
    } else {
        token_pair(pairs, i + 1)
    }
}

/// The value of the first non-empty `token` pair of a URL query.
pub open spec fn spec_query_token(query: Option<Seq<char>>) -> Option<Seq<char>> {
    match query {
        Some(q) => {
            let pairs = split_char(q, '&');
            let k = token_pair(pairs, 0);
            if k < 0 {
                None
            } else {
                Some(pair_parts(pairs[k]).1)
            }
        },
        None => None,
    }
}

proof fn lemma_token_pair(pairs: Seq<Seq<char>>, i: int)
    requires
        0 <= i,
    ensures
        token_pair(pairs, i) == -1 || i <= token_pair(pairs, i) < pairs.len(),
    decreases pairs.len() - i,
{
    if i < pairs.len() && !(pair_parts(pairs[i]).0 == "token"@ && pair_parts(pairs[i]).1.len()
        > 0) {
        lemma_token_pair(pairs, i + 1);
    }
}

fn pair_parts_of(pair: &[char]) -> (r: (Vec<char>, Vec<char>))
    ensures
        (r.0@, r.1@) == pair_parts(pair@),
{
    let eq = vec!['='];
    assert(eq@ =~= seq!['=']);
    match crate::text::find_vec(pair, eq.as_slice()) {
        None => (slice_vec(pair, 0, pair.len()), Vec::new()),
        Some(k) => {
            proof {
                crate::text::lemma_find_in_range(pair@, seq!['=']);
                assert(seq!['='].len() == 1);
            }
            assert(k < pair.len());
            let a = slice_vec(pair, 0, k);
            let b = slice_vec(pair, k + 1, pair.len());
            assert(a@ =~= pair@.take(k as int));
            assert(b@ =~= pair@.skip(k + 1));
            (a, b)
        },
    }
}

pub fn query_token(query: Option<&str>) -> (r: Option<String>)
    ensures
        opt_string(r) == spec_query_token(opt_str(query)),
{
    let q = chars_of(query?);
    let pairs = split_on(q.as_slice(), '&');
    let ghost pd = pairs.deep_view();
    proof {
        lemma_token_pair(pd, 0);
    }
    let mut i: usize = 0;
    while i < pairs.len()
        invariant
            i <= pairs.len(),
            pd == pairs.deep_view(),
            pd == split_char(q@, '&'),
            opt_str(query) == Some(q@),
            token_pair(pd, 0) == token_pair(pd, i as int),
        decreases pairs.len() - i,
    {
        proof {
            crate::text::lemma_char_vec_dv(pairs@[i as int]);
        }
        let (k, v) = pair_parts_of(pairs[i].as_slice());
        assert(pairs@[i as int]@ == pd[i as int]);
        if eq_str(k.as_slice(), "token") && v.len() > 0 {
            return Some(string_of(v.as_slice()));
        }
        i += 1;
    }
    None
}

/// A request's token: the bearer header's, else the query's.
pub fn request_token(authorization: Option<&str>, query: Option<&str>) -> (r: Option<String>)
    ensures
        opt_string(r) == (match spec_bearer_token(opt_str(authorization)) {
            Some(t) => Some(t),
            None => spec_query_token(opt_str(query)),
        }),
{
    match bearer_token(authorization) {
        Some(t) => Some(t),
        None => query_token(query),
    }
}

// ---------------------------------------------------------------------------
// Status codes
// ---------------------------------------------------------------------------

pub open spec fn spec_storage_status(e: StorageError) -> u16 {
    match e {
        StorageError::NotFound(_) | StorageError::IsoNotFound(_) | StorageError::SnapshotNotFound(
            _,
        ) => 404,
        StorageError::NameTaken(_) | StorageError::IsoExists(_) | StorageError::SnapshotExists(
            _,
        ) => 409,
        _ => 400,
    }
}

/// The status of a storage error (those of file and JSON failures are answered where
/// they arise).
pub fn storage_status(e: &StorageError) -> (r: u16)
    ensures
        r == spec_storage_status(*e),
{
    match e {
        StorageError::NotFound(_) | StorageError::IsoNotFound(_) | StorageError::SnapshotNotFound(
            _,
        ) => 404,
        StorageError::NameTaken(_) | StorageError::IsoExists(_) | StorageError::SnapshotExists(
            _,
        ) => 409,
        StorageError::InvalidIsoName(_)
        | StorageError::CannotShrink { .. }
        | StorageError::Message(_)
        | StorageError::QemuImgRequired
        | StorageError::LinkedRequiresQemu => 400,
    }
}

pub open spec fn spec_net_status(e: NetError) -> u16 {
    match e {
        NetError::NotFound(_) => 404,
        NetError::NameTaken(_) | NetError::PoolExhausted(_) => 409,
        NetError::Invalid(_) | NetError::Host(_) => 400,
    }
}

pub fn net_status(e: &NetError) -> (r: u16)
    ensures
        r == spec_net_status(*e),
{
    match e {
        NetError::NotFound(_) => 404,
        NetError::NameTaken(_) | NetError::PoolExhausted(_) => 409,
        NetError::Invalid(_) | NetError::Host(_) => 400,
    }
}

pub open spec fn spec_error_status(e: DaemonError) -> u16 {
    match e {
        DaemonError::NotFound(_) => 404,
        DaemonError::NameTaken(_) => 409,
        DaemonError::MustBeStopped(_, _) | DaemonError::VolumeBusy(_) | DaemonError::IsoBusy(
            _,
        ) | DaemonError::InvalidState(_, _) => 409,
        DaemonError::Types(_) => 400,
        DaemonError::Control(c) => match c {
            ControlError::Unauthorized | ControlError::BadCredentials => 401,
            ControlError::Forbidden => 403,
            ControlError::UserNotFound(_) => 404,
            ControlError::UserExists(_) => 409,
            ControlError::Message(_) => 400,
            ControlError::Password(_) => 500,
        },
        DaemonError::NoQuorum | DaemonError::Fenced | DaemonError::Unschedulable(_)
        | DaemonError::Capacity(_) => 503,
        DaemonError::Peer(_) => 502,
        DaemonError::Storage(s) => spec_storage_status(s),
        DaemonError::Net(n) => spec_net_status(n),
        _ => 500,
    }
}

/// The HTTP status a daemon error answers with.
pub fn error_status(e: &DaemonError) -> (r: u16)
    ensures
        r == spec_error_status(*e),
{
    match e {
        DaemonError::NotFound(_) => 404,
        DaemonError::NameTaken(_) => 409,
        DaemonError::MustBeStopped(_, _) | DaemonError::VolumeBusy(_) | DaemonError::IsoBusy(
            _,
        ) | DaemonError::InvalidState(_, _) => 409,
        DaemonError::Types(_) => 400,
        DaemonError::Control(c) => match c {
            ControlError::Unauthorized | ControlError::BadCredentials => 401,
            ControlError::Forbidden => 403,
            ControlError::UserNotFound(_) => 404,
            ControlError::UserExists(_) => 409,
            ControlError::Message(_) => 400,
            ControlError::Password(_) => 500,
        },
        DaemonError::NoQuorum | DaemonError::Fenced | DaemonError::Unschedulable(_)
        | DaemonError::Capacity(_) => 503,
        DaemonError::Peer(_) => 502,
        DaemonError::Storage(s) => storage_status(s),
        DaemonError::Net(n) => net_status(n),
        DaemonError::IdTaken(_) | DaemonError::IsTemplate(_, _) | DaemonError::BackupNotFound(_)
        | DaemonError::Apt(_) | DaemonError::HostPower(_) => 500,
    }
}

// ---------------------------------------------------------------------------
// Error texts
// ---------------------------------------------------------------------------

fn cat(a: &str, b: &str) -> (r: String)
    ensures
        r@ == a@ + b@,
{
    let mut v = chars_of(a);
    append_str(&mut v, b);
    string_of(v.as_slice())
}

fn cat3(a: &str, b: &str, c: &str) -> (r: String)
    ensures
        r@ == a@ + b@ + c@,
{
    let mut v = chars_of(a);
    append_str(&mut v, b);
    append_str(&mut v, c);
    string_of(v.as_slice())
}

pub open spec fn spec_types_message(e: TypesError) -> Seq<char> {
    match e {
        TypesError::InvalidVmId(s) => "invalid vm id: "@ + s@,
        TypesError::InvalidVolumeId(s) => "invalid volume id: "@ + s@,
        TypesError::InvalidSpec(s) => "invalid vm spec: "@ + s@,
    }
}

pub fn types_message(e: &TypesError) -> (r: String)
    ensures
        r@ == spec_types_message(*e),
{
    match e {
        TypesError::InvalidVmId(s) => cat("invalid vm id: ", s.as_str()),
        TypesError::InvalidVolumeId(s) => cat("invalid volume id: ", s.as_str()),
        TypesError::InvalidSpec(s) => cat("invalid vm spec: ", s.as_str()),
    }
}

pub open spec fn spec_storage_message(e: StorageError) -> Seq<char> {
    match e {
        StorageError::NotFound(id) => "volume not found: "@ + uuid_text(id.0),
        StorageError::NameTaken(s) => "volume name already exists: "@ + s@,
        StorageError::IsoNotFound(s) => "iso not found: "@ + s@,
        StorageError::IsoExists(s) => "iso already exists: "@ + s@,
        StorageError::InvalidIsoName(s) => "invalid iso name: "@ + s@,
        StorageError::SnapshotNotFound(s) => "snapshot not found: "@ + s@,
        StorageError::SnapshotExists(s) => "snapshot already exists: "@ + s@,
        StorageError::QemuImgRequired => "qcow2 requires qemu-img"@,
        StorageError::LinkedRequiresQemu => "linked clone requires qemu-img"@,
        StorageError::CannotShrink { from, to } => "cannot shrink volume from "@ + dec(from as nat)
            + " to "@ + dec(to as nat) + " bytes"@,
        StorageError::Message(s) => s@,
    }
}

pub fn storage_message(e: &StorageError) -> (r: String)
    ensures
        r@ == spec_storage_message(*e),
{
    match e {
        StorageError::NotFound(id) => cat("volume not found: ", id.to_string().as_str()),
        StorageError::NameTaken(s) => cat("volume name already exists: ", s.as_str()),
        StorageError::IsoNotFound(s) => cat("iso not found: ", s.as_str()),
        StorageError::IsoExists(s) => cat("iso already exists: ", s.as_str()),
        StorageError::InvalidIsoName(s) => cat("invalid iso name: ", s.as_str()),
        StorageError::SnapshotNotFound(s) => cat("snapshot not found: ", s.as_str()),
        StorageError::SnapshotExists(s) => cat("snapshot already exists: ", s.as_str()),
        StorageError::QemuImgRequired => string_of(chars_of("qcow2 requires qemu-img").as_slice()),
        StorageError::LinkedRequiresQemu => string_of(
            chars_of("linked clone requires qemu-img").as_slice(),
        ),
        StorageError::CannotShrink { from, to } => {
            let mut v = chars_of("cannot shrink volume from ");
            append_chars(&mut v, dec_vec(*from).as_slice());
            append_str(&mut v, " to ");
            append_chars(&mut v, dec_vec(*to).as_slice());
            append_str(&mut v, " bytes");
            string_of(v.as_slice())
        },
        StorageError::Message(s) => string_of(chars_of(s.as_str()).as_slice()),
    }
}

pub open spec fn spec_net_message(e: NetError) -> Seq<char> {
    match e {
        NetError::NotFound(s) => "network not found: "@ + s@,
        NetError::NameTaken(s) => "network name already exists: "@ + s@,
        NetError::Invalid(s) => "invalid network: "@ + s@,
        NetError::PoolExhausted(s) => "address pool exhausted for "@ + s@,
        NetError::Host(s) => s@,
    }
}

pub fn net_message(e: &NetError) -> (r: String)
    ensures
        r@ == spec_net_message(*e),
{
    match e {
        NetError::NotFound(s) => cat("network not found: ", s.as_str()),
        NetError::NameTaken(s) => cat("network name already exists: ", s.as_str()),
        NetError::Invalid(s) => cat("invalid network: ", s.as_str()),
        NetError::PoolExhausted(s) => cat("address pool exhausted for ", s.as_str()),
        NetError::Host(s) => string_of(chars_of(s.as_str()).as_slice()),
    }
}

pub open spec fn spec_control_message(e: ControlError) -> Seq<char> {
    match e {
        ControlError::Unauthorized => "unauthorized"@,
        ControlError::Forbidden => "forbidden"@,
        ControlError::UserNotFound(s) => "user not found: "@ + s@,
        ControlError::UserExists(s) => "username already exists: "@ + s@,
        ControlError::BadCredentials => "invalid credentials"@,
        ControlError::Message(s) => s@,
        ControlError::Password(s) => "password hash: "@ + s@,
    }
}

pub fn control_message(e: &ControlError) -> (r: String)
    ensures
        r@ == spec_control_message(*e),
{
    match e {
        ControlError::Unauthorized => string_of(chars_of("unauthorized").as_slice()),
        ControlError::Forbidden => string_of(chars_of("forbidden").as_slice()),
        ControlError::UserNotFound(s) => cat("user not found: ", s.as_str()),
        ControlError::UserExists(s) => cat("username already exists: ", s.as_str()),
        ControlError::BadCredentials => string_of(chars_of("invalid credentials").as_slice()),
        ControlError::Message(s) => string_of(chars_of(s.as_str()).as_slice()),
        ControlError::Password(s) => cat("password hash: ", s.as_str()),
    }
}

/// What a daemon error says in an API error body.
pub open spec fn spec_error_message(e: DaemonError) -> Seq<char> {
    match e {
        DaemonError::NotFound(id) => "vm not found: "@ + uuid_text(id.0),
        DaemonError::NameTaken(s) => "vm name already exists: "@ + s@,
        DaemonError::IdTaken(id) => "vm id already exists: "@ + uuid_text(id.0),
        DaemonError::MustBeStopped(id, op) => "vm "@ + uuid_text(id.0) + " must be stopped to "@
            + op@,
        DaemonError::IsTemplate(id, op) => "vm "@ + uuid_text(id.0) + " is a template; cannot "@
            + op@,
        DaemonError::InvalidState(st, op) => "invalid state "@ + st.spec_as_str() + " for "@ + op@,
        DaemonError::VolumeBusy(id) => "volume "@ + uuid_text(id.0) + " is attached to a vm"@,
        DaemonError::IsoBusy(s) => "iso "@ + s@ + " is attached to a vm"@,
        DaemonError::BackupNotFound(s) => "backup not found: "@ + s@,
        DaemonError::NoQuorum => "no cluster quorum"@,
        DaemonError::Fenced => "node is fenced (lost quorum)"@,
        DaemonError::Capacity(s) => "insufficient host capacity: "@ + s@,
        DaemonError::Unschedulable(s) => "no node has capacity for this vm ("@ + s@ + ")"@,
        DaemonError::Peer(s) => "cluster peer: "@ + s@,
        DaemonError::Apt(s) => "apt: "@ + s@,
        DaemonError::HostPower(s) => "host power: "@ + s@,
        DaemonError::Control(c) => spec_control_message(c),
        DaemonError::Types(t) => spec_types_message(t),
        DaemonError::Storage(x) => spec_storage_message(x),
        DaemonError::Net(n) => spec_net_message(n),
    }
}

pub fn error_message(e: &DaemonError) -> (r: String)
    ensures
        r@ == spec_error_message(*e),
{
    match e {
        DaemonError::NotFound(id) => cat("vm not found: ", id.to_string().as_str()),
        DaemonError::NameTaken(s) => cat("vm name already exists: ", s.as_str()),
        DaemonError::IdTaken(id) => cat("vm id already exists: ", id.to_string().as_str()),
        DaemonError::MustBeStopped(id, op) => {
            let mut v = chars_of("vm ");
            append_str(&mut v, id.to_string().as_str());
            append_str(&mut v, " must be stopped to ");
            append_str(&mut v, op.as_str());
            string_of(v.as_slice())
        },
        DaemonError::InvalidState(st, op) => {
            let mut v = chars_of("invalid state ");
            append_str(&mut v, st.as_str());
            append_str(&mut v, " for ");
            append_str(&mut v, op.as_str());
            string_of(v.as_slice())
        },
        DaemonError::IsTemplate(id, op) => {
            let mut v = chars_of("vm ");
            append_str(&mut v, id.to_string().as_str());
            append_str(&mut v, " is a template; cannot ");
            append_str(&mut v, op.as_str());
            string_of(v.as_slice())
        },
        DaemonError::VolumeBusy(id) => cat3("volume ", id.to_string().as_str(), " is attached to a vm"),
        DaemonError::IsoBusy(s) => cat3("iso ", s.as_str(), " is attached to a vm"),
        DaemonError::BackupNotFound(s) => cat("backup not found: ", s.as_str()),
        DaemonError::NoQuorum => string_of(chars_of("no cluster quorum").as_slice()),
        DaemonError::Fenced => string_of(chars_of("node is fenced (lost quorum)").as_slice()),
        DaemonError::Capacity(s) => cat("insufficient host capacity: ", s.as_str()),
        DaemonError::Unschedulable(s) => cat3("no node has capacity for this vm (", s.as_str(), ")"),
        DaemonError::Peer(s) => cat("cluster peer: ", s.as_str()),
        DaemonError::Apt(s) => cat("apt: ", s.as_str()),
        DaemonError::HostPower(s) => cat("host power: ", s.as_str()),
        DaemonError::Control(c) => control_message(c),
        DaemonError::Types(t) => types_message(t),
        DaemonError::Storage(x) => storage_message(x),
        DaemonError::Net(n) => net_message(n),
    }
}


// ---------------------------------------------------------------------------
// Users
// ---------------------------------------------------------------------------

/// A new user needs a non-blank name and a password of at least 4 bytes.
pub fn check_new_user(username: &str, password: &str) -> (r: Result<(), ControlError>)
    ensures
        (trim(username@).len() == 0 || crate::updates::byte_len(password@) < 4) ==> (r matches Err(
            ControlError::Message(m),
        ) && m@ == "username required and password must be at least 4 characters"@),
        !(trim(username@).len() == 0 || crate::updates::byte_len(password@) < 4) ==> r is Ok,
{
    let t = crate::text::trim_vec(chars_of(username).as_slice());
    if t.len() == 0 || !crate::updates::byte_len_at_least(password, 4) {
        return Err(
            ControlError::Message(
                string_of(
                    chars_of(
                        "username required and password must be at least 4 characters",
                    ).as_slice(),
                ),
            ),
        );
    }
    Ok(())
}

/// The user made when the user table is empty (`users` counts it): `admin`, with the
/// password from the environment when given, else `admin`.
pub fn bootstrap_admin(admin_password: Option<&str>, users: u64) -> (r: Option<(String, String)>)
    ensures
        users > 0 ==> r is None,
        users == 0 ==> (r matches Some((u, p)) && u@ == "admin"@ && p@ == (match admin_password {
            Some(pw) => pw@,
            None => "admin"@,
        })),
{
    if users > 0 {
        return None;
    }
    let pw = match admin_password {
        Some(p) => string_of(chars_of(p).as_slice()),
        None => string_of(chars_of("admin").as_slice()),
    };
    Some((string_of(chars_of("admin").as_slice()), pw))
}

}
