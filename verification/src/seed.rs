//! Cloud-init seed requests: the name of the seed ISO, its `user-data` and `meta-data`,
//! and which ISO names the store accepts.
use vstd::prelude::*;

use crate::disk_boot::{file_name, path_file_name};
use crate::storage::StorageError;
use crate::text::{
    append_chars, append_str, chars_of, contains, contains_str, ends_with, ends_with_str, has_char,
    lower_seq, lower_vec, slice_vec, string_of, trim, trim_vec, trimmed_nonblank,
};

verus! {

/// A cloud-init seed to create.
pub struct CloudInitIsoRequest {
    pub name: String,
    pub hostname: Option<String>,
    pub user: Option<String>,
    pub password: Option<String>,
    pub ssh_authorized_keys: Vec<String>,
    pub userdata: Option<String>,
}

pub open spec fn opt_view(o: Option<String>) -> Option<Seq<char>> {
    match o {
        Some(x) => Some(x@),
        None => None,
    }
}

// ---------------------------------------------------------------------------
// ISO names
// ---------------------------------------------------------------------------

/// A stored ISO name: a file name that is not empty, does not start with `.`, and holds
/// no `/` or `\`.
pub open spec fn valid_iso_name(n: Seq<char>) -> bool {
    n.len() > 0 && n[0] != '.' && !n.contains('/') && !n.contains('\\')
}

/// The name an ISO is stored under: the explicit name, else the source's file name (else
/// `disk.iso`), reduced to its own file name (empty when it has none).
pub open spec fn spec_iso_name(source: Seq<char>, explicit: Option<Seq<char>>) -> Result<
    Seq<char>,
    Seq<char>,
> {
    let given = match explicit {
        Some(n) => n,
        None => match path_file_name(source) {
            Some(f) => f,
            None => "disk.iso"@,
        },
    };
    let name = match path_file_name(given) {
        Some(f) => f,
        None => seq![],
    };
    if valid_iso_name(name) {
        Ok(name)
    } else {
        Err(name)
    }
}

pub open spec fn iso_name_result(r: Result<String, StorageError>) -> Result<Seq<char>, Seq<char>> {
    match r {
        Ok(n) => Ok(n@),
        Err(StorageError::InvalidIsoName(n)) => Err(n@),
        Err(_) => Err(seq!['\0']),
    }
}

/// The name an ISO is stored under; `InvalidIsoName` with that name when it cannot be.
pub fn iso_name(source: &str, explicit: Option<String>) -> (r: Result<String, StorageError>)
    ensures
        r is Ok || r matches Err(StorageError::InvalidIsoName(_)),
        iso_name_result(r) == spec_iso_name(source@, opt_view(explicit)),
{
    let given: Vec<char> = match explicit {
        Some(n) => chars_of(n.as_str()),
        None => match file_name(source) {
            Some(f) => f,
            None => chars_of("disk.iso"),
        },
    };
    let g = string_of(given.as_slice());
    let name: Vec<char> = match file_name(g.as_str()) {
        Some(f) => f,
        None => Vec::new(),
    };
    if name.len() == 0 || name[0] == '.' || has_char(name.as_slice(), '/') || has_char(
        name.as_slice(),
        '\\',
    ) {
        return Err(StorageError::InvalidIsoName(string_of(name.as_slice())));
    }
    Ok(string_of(name.as_slice()))
}

/// `s` without every trailing copy of `p`.
pub open spec fn strip_suffixes(s: Seq<char>, p: Seq<char>) -> Seq<char>
    decreases s.len(),
{
    if p.len() > 0 && ends_with(s, p) {
        strip_suffixes(s.take(s.len() - p.len()), p)
    } else {
        s
    }
}

fn strip_suffixes_vec(s: &[char], p: &str) -> (r: Vec<char>)
    ensures
        r@ == strip_suffixes(s@, p@),
{
    let pv = chars_of(p);
    let mut hi: usize = s.len();
    assert(s@.take(hi as int) =~= s@);
    while pv.len() > 0 && crate::text::ends_with_vec(slice_vec(s, 0, hi).as_slice(), pv.as_slice())
        invariant
            hi <= s.len(),
            pv@ == p@,
            strip_suffixes(s@, p@) == strip_suffixes(s@.take(hi as int), p@),
        decreases hi,
    {
        assert(s@.subrange(0, hi as int) =~= s@.take(hi as int));
        assert(s@.take(hi as int).take(hi - pv.len()) =~= s@.take(hi - pv.len()));
        hi = hi - pv.len();
    }
    assert(s@.subrange(0, hi as int) =~= s@.take(hi as int));
    slice_vec(s, 0, hi)
}

/// The seed ISO's name from the request's: trimmed (`cidata.iso` when blank), `.iso`
/// added unless it ends so in any case, and `-cidata.iso` in place of the extension
/// unless the name already mentions `cidata` in any case.
pub open spec fn spec_seed_name(name: Seq<char>) -> Seq<char> {
    let t = trim(name);
    let n1 = if t.len() == 0 {
        "cidata.iso"@
    } else {
        t
    };
    let n2 = if ends_with(lower_seq(n1), ".iso"@) {
        n1
    } else {
        n1 + ".iso"@
    };
    if contains(lower_seq(n2), "cidata"@) {
        n2
    } else {
        strip_suffixes(strip_suffixes(n2, ".iso"@), ".ISO"@) + "-cidata.iso"@
    }
}

pub fn seed_name(name: &str) -> (r: String)
    ensures
        r@ == spec_seed_name(name@),
{
    let t = trim_vec(chars_of(name).as_slice());
    let n1 = if t.len() == 0 {
        chars_of("cidata.iso")
    } else {
        t
    };
    let mut n2 = n1;
    if !ends_with_str(lower_vec(n2.as_slice()).as_slice(), ".iso") {
        append_str(&mut n2, ".iso");
    }
    if contains_str(lower_vec(n2.as_slice()).as_slice(), "cidata") {
        return string_of(n2.as_slice());
    }
    let a = strip_suffixes_vec(n2.as_slice(), ".iso");
    let mut b = strip_suffixes_vec(a.as_slice(), ".ISO");
    append_str(&mut b, "-cidata.iso");
    string_of(b.as_slice())
}

/// The name a seed ISO is stored under (see `seed_name` and `iso_name`).
pub fn cloudinit_iso_name(req: &CloudInitIsoRequest) -> (r: Result<String, StorageError>)
    ensures
        r is Ok || r matches Err(StorageError::InvalidIsoName(_)),
        iso_name_result(r) == spec_iso_name(
            spec_seed_name(req.name@),
            Some(spec_seed_name(req.name@)),
        ),
{
    let n = seed_name(req.name.as_str());
    let m = string_of(chars_of(n.as_str()).as_slice());
    iso_name(n.as_str(), Some(m))
}

// ---------------------------------------------------------------------------
// Seed documents
// ---------------------------------------------------------------------------

/// An optional text, trimmed, when it is not blank.
pub open spec fn nonblank(o: Option<Seq<char>>) -> Option<Seq<char>> {
    match o {
        Some(x) => if trim(x).len() > 0 {
            Some(trim(x))
        } else {
            None
        },
        None => None,
    }
}

fn nonblank_of(o: &Option<String>) -> (r: Option<Vec<char>>)
    ensures
        match r {
            Some(v) => nonblank(opt_view(*o)) == Some(v@),
            None => nonblank(opt_view(*o)) is None,
        },
{
    match o {
        Some(x) => {
            let t = trim_vec(chars_of(x.as_str()).as_slice());
            if t.len() > 0 {
                Some(t)
            } else {
                None
            }
        },
        None => None,
    }
}

pub open spec fn key_lines(keys: Seq<Seq<char>>) -> Seq<char>
    decreases keys.len(),
{
    if keys.len() == 0 {
        seq![]
    } else {
        key_lines(keys.drop_last()) + "      - "@ + keys.last() + "\n"@
    }
}

pub open spec fn strings_view(v: Seq<String>) -> Seq<Seq<char>> {
    Seq::new(v.len(), |i: int| v[i]@)
}

/// The seed's `user-data`: the request's own (trimmed) when given; else a cloud-config
/// naming the host (default `pertisk`), a passwordless-sudo user (default `ubuntu`) with
/// the request's keys, and the user's password when one is set.
pub open spec fn spec_user_data(req: CloudInitIsoRequest) -> Seq<char> {
    match nonblank(opt_view(req.userdata)) {
        Some(raw) => raw,
        None => {
            let user = match nonblank(opt_view(req.user)) {
                Some(u) => u,
                None => "ubuntu"@,
            };
            let host = match nonblank(opt_view(req.hostname)) {
                Some(h) => h,
                None => "pertisk"@,
            };
            let keys = trimmed_nonblank(strings_view(req.ssh_authorized_keys@));
            "#cloud-config\nhostname: "@ + host + "\nmanage_etc_hosts: true\nusers:\n  - name: "@
                + user
                + "\n    sudo: ALL=(ALL) NOPASSWD:ALL\n    groups: sudo\n    shell: /bin/bash\n    lock_passwd: false\n"@
                + (if keys.len() > 0 {
                "    ssh_authorized_keys:\n"@ + key_lines(keys)
            } else {
                seq![]
            }) + match nonblank(opt_view(req.password)) {
                Some(p) => "chpasswd:\n  expire: false\n  list: |\n    "@ + user + ":"@ + p
                    + "\nssh_pwauth: true\n"@,
                None => seq![],
            }
        },
    }
}

pub fn cloudinit_user_data(req: &CloudInitIsoRequest) -> (r: String)
    ensures
        r@ == spec_user_data(*req),
{
    if let Some(raw) = nonblank_of(&req.userdata) {
        return string_of(raw.as_slice());
    }
    let user = match nonblank_of(&req.user) {
        Some(u) => u,
        None => chars_of("ubuntu"),
    };
    let host = match nonblank_of(&req.hostname) {
        Some(h) => h,
        None => chars_of("pertisk"),
    };
    let mut y = chars_of("#cloud-config\nhostname: ");
    append_chars(&mut y, host.as_slice());
    append_str(&mut y, "\nmanage_etc_hosts: true\nusers:\n  - name: ");
    append_chars(&mut y, user.as_slice());
    append_str(
        &mut y,
        "\n    sudo: ALL=(ALL) NOPASSWD:ALL\n    groups: sudo\n    shell: /bin/bash\n    lock_passwd: false\n",
    );
    let ghost head = y@;
    let ghost kv = strings_view(req.ssh_authorized_keys@);
    let mut keys: Vec<Vec<char>> = Vec::new();
    let mut i: usize = 0;
    while i < req.ssh_authorized_keys.len()
        invariant
            i <= req.ssh_authorized_keys.len(),
            kv == strings_view(req.ssh_authorized_keys@),
            keys.deep_view() == trimmed_nonblank(kv.take(i as int)),
        decreases req.ssh_authorized_keys.len() - i,
    {
        assert(kv.take(i as int + 1).drop_last() =~= kv.take(i as int));
        let t = trim_vec(chars_of(req.ssh_authorized_keys[i].as_str()).as_slice());
        if t.len() > 0 {
            crate::text::push_piece(&mut keys, t);
        }
        i += 1;
    }
    assert(kv.take(req.ssh_authorized_keys.len() as int) =~= kv);
    let ghost kd = keys.deep_view();
    if keys.len() > 0 {
        append_str(&mut y, "    ssh_authorized_keys:\n");
        let ghost mid = y@;
        let mut k: usize = 0;
        while k < keys.len()
            invariant
                k <= keys.len(),
                kd == keys.deep_view(),
                y@ == mid + key_lines(kd.take(k as int)),
            decreases keys.len() - k,
        {
            proof {
                crate::text::lemma_char_vec_dv(keys@[k as int]);
                assert(kd.take(k as int + 1).drop_last() =~= kd.take(k as int));
            }
            append_str(&mut y, "      - ");
            append_chars(&mut y, keys[k].as_slice());
            append_str(&mut y, "\n");
            k += 1;
        }
        assert(kd.take(keys.len() as int) =~= kd);
    }
    if let Some(p) = nonblank_of(&req.password) {
        append_str(&mut y, "chpasswd:\n  expire: false\n  list: |\n    ");
        append_chars(&mut y, user.as_slice());
        append_str(&mut y, ":");
        append_chars(&mut y, p.as_slice());
        append_str(&mut y, "\nssh_pwauth: true\n");
    }
    string_of(y.as_slice())
}

/// The seed's `meta-data`: an instance id and local host name from the request's host
/// name (default `pertisk`).
pub fn cloudinit_meta_data(req: &CloudInitIsoRequest) -> (r: String)
    ensures
        r@ == ({
            let host = match nonblank(opt_view(req.hostname)) {
                Some(h) => h,
                None => "pertisk"@,
            };
            "instance-id: iid-"@ + host + "\nlocal-hostname: "@ + host + "\n"@
        }),
{
    let host = match nonblank_of(&req.hostname) {
        Some(h) => h,
        None => chars_of("pertisk"),
    };
    let mut m = chars_of("instance-id: iid-");
    append_chars(&mut m, host.as_slice());
    append_str(&mut m, "\nlocal-hostname: ");
    append_chars(&mut m, host.as_slice());
    append_str(&mut m, "\n");
    string_of(m.as_slice())
}

} // verus!
