//! Identifiers (UUID values held as 128-bit integers), their text form, and string copies.
use vstd::prelude::*;

use crate::netnames::{hex_pad, hex_pad_vec};
use crate::text::{append_chars, chars_of, slice_vec, string_of};
use crate::types::{TypesError, TypesErrorView};

verus! {

/// The fixed bits of a random (version 4, RFC 4122 variant) UUID: the version nibble is
/// 4 and the two top bits of the variant octet are `10`; the other 122 bits are free.
pub open spec fn has_v4_layout(v: u128) -> bool {
    v & 0x0000_0000_0000_F000_C000_0000_0000_0000u128 == 0x0000_0000_0000_4000_8000_0000_0000_0000u128
}

/// `uuid::Uuid::new_v4`, then `Uuid::as_u128`: a fresh random UUID as its 128-bit value.
/// Claimed: the value has the version-4 layout (`new_v4` masks a random number and sets
/// the version and variant bits). The other 122 bits are random and nothing is said of them.
#[verifier::external_body]
pub(crate) fn random_uuid() -> (r: u128)
    ensures
        has_v4_layout(r),
{
    uuid::Uuid::new_v4().as_u128()
}

/// Identifier of a cluster node. Ordered as the UUID it holds.
#[derive(Clone, Copy, Debug, PartialEq, Eq, Structural, Hash, PartialOrd, Ord)]
pub struct NodeId(pub u128);

/// Identifier of a virtual machine.
#[derive(Clone, Copy, Debug, PartialEq, Eq, Structural, Hash, PartialOrd, Ord)]
pub struct VmId(pub u128);

/// Identifier of a volume.
#[derive(Clone, Copy, Debug, PartialEq, Eq, Structural, Hash, PartialOrd, Ord)]
pub struct VolumeId(pub u128);

impl NodeId {
    /// A new random node id.
    pub fn new() -> (r: NodeId)
        ensures
            has_v4_layout(r.0),
    {
        NodeId(random_uuid())
    }
}

impl VmId {
    /// A new random VM id.
    pub fn new() -> (r: VmId)
        ensures
            has_v4_layout(r.0),
    {
        VmId(random_uuid())
    }
}

impl VolumeId {
    /// A new random volume id.
    pub fn new() -> (r: VolumeId)
        ensures
            has_v4_layout(r.0),
    {
        VolumeId(random_uuid())
    }
}

/// The hyphenated lower-case text of a UUID: its 32 hex digits, most significant first,
/// grouped 8-4-4-4-12.
pub open spec fn uuid_text(v: u128) -> Seq<char> {
    let h = hex_pad(v as nat, 32);
    h.subrange(0, 8) + seq!['-'] + h.subrange(8, 12) + seq!['-'] + h.subrange(12, 16) + seq!['-']
        + h.subrange(16, 20) + seq!['-'] + h.subrange(20, 32)
}

/// A UUID's text has 36 characters.
pub proof fn lemma_uuid_text_len(v: u128)
    ensures
        uuid_text(v).len() == 36,
{
    lemma_hex_pad_len(v as nat, 32);
}

proof fn lemma_hex_pad_len(n: nat, width: nat)
    ensures
        hex_pad(n, width).len() == width,
    decreases width,
{
    if width > 0 {
        lemma_hex_pad_len(n / 16, (width - 1) as nat);
    }
}

pub(crate) fn uuid_string(v: u128) -> (r: String)
    ensures
        r@ == uuid_text(v),
{
    let h = hex_pad_vec(v, 32);
    proof {
        lemma_hex_pad_len(v as nat, 32);
    }
    let mut out = slice_vec(h.as_slice(), 0, 8);
    out.push('-');
    append_chars(&mut out, slice_vec(h.as_slice(), 8, 12).as_slice());
    out.push('-');
    append_chars(&mut out, slice_vec(h.as_slice(), 12, 16).as_slice());
    out.push('-');
    append_chars(&mut out, slice_vec(h.as_slice(), 16, 20).as_slice());
    out.push('-');
    append_chars(&mut out, slice_vec(h.as_slice(), 20, 32).as_slice());
    assert(out@ =~= uuid_text(v));
    string_of(out.as_slice())
}

/// What `uuid::Uuid::parse_str` reads from a text, as the UUID's 128-bit value.
pub uninterp spec fn uuid_parse(s: Seq<char>) -> Option<u128>;

/// `uuid::Uuid::parse_str`, then `Uuid::as_u128`. Claimed: the result depends on the text
/// alone, and the hyphenated lower-case text of a value (what `Uuid`'s `Display` prints)
/// reads back as that value. Not stated: the other forms it accepts (32 bare digits,
/// braces, a `urn:uuid:` prefix, upper-case digits) and what it refuses.
#[verifier::external_body]
fn parse_uuid(s: &str) -> (r: Option<u128>)
    ensures
        r == uuid_parse(s@),
        forall|v: u128| s@ == uuid_text(v) ==> r == Some(v),
{
    match uuid::Uuid::parse_str(s) {
        Ok(u) => Some(u.as_u128()),
        Err(_) => None,
    }
}

impl VmId {
    /// The id as a UUID's hyphenated text.
    pub fn to_string(&self) -> (r: String)
        ensures
            r@ == uuid_text(self.0),
    {
        uuid_string(self.0)
    }

    /// An id from UUID text; the text of an id reads back as that id.
    pub fn parse(s: &str) -> (r: Result<VmId, TypesError>)
        ensures
            match r {
                Ok(id) => uuid_parse(s@) == Some(id.0),
                Err(e) => uuid_parse(s@) is None && e@ == TypesErrorView::InvalidVmId(s@),
            },
            forall|v: u128| s@ == uuid_text(v) ==> r == Ok::<VmId, TypesError>(VmId(v)),
    {
        match parse_uuid(s) {
            Some(v) => Ok(VmId(v)),
            None => Err(TypesError::InvalidVmId(string_of(chars_of(s).as_slice()))),
        }
    }
}

impl std::str::FromStr for VmId {
    type Err = TypesError;

    fn from_str(s: &str) -> (r: Result<VmId, TypesError>)
        ensures
            match r {
                Ok(id) => uuid_parse(s@) == Some(id.0),
                Err(e) => uuid_parse(s@) is None && e@ == TypesErrorView::InvalidVmId(s@),
            },
            forall|v: u128| s@ == uuid_text(v) ==> r == Ok::<VmId, TypesError>(VmId(v)),
    {
        VmId::parse(s)
    }
}

impl VolumeId {
    /// The id as a UUID's hyphenated text.
    pub fn to_string(&self) -> (r: String)
        ensures
            r@ == uuid_text(self.0),
    {
        uuid_string(self.0)
    }

    /// An id from UUID text; the text of an id reads back as that id.
    pub fn parse(s: &str) -> (r: Result<VolumeId, TypesError>)
        ensures
            match r {
                Ok(id) => uuid_parse(s@) == Some(id.0),
                Err(e) => uuid_parse(s@) is None && e@ == TypesErrorView::InvalidVolumeId(s@),
            },
            forall|v: u128| s@ == uuid_text(v) ==> r == Ok::<VolumeId, TypesError>(VolumeId(v)),
    {
        match parse_uuid(s) {
            Some(v) => Ok(VolumeId(v)),
            None => Err(TypesError::InvalidVolumeId(string_of(chars_of(s).as_slice()))),
        }
    }
}

impl std::str::FromStr for VolumeId {
    type Err = TypesError;

    fn from_str(s: &str) -> (r: Result<VolumeId, TypesError>)
        ensures
            match r {
                Ok(id) => uuid_parse(s@) == Some(id.0),
                Err(e) => uuid_parse(s@) is None && e@ == TypesErrorView::InvalidVolumeId(s@),
            },
            forall|v: u128| s@ == uuid_text(v) ==> r == Ok::<VolumeId, TypesError>(VolumeId(v)),
    {
        VolumeId::parse(s)
    }
}

/// A copy of a list of strings.
pub fn clone_strings(v: &Vec<String>) -> (r: Vec<String>)
    ensures
        r@ == v@,
{
    let mut r: Vec<String> = Vec::new();
    let mut i: usize = 0;
    while i < v.len()
        invariant
            i <= v.len(),
            r@ == v@.take(i as int),
        decreases v.len() - i,
    {
        r.push(v[i].clone());
        assert(r@ =~= v@.take(i as int + 1));
        i += 1;
    }
    assert(v@.take(v.len() as int) =~= v@);
    r
}

/// A copy of an optional string.
pub fn clone_opt_string(s: &Option<String>) -> (r: Option<String>)
    ensures
        r == *s,
{
    match s {
        Some(x) => Some(x.clone()),
        None => None,
    }
}

} // verus!
