//! Interface names and addresses derived for guests.
use vstd::prelude::*;

use crate::ids::VmId;
use crate::text::{append_chars, append_str, chars_of, dec, dec_vec, is_alnum, string_of};

verus! {

pub open spec fn ifname_char(c: char) -> bool {
    is_alnum(c) || c == '_' || c == '-'
}

/// A Linux interface name: 1 to 15 bytes of letters, digits, `_` and `-`.
pub open spec fn spec_valid_ifname(name: Seq<char>) -> bool {
    &&& name.len() > 0
    &&& name.len() <= 15
    &&& forall|i: int| 0 <= i < name.len() ==> ifname_char(#[trigger] name[i])
}

pub fn valid_ifname(name: &str) -> (r: bool)
    ensures
        r == spec_valid_ifname(name@),
{
    let v = chars_of(name);
    if v.len() == 0 || v.len() > 15 {
        return false;
    }
    let mut i: usize = 0;
    while i < v.len()
        invariant
            i <= v.len(),
            v@ == name@,
            forall|j: int| 0 <= j < i ==> ifname_char(#[trigger] name@[j]),
        decreases v.len() - i,
    {
        let c = v[i];
        if !(crate::text::is_alnum_char(c) || c == '_' || c == '-') {
            return false;
        }
        i += 1;
    }
    true
}

/// The bridge for a new network: its name when that is a valid interface name, else
/// `vmbr<n>` after the existing networks.
pub fn default_bridge(name: &str, existing: usize) -> (r: String)
    ensures
        r@ == (if spec_valid_ifname(name@) {
            name@
        } else {
            "vmbr"@ + dec(existing as nat)
        }),
{
    if valid_ifname(name) {
        string_of(chars_of(name).as_slice())
    } else {
        let mut v = chars_of("vmbr");
        append_chars(&mut v, dec_vec(existing as u64).as_slice());
        string_of(v.as_slice())
    }
}

pub open spec fn hex_char(d: nat) -> char {
    if d < 10 {
        (48 + d) as char
    } else {
        (87 + d) as char
    }
}

/// `n` in `width` lower-case hex digits (the low ones).
pub open spec fn hex_pad(n: nat, width: nat) -> Seq<char>
    decreases width,
{
    if width == 0 {
        seq![]
    } else {
        hex_pad(n / 16, (width - 1) as nat).push(hex_char(n % 16))
    }
}

pub(crate) fn hex_pad_vec(n: u128, width: u32) -> (r: Vec<char>)
    requires
        width <= 32,
    ensures
        r@ == hex_pad(n as nat, width as nat),
    decreases width,
{
    if width == 0 {
        Vec::new()
    } else {
        let mut v = hex_pad_vec(n / 16, width - 1);
        let d = (n % 16) as u32;
        let c = if d < 10 {
            crate::text::char_of_ascii(48 + d)
        } else {
            crate::text::char_of_ascii(87 + d)
        };
        v.push(c);
        v
    }
}

/// TAP device of a guest NIC: `p`, the first eight hex digits of the VM id, the NIC index.
pub fn tap_name(vm_id: VmId, nic_index: u8) -> (r: String)
    ensures
        r@ == "p"@ + hex_pad((vm_id.0 / 0x1_0000_0000_0000_0000_0000_0000) as nat, 8) + dec(
            nic_index as nat,
        ),
{
    let mut v = chars_of("p");
    let hi = vm_id.0 / 0x1_0000_0000_0000_0000_0000_0000;
    append_chars(&mut v, hex_pad_vec(hi, 8).as_slice());
    append_chars(&mut v, dec_vec(nic_index as u64).as_slice());
    string_of(v.as_slice())
}

/// A locally administered MAC in QEMU's range from the VM id's last three bytes, the
/// last one XOR the NIC index.
pub fn guest_mac(vm_id: VmId, nic_index: u8) -> (r: String)
    ensures
        r@ == "52:54:00:"@ + hex_pad(((vm_id.0 / 0x1_0000_00) % 256) as nat, 2) + ":"@ + hex_pad(
            ((vm_id.0 / 0x1_00) % 256) as nat,
            2,
        ) + ":"@ + hex_pad(((vm_id.0 % 256) as u8 ^ nic_index) as nat, 2),
{
    let x = vm_id.0;
    let b13 = (x / 0x1_0000_00) % 256;
    let b14 = (x / 0x1_00) % 256;
    let b15 = ((x % 256) as u8) ^ nic_index;
    let mut v = chars_of("52:54:00:");
    append_chars(&mut v, hex_pad_vec(b13, 2).as_slice());
    append_str(&mut v, ":");
    append_chars(&mut v, hex_pad_vec(b14, 2).as_slice());
    append_str(&mut v, ":");
    append_chars(&mut v, hex_pad_vec(b15 as u128, 2).as_slice());
    string_of(v.as_slice())
}

} // verus!
