//! Host addresses as the kernel lists them: `/proc/net/if_inet6` rows, and which IPv4
//! addresses are worth showing.
use vstd::prelude::*;

use crate::text::{chars_of, lines, lines_of, words, words_of};

verus! {

pub open spec fn is_hex(c: char) -> bool {
    ('0' <= c && c <= '9') || ('a' <= c && c <= 'f') || ('A' <= c && c <= 'F')
}

pub open spec fn hex_value(c: char) -> nat {
    if '0' <= c && c <= '9' {
        (c as nat - 48) as nat
    } else if 'a' <= c && c <= 'f' {
        (c as nat - 87) as nat
    } else {
        (c as nat - 55) as nat
    }
}

fn hex_value_exec(c: char) -> (r: u8)
    requires
        is_hex(c),
    ensures
        r as nat == hex_value(c),
{
    if '0' <= c && c <= '9' {
        (c as u32 - 48) as u8
    } else if 'a' <= c && c <= 'f' {
        (c as u32 - 87) as u8
    } else {
        (c as u32 - 55) as u8
    }
}

/// The 16 bytes of an address written as 32 hex digits (either case); none for any other
/// text.
pub open spec fn spec_inet6_hex(hex: Seq<char>) -> Option<Seq<u8>> {
    if hex.len() == 32 && forall|i: int| 0 <= i < 32 ==> is_hex(#[trigger] hex[i]) {
        Some(Seq::new(16, |i: int| (hex_value(hex[2 * i]) * 16 + hex_value(hex[2 * i + 1])) as u8))
    } else {
        None
    }
}

pub fn parse_inet6_hex(hex: &str) -> (r: Option<Vec<u8>>)
    ensures
        match r {
            Some(b) => spec_inet6_hex(hex@) == Some(b@),
            None => spec_inet6_hex(hex@) is None,
        },
{
    let h = chars_of(hex);
    if h.len() != 32 {
        return None;
    }
    let mut i: usize = 0;
    while i < 32
        invariant
            i <= 32,
            h@ == hex@,
            h@.len() == 32,
            forall|j: int| 0 <= j < i ==> is_hex(#[trigger] hex@[j]),
        decreases 32 - i,
    {
        let c = h[i];
        if !(('0' <= c && c <= '9') || ('a' <= c && c <= 'f') || ('A' <= c && c <= 'F')) {
            return None;
        }
        i += 1;
    }
    let mut out: Vec<u8> = Vec::new();
    let mut k: usize = 0;
    while k < 16
        invariant
            k <= 16,
            h@ == hex@,
            h@.len() == 32,
            forall|j: int| 0 <= j < 32 ==> is_hex(#[trigger] hex@[j]),
            out@.len() == k,
            forall|j: int|
                0 <= j < k ==> out@[j] == (hex_value(hex@[2 * j]) * 16 + hex_value(
                    hex@[2 * j + 1],
                )) as u8,
        decreases 16 - k,
    {
        let a = hex_value_exec(h[2 * k]);
        let b = hex_value_exec(h[2 * k + 1]);
        out.push(a * 16 + b);
        k += 1;
    }
    proof {
        let want = Seq::new(
            16,
            |i: int| (hex_value(hex@[2 * i]) * 16 + hex_value(hex@[2 * i + 1])) as u8,
        );
        assert(out@ =~= want);
    }
    Some(out)
}

/// The addresses of `/proc/net/if_inet6`: the first word of each line that reads as one.
pub open spec fn spec_if_inet6(ls: Seq<Seq<char>>) -> Seq<Seq<u8>>
    decreases ls.len(),
{
    if ls.len() == 0 {
        seq![]
    } else {
        let k = spec_if_inet6(ls.drop_last());
        let ws = words(ls.last());
        if ws.len() > 0 && spec_inet6_hex(ws[0]) is Some {
            k.push(spec_inet6_hex(ws[0])->0)
        } else {
            k
        }
    }
}

pub open spec fn bytes_view(v: Seq<Vec<u8>>) -> Seq<Seq<u8>> {
    Seq::new(v.len(), |i: int| v[i]@)
}

pub fn parse_if_inet6(text: &str) -> (r: Vec<Vec<u8>>)
    ensures
        bytes_view(r@) == spec_if_inet6(lines(text@)),
{
    let ls = lines_of(chars_of(text).as_slice());
    let ghost ld = ls.deep_view();
    let mut out: Vec<Vec<u8>> = Vec::new();
    let mut i: usize = 0;
    while i < ls.len()
        invariant
            i <= ls.len(),
            ld == ls.deep_view(),
            ld == lines(text@),
            bytes_view(out@) == spec_if_inet6(ld.take(i as int)),
        decreases ls.len() - i,
    {
        proof {
            crate::text::lemma_char_vec_dv(ls@[i as int]);
            assert(ld.take(i as int + 1).drop_last() =~= ld.take(i as int));
        }
        let ws = words_of(ls[i].as_slice());
        if ws.len() > 0 {
            proof {
                crate::text::lemma_char_vec_dv(ws@[0]);
            }
            let w = crate::text::string_of(ws[0].as_slice());
            if let Some(b) = parse_inet6_hex(w.as_str()) {
                let ghost o0 = out@;
                let ghost bg = b@;
                out.push(b);
                assert(bytes_view(out@) =~= bytes_view(o0).push(bg));
            }
        }
        i += 1;
    }
    assert(ld.take(ls.len() as int) =~= ld);
    out
}

/// An IPv4 address worth showing: not loopback (`127/8`), unspecified, link-local
/// (`169.254/16`), multicast (`224/4`) or the broadcast address.
pub open spec fn spec_usable_ipv4(o: [u8; 4]) -> bool {
    &&& o[0] != 127
    &&& !(o[0] == 0 && o[1] == 0 && o[2] == 0 && o[3] == 0)
    &&& !(o[0] == 169 && o[1] == 254)
    &&& !(224 <= o[0] && o[0] <= 239)
    &&& !(o[0] == 255 && o[1] == 255 && o[2] == 255 && o[3] == 255)
}

pub fn usable_ipv4(o: [u8; 4]) -> (r: bool)
    ensures
        r == spec_usable_ipv4(o),
{
    o[0] != 127 && !(o[0] == 0 && o[1] == 0 && o[2] == 0 && o[3] == 0) && !(o[0] == 169 && o[1]
        == 254) && !(224 <= o[0] && o[0] <= 239) && !(o[0] == 255 && o[1] == 255 && o[2] == 255
        && o[3] == 255)
}

} // verus!
