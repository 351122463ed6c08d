//! IPv4 networks: CIDR parsing, membership and address allocation.
use vstd::prelude::*;

use crate::text::{
    append_chars, chars_of, dec, dec_vec, find, find_vec, lemma_char_vec_dv, lemma_find_in_range,
    lemma_dec_lacks, lemma_parse_dec, lemma_split_cons, lemma_split_none, parse_unsigned,
    parse_unsigned_vec, slice_vec, split_char, split_on, string_of,
};

verus! {

/// Errors of the network layer.
#[derive(Debug, PartialEq, Eq)]
pub enum NetError {
    NotFound(String),
    NameTaken(String),
    Invalid(String),
    PoolExhausted(String),
    Host(String),
}

/// What an error says: its kind and its text.
pub enum NetErrorView {
    NotFound(Seq<char>),
    NameTaken(Seq<char>),
    Invalid(Seq<char>),
    PoolExhausted(Seq<char>),
    Host(Seq<char>),
}

impl View for NetError {
    type V = NetErrorView;

    open spec fn view(&self) -> NetErrorView {
        match self {
            NetError::NotFound(m) => NetErrorView::NotFound(m@),
            NetError::NameTaken(m) => NetErrorView::NameTaken(m@),
            NetError::Invalid(m) => NetErrorView::Invalid(m@),
            NetError::PoolExhausted(m) => NetErrorView::PoolExhausted(m@),
            NetError::Host(m) => NetErrorView::Host(m@),
        }
    }
}

/// A result seen through the error's view.
pub open spec fn res_view<T>(r: Result<T, NetError>) -> Result<T, NetErrorView> {
    match r {
        Ok(v) => Ok(v),
        Err(e) => Err(e@),
    }
}

/// An IPv4 network: address (host bits cleared by `parse`) and prefix length.
#[derive(Debug, Clone, Copy, PartialEq, Eq)]
pub struct Ipv4Net {
    pub network: u32,
    pub prefix: u8,
}

/// Netmask of a prefix length in `0..=32`.
pub open spec fn spec_mask(prefix: u8) -> u32 {
    if prefix == 0 {
        0
    } else {
        (!0u32) << ((32 - prefix) as u32)
    }
}

/// `a.b.c.d` as a 32-bit value.
pub open spec fn octets_value(a: nat, b: nat, c: nat, d: nat) -> nat {
    a * 16777216 + b * 65536 + c * 256 + d
}

/// `parse_ipv4`: exactly four dot-separated parts, each a `u8`.
pub open spec fn spec_parse_ipv4(s: Seq<char>) -> Option<u32> {
    let parts = split_char(s, '.');
    if parts.len() == 4 && parse_unsigned(parts[0], 255) is Some && parse_unsigned(parts[1], 255)
        is Some && parse_unsigned(parts[2], 255) is Some && parse_unsigned(parts[3], 255) is Some {
        Some(
            octets_value(
                parse_unsigned(parts[0], 255)->0,
                parse_unsigned(parts[1], 255)->0,
                parse_unsigned(parts[2], 255)->0,
                parse_unsigned(parts[3], 255)->0,
            ) as u32,
        )
    } else {
        None
    }
}

/// Dotted-quad rendering of an address.
pub open spec fn spec_ipv4_string(ip: u32) -> Seq<char> {
    dec(((ip >> 24u32) & 0xffu32) as nat) + seq!['.'] + dec(((ip >> 16u32) & 0xffu32) as nat)
        + seq!['.'] + dec(((ip >> 8u32) & 0xffu32) as nat) + seq!['.'] + dec((ip & 0xffu32) as nat)
}

/// `network/prefix`.
pub open spec fn spec_cidr_string(net: Ipv4Net) -> Seq<char> {
    spec_ipv4_string(net.network) + seq!['/'] + dec(net.prefix as nat)
}

/// The error text for a malformed address.
pub open spec fn invalid_ipv4_msg(s: Seq<char>) -> Seq<char> {
    "invalid ipv4 "@ + s
}

/// `parse_cidr`: `ADDR/PREFIX` with a prefix in `0..=32`; host bits are cleared.
pub open spec fn spec_parse_cidr(s: Seq<char>) -> Result<Ipv4Net, NetErrorView> {
    let k = find(s, seq!['/']);
    if k < 0 {
        Err(NetErrorView::Invalid("cidr must look like 10.88.0.0/24, got "@ + s))
    } else {
        let addr = s.take(k);
        let pre = s.skip(k + 1);
        match parse_unsigned(pre, 255) {
            None => Err(NetErrorView::Invalid("invalid prefix in "@ + s)),
            Some(p) => if p > 32 {
                Err(NetErrorView::Invalid("prefix must be 0..=32"@))
            } else {
                match spec_parse_ipv4(addr) {
                    None => Err(NetErrorView::Invalid(invalid_ipv4_msg(addr))),
                    Some(ip) => Ok(
                        Ipv4Net { network: ip & spec_mask(p as u8), prefix: p as u8 },
                    ),
                }
            },
        }
    }
}


/// `used` holds a string that parses as `ip`.
pub open spec fn used_contains(used: Seq<String>, ip: u32) -> bool {
    exists|k: int| 0 <= k < used.len() && spec_parse_ipv4(#[trigger] used[k]@) == Some(ip)
}

pub open spec fn spec_sat_add(a: u32, b: u32) -> u32 {
    if a + b > u32::MAX {
        u32::MAX
    } else {
        (a + b) as u32
    }
}

pub open spec fn spec_sat_sub(a: u32, b: u32) -> u32 {
    if a < b {
        0
    } else {
        (a - b) as u32
    }
}

/// May `ip` be handed out, given the gateway and the addresses already in use?
pub open spec fn is_free(ip: u32, gw: Option<u32>, used: Seq<String>) -> bool {
    gw != Some(ip) && !used_contains(used, ip)
}

impl Ipv4Net {
    pub open spec fn spec_contains(self, ip: u32) -> bool {
        (ip & spec_mask(self.prefix)) == self.network
    }

    pub open spec fn spec_broadcast(self) -> u32 {
        self.network | !spec_mask(self.prefix)
    }

    /// First address handed out: network + 2 (network + 1 is the usual gateway).
    pub open spec fn alloc_start(self) -> u32 {
        spec_sat_add(self.network, 2)
    }

    /// Last address handed out: one below the broadcast address.
    pub open spec fn alloc_end(self) -> u32 {
        spec_sat_sub(self.spec_broadcast(), 1)
    }

    /// `Ipv4Net::parse` is `parse_cidr`.
    pub fn parse(cidr: &str) -> (r: Result<Ipv4Net, NetError>)
        ensures
            res_view(r) == spec_parse_cidr(cidr@),
    {
        parse_cidr(cidr)
    }

    pub fn mask(self) -> (m: u32)
        requires
            self.prefix <= 32,
        ensures
            m == spec_mask(self.prefix),
    {
        if self.prefix == 0 {
            0
        } else {
            let sh: u32 = (32 - self.prefix) as u32;
            (!0u32) << sh
        }
    }

    pub fn contains(self, ip: u32) -> (r: bool)
        requires
            self.prefix <= 32,
        ensures
            r == self.spec_contains(ip),
    {
        (ip & self.mask()) == self.network
    }

    pub fn overlaps(self, other: Ipv4Net) -> (r: bool)
        requires
            self.prefix <= 32,
            other.prefix <= 32,
        ensures
            r == (self.spec_contains(other.network) || other.spec_contains(self.network)),
    {
        self.contains(other.network) || other.contains(self.network)
    }

    pub fn nth(self, n: u32) -> (r: u32)
        ensures
            r == spec_sat_add(self.network, n),
    {
        self.network.saturating_add(n)
    }

    pub fn broadcast(self) -> (r: u32)
        requires
            self.prefix <= 32,
        ensures
            r == self.spec_broadcast(),
    {
        self.network | !self.mask()
    }

    pub fn to_cidr_string(self) -> (r: String)
        ensures
            r@ == spec_cidr_string(self),
    {
        let mut v = ipv4_chars(self.network);
        v.push('/');
        let p = dec_vec(self.prefix as u64);
        append_chars(&mut v, p.as_slice());
        assert(v@ =~= spec_cidr_string(self));
        string_of(v.as_slice())
    }

    /// Lowest free address of the pool `alloc_start()..=alloc_end()`, skipping the
    /// gateway and every address in `used` (strings that do not parse are ignored).
    pub fn allocate(self, gateway: Option<&str>, used: &[String]) -> (r: Result<u32, NetError>)
        requires
            self.prefix <= 32,
        ensures
            (gateway matches Some(g) && spec_parse_ipv4(g@) is None) ==> (r matches Err(e)
                && e@ == NetErrorView::Invalid(invalid_ipv4_msg(gateway->0@))),
            (gateway matches Some(g) ==> spec_parse_ipv4(g@) is Some) ==> ({
                let gw = match gateway {
                    Some(g) => spec_parse_ipv4(g@),
                    None => None,
                };
                match r {
                    Ok(ip) => self.alloc_start() <= ip <= self.alloc_end() && is_free(
                        ip,
                        gw,
                        used@,
                    ) && forall|j: u32|
                        self.alloc_start() <= j < ip ==> !is_free(j, gw, used@),
                    Err(e) => e@ == NetErrorView::PoolExhausted(spec_cidr_string(self)) && forall|
                        j: u32,
                    |
                        self.alloc_start() <= j <= self.alloc_end() ==> !is_free(j, gw, used@),
                }
            }),
    {
        let gw: Option<u32> = match gateway {
            Some(g) => match parse_ipv4(g) {
                Ok(ip) => Some(ip),
                Err(e) => {
                    return Err(e);
                },
            },
            None => None,
        };
        let ghost gws = match gateway {
            Some(g) => spec_parse_ipv4(g@),
            None => None,
        };
        assert(gw == gws);
        let start = self.nth(2);
        let end = self.broadcast().saturating_sub(1);
        if start > end {
            return Err(NetError::PoolExhausted(self.to_cidr_string()));
        }
        let mut parsed: Vec<u32> = Vec::new();
        let mut k: usize = 0;
        while k < used.len()
            invariant
                k <= used.len(),
                forall|ip: u32|
                    parsed@.contains(ip) <==> exists|q: int|
                        0 <= q < k && spec_parse_ipv4(#[trigger] used@[q]@) == Some(ip),
            decreases used.len() - k,
        {
            let ghost before = parsed@;
            match parse_ipv4(used[k].as_str()) {
                Ok(ip) => {
                    parsed.push(ip);
                    assert forall|x: u32|
                        parsed@.contains(x) <==> exists|q: int|
                            0 <= q < k + 1 && spec_parse_ipv4(#[trigger] used@[q]@) == Some(x) by {
                        if parsed@.contains(x) {
                            let w = choose|w: int| 0 <= w < parsed@.len() && parsed@[w] == x;
                            if w < before.len() {
                                assert(before.contains(x));
                            } else {
                                assert(spec_parse_ipv4(used@[k as int]@) == Some(x));
                            }
                        }
                        if exists|q: int|
                            0 <= q < k + 1 && spec_parse_ipv4(#[trigger] used@[q]@) == Some(x) {
                            let q = choose|q: int|
                                0 <= q < k + 1 && spec_parse_ipv4(#[trigger] used@[q]@) == Some(x);
                            if q < k {
                                assert(before.contains(x));
                                let w = choose|w: int| 0 <= w < before.len() && before[w] == x;
                                assert(parsed@[w] == x);
                            } else {
                                assert(parsed@[before.len() as int] == x);
                            }
                        }
                    }
                },
                Err(_) => {
                    assert forall|x: u32|
                        parsed@.contains(x) <==> exists|q: int|
                            0 <= q < k + 1 && spec_parse_ipv4(#[trigger] used@[q]@) == Some(x) by {
                        if exists|q: int|
                            0 <= q < k + 1 && spec_parse_ipv4(#[trigger] used@[q]@) == Some(x) {
                            let q = choose|q: int|
                                0 <= q < k + 1 && spec_parse_ipv4(#[trigger] used@[q]@) == Some(x);
                            assert(q < k);
                        }
                    }
                },
            }
            k += 1;
        }
        assert(forall|ip: u32| parsed@.contains(ip) <==> used_contains(used@, ip));
        let mut ip = start;
        loop
            invariant
                start <= ip <= end,
                start == self.alloc_start(),
                end == self.alloc_end(),
                gw == gws,
                gws == (match gateway {
                    Some(g) => spec_parse_ipv4(g@),
                    None => None,
                }),
                gateway matches Some(g) ==> spec_parse_ipv4(g@) is Some,
                forall|x: u32| parsed@.contains(x) <==> used_contains(used@, x),
                forall|j: u32| start <= j < ip ==> !is_free(j, gws, used@),
            decreases end - ip,
        {
            let taken = u32_in(parsed.as_slice(), ip);
            if gw != Some(ip) && !taken {
                return Ok(ip);
            }
            if ip == end {
                return Err(NetError::PoolExhausted(self.to_cidr_string()));
            }
            ip += 1;
        }
    }
}

/// Is `x` in `v`?
pub fn u32_in(v: &[u32], x: u32) -> (r: bool)
    ensures
        r == v@.contains(x),
{
    let mut i: usize = 0;
    while i < v.len()
        invariant
            i <= v.len(),
            forall|j: int| 0 <= j < i ==> v@[j] != x,
        decreases v.len() - i,
    {
        if v[i] == x {
            assert(v@[i as int] == x);
            return true;
        }
        i += 1;
    }
    false
}

/// Characters of `ipv4_string(ip)`.
fn ipv4_chars(ip: u32) -> (v: Vec<char>)
    ensures
        v@ == spec_ipv4_string(ip),
{
    let mut v = dec_vec(((ip >> 24u32) & 0xffu32) as u64);
    v.push('.');
    let b = dec_vec(((ip >> 16u32) & 0xffu32) as u64);
    append_chars(&mut v, b.as_slice());
    v.push('.');
    let c = dec_vec(((ip >> 8u32) & 0xffu32) as u64);
    append_chars(&mut v, c.as_slice());
    v.push('.');
    let d = dec_vec((ip & 0xffu32) as u64);
    append_chars(&mut v, d.as_slice());
    assert(v@ =~= spec_ipv4_string(ip));
    v
}

/// Dotted-quad text of an address.
pub fn ipv4_string(ip: u32) -> (r: String)
    ensures
        r@ == spec_ipv4_string(ip),
{
    let v = ipv4_chars(ip);
    string_of(v.as_slice())
}

fn invalid_msg(prefix: &str, s: &[char]) -> (e: NetError)
    ensures
        e@ == NetErrorView::Invalid(prefix@ + s@),
{
    let mut v = chars_of(prefix);
    append_chars(&mut v, s);
    NetError::Invalid(string_of(v.as_slice()))
}

fn parse_ipv4_chars(s: &[char]) -> (r: Result<u32, NetError>)
    ensures
        match r {
            Ok(ip) => spec_parse_ipv4(s@) == Some(ip),
            Err(e) => spec_parse_ipv4(s@) is None && e@ == NetErrorView::Invalid(
                invalid_ipv4_msg(s@),
            ),
        },
{
    let parts = split_on(s, '.');
    if parts.len() != 4 {
        return Err(invalid_msg("invalid ipv4 ", s));
    }
    proof {
        lemma_char_vec_dv(parts[0]);
        lemma_char_vec_dv(parts[1]);
        lemma_char_vec_dv(parts[2]);
        lemma_char_vec_dv(parts[3]);
    }
    let a = parse_unsigned_vec(parts[0].as_slice(), 255);
    let b = parse_unsigned_vec(parts[1].as_slice(), 255);
    let c = parse_unsigned_vec(parts[2].as_slice(), 255);
    let d = parse_unsigned_vec(parts[3].as_slice(), 255);
    match (a, b, c, d) {
        (Some(a), Some(b), Some(c), Some(d)) => {
            assert(a <= 255 && b <= 255 && c <= 255 && d <= 255);
            let v: u64 = a * 16777216 + b * 65536 + c * 256 + d;
            assert(v <= u32::MAX);
            Ok(v as u32)
        },
        _ => Err(invalid_msg("invalid ipv4 ", s)),
    }
}

/// `parse_ipv4`: four dot-separated decimal octets.
pub fn parse_ipv4(s: &str) -> (r: Result<u32, NetError>)
    ensures
        match r {
            Ok(ip) => spec_parse_ipv4(s@) == Some(ip),
            Err(e) => spec_parse_ipv4(s@) is None && e@ == NetErrorView::Invalid(
                invalid_ipv4_msg(s@),
            ),
        },
{
    let v = chars_of(s);
    parse_ipv4_chars(v.as_slice())
}

/// `parse_cidr`.
pub fn parse_cidr(s: &str) -> (r: Result<Ipv4Net, NetError>)
    ensures
        res_view(r) == spec_parse_cidr(s@),
{
    let v = chars_of(s);
    let slash = vec!['/'];
    assert(slash@ =~= seq!['/']);
    let k = find_vec(v.as_slice(), slash.as_slice());
    match k {
        None => Err(invalid_msg("cidr must look like 10.88.0.0/24, got ", v.as_slice())),
        Some(k) => {
            proof {
                lemma_find_in_range(v@, seq!['/']);
                assert(seq!['/'].len() == 1);
                assert(k + 1 <= v@.len());
                assert(k < v.len());
            }
            let addr = slice_vec(v.as_slice(), 0, k);
            let pre = slice_vec(v.as_slice(), k + 1, v.len());
            assert(addr@ =~= v@.take(k as int));
            assert(pre@ =~= v@.skip(k + 1));
            match parse_unsigned_vec(pre.as_slice(), 255) {
                None => Err(invalid_msg("invalid prefix in ", v.as_slice())),
                Some(p) => {
                    if p > 32 {
                        let m = chars_of("prefix must be 0..=32");
                        return Err(NetError::Invalid(string_of(m.as_slice())));
                    }
                    match parse_ipv4_chars(addr.as_slice()) {
                        Err(e) => Err(e),
                        Ok(ip) => {
                            let probe = Ipv4Net { network: 0, prefix: p as u8 };
                            let network = ip & probe.mask();
                            Ok(Ipv4Net { network, prefix: p as u8 })
                        },
                    }
                },
            }
        },
    }
}

/// A network whose host bits are clear hands out addresses inside itself.
pub proof fn lemma_allocated_inside(net: Ipv4Net, ip: u32)
    requires
        net.prefix <= 32,
        net.network & !spec_mask(net.prefix) == 0,
        net.alloc_start() <= ip <= net.alloc_end(),
    ensures
        net.spec_contains(ip),
{
    let m = spec_mask(net.prefix);
    let n = net.network;
    if net.prefix == 0 {
        assert(n & !0u32 == n) by (bit_vector);
        assert(ip & 0u32 == 0u32) by (bit_vector);
    } else {
        let sh: u32 = (32 - net.prefix) as u32;
        assert(sh < 32);
        assert(m == (!0u32) << sh);
        assert((n & !((!0u32) << sh)) == 0 && n <= ip && ip <= (n | !((!0u32) << sh)) && sh < 32
            ==> (ip & ((!0u32) << sh)) == n) by (bit_vector);
    }
}

/// Parsing clears the host bits of the network address.
pub proof fn lemma_parsed_network_aligned(s: Seq<char>)
    requires
        spec_parse_cidr(s) is Ok,
    ensures
        ({
            let net = spec_parse_cidr(s)->Ok_0;
            net.prefix <= 32 && net.network & !spec_mask(net.prefix) == 0
        }),
{
    let net = spec_parse_cidr(s)->Ok_0;
    let m = spec_mask(net.prefix);
    let ip = spec_parse_ipv4(s.take(find(s, seq!['/'])))->0;
    assert((ip & m) & !m == 0) by (bit_vector);
}

/// A network whose host bits are clear contains exactly the addresses from its network
/// address to its broadcast address, both included.
pub proof fn lemma_contains_range(net: Ipv4Net, ip: u32)
    requires
        net.prefix <= 32,
        net.network & !spec_mask(net.prefix) == 0,
    ensures
        net.spec_contains(ip) == (net.network <= ip && ip <= net.spec_broadcast()),
{
    let n = net.network;
    if net.prefix == 0 {
        assert(n & !0u32 == 0u32 ==> n == 0u32) by (bit_vector);
        assert(ip & 0u32 == 0u32) by (bit_vector);
        assert(ip <= (0u32 | !0u32)) by (bit_vector);
    } else {
        let sh: u32 = (32 - net.prefix) as u32;
        assert(sh < 32);
        assert(spec_mask(net.prefix) == (!0u32) << sh);
        assert((n & !((!0u32) << sh)) == 0 && sh < 32 ==> (((ip & ((!0u32) << sh)) == n) == (n
            <= ip && ip <= (n | !((!0u32) << sh))))) by (bit_vector);
    }
}

/// For a network that `parse_cidr` accepted, an address is inside it exactly when it lies
/// between the network address and the broadcast address: so both ends are inside, and a
/// `/0` network holds every address.
pub proof fn lemma_parsed_contains_range(s: Seq<char>, ip: u32)
    requires
        spec_parse_cidr(s) is Ok,
    ensures
        ({
            let net = spec_parse_cidr(s)->Ok_0;
            net.spec_contains(ip) == (net.network <= ip && ip <= net.spec_broadcast())
        }),
{
    lemma_parsed_network_aligned(s);
    lemma_contains_range(spec_parse_cidr(s)->Ok_0, ip);
}

/// The dotted quad of an address parses back to the address.
pub proof fn lemma_ipv4_roundtrip(ip: u32)
    ensures
        spec_parse_ipv4(spec_ipv4_string(ip)) == Some(ip),
{
    let o1 = ((ip >> 24u32) & 0xffu32) as nat;
    let o2 = ((ip >> 16u32) & 0xffu32) as nat;
    let o3 = ((ip >> 8u32) & 0xffu32) as nat;
    let o4 = (ip & 0xffu32) as nat;
    assert((ip >> 24u32) & 0xffu32 <= 255u32) by (bit_vector);
    assert((ip >> 16u32) & 0xffu32 <= 255u32) by (bit_vector);
    assert((ip >> 8u32) & 0xffu32 <= 255u32) by (bit_vector);
    assert(ip & 0xffu32 <= 255u32) by (bit_vector);
    let a = dec(o1);
    let b = dec(o2);
    let c = dec(o3);
    let d = dec(o4);
    lemma_dec_lacks(o1, '.');
    lemma_dec_lacks(o2, '.');
    lemma_dec_lacks(o3, '.');
    lemma_dec_lacks(o4, '.');
    let s = spec_ipv4_string(ip);
    assert(s =~= a + seq!['.'] + (b + seq!['.'] + (c + seq!['.'] + d)));
    lemma_split_cons(a, b + seq!['.'] + (c + seq!['.'] + d), '.');
    assert(b + seq!['.'] + (c + seq!['.'] + d) =~= b + seq!['.'] + (c + seq!['.'] + d));
    lemma_split_cons(b, c + seq!['.'] + d, '.');
    lemma_split_cons(c, d, '.');
    lemma_split_none(d, '.');
    let parts = split_char(s, '.');
    assert(parts =~= seq![a, b, c, d]);
    lemma_parse_dec(o1, 255);
    lemma_parse_dec(o2, 255);
    lemma_parse_dec(o3, 255);
    lemma_parse_dec(o4, 255);
    assert(((ip >> 24u32) & 0xffu32) * 16777216 + ((ip >> 16u32) & 0xffu32) * 65536 + ((ip >> 8u32)
        & 0xffu32) * 256 + (ip & 0xffu32) == ip) by (bit_vector);
}

} // verus!
