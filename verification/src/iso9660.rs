//! A minimal ISO 9660 image with Joliet names: the cloud-init NoCloud seed (`cidata`).
use vstd::prelude::*;

use crate::text::{chars_of, is_alnum, is_alnum_char, upper, upper_char};

verus! {

pub open spec fn zeros(n: nat) -> Seq<u8> {
    Seq::new(n, |i: int| 0u8)
}

pub open spec fn pad_to(b: Seq<u8>, n: nat) -> Seq<u8> {
    b + zeros((n - b.len()) as nat)
}

pub open spec fn le16(n: nat) -> Seq<u8> {
    seq![(n % 256) as u8, ((n / 256) % 256) as u8]
}

pub open spec fn be16(n: nat) -> Seq<u8> {
    seq![((n / 256) % 256) as u8, (n % 256) as u8]
}

pub open spec fn le32(n: nat) -> Seq<u8> {
    seq![
        (n % 256) as u8,
        ((n / 256) % 256) as u8,
        ((n / 65536) % 256) as u8,
        ((n / 16777216) % 256) as u8,
    ]
}

pub open spec fn be32(n: nat) -> Seq<u8> {
    seq![
        ((n / 16777216) % 256) as u8,
        ((n / 65536) % 256) as u8,
        ((n / 256) % 256) as u8,
        (n % 256) as u8,
    ]
}

/// Both-byte-order fields: little-endian, then big-endian.
pub open spec fn both16(n: nat) -> Seq<u8> {
    le16(n) + be16(n)
}

pub open spec fn both32(n: nat) -> Seq<u8> {
    le32(n) + be32(n)
}

pub open spec fn cd001() -> Seq<u8> {
    seq![0x43u8, 0x44u8, 0x30u8, 0x30u8, 0x31u8]
}

/// A directory record: length, extent, data length, a fixed date (2024-01-01), flags
/// and the identifier, padded to an even length.
pub open spec fn dir_record(extent: nat, data_len: nat, flags: u8, name: Seq<u8>) -> Seq<u8> {
    let base = 33 + name.len();
    let total = if base % 2 == 1 {
        base + 1
    } else {
        base
    };
    seq![total as u8, 0u8] + both32(extent) + both32(data_len) + seq![
        124u8,
        1u8,
        1u8,
        0u8,
        0u8,
        0u8,
        0u8,
        flags,
        0u8,
        0u8,
        0u8,
        0u8,
        0u8,
        0u8,
        name.len() as u8,
    ] + name + if base % 2 == 1 {
        seq![0u8]
    } else {
        seq![]
    }
}

pub open spec fn ascii_bytes(s: Seq<char>) -> Seq<u8> {
    s.map_values(|c: char| c as u8)
}

pub open spec fn is_ascii_seq(s: Seq<char>) -> bool {
    forall|i: int| 0 <= i < s.len() ==> (#[trigger] s[i] as u32) < 128
}

pub open spec fn is_bmp_seq(s: Seq<char>) -> bool {
    forall|i: int| 0 <= i < s.len() ==> (#[trigger] s[i] as u32) < 0x10000
}

/// The volume identifier field of the primary descriptor: upper case, space padded, at
/// most 32 bytes.
pub open spec fn pvd_volume(vol: Seq<char>) -> Seq<u8> {
    let u = ascii_bytes(crate::text::upper_seq(vol));
    let n = if u.len() < 32 {
        u.len()
    } else {
        32
    };
    u.take(n as int) + Seq::new((32 - n) as nat, |i: int| 0x20u8)
}

/// UTF-16 big-endian bytes of a string of BMP characters.
pub open spec fn ucs2(s: Seq<char>) -> Seq<u8> {
    Seq::new(
        2 * s.len(),
        |k: int|
            if k % 2 == 0 {
                ((s[k / 2] as u32) / 256) as u8
            } else {
                ((s[k / 2] as u32) % 256) as u8
            },
    )
}

/// The volume identifier field of the Joliet descriptor: sixteen UTF-16 big-endian units,
/// spaces after the name.
pub open spec fn svd_volume(vol: Seq<char>) -> Seq<u8> {
    Seq::new(
        32,
        |k: int|
            {
                let unit: u32 = if k / 2 < vol.len() {
                    vol[k / 2] as u32
                } else {
                    32u32
                };
                if k % 2 == 0 {
                    (unit / 256) as u8
                } else {
                    (unit % 256) as u8
                }
            },
    )
}

/// A volume descriptor sector (`kind` 1 primary, 2 Joliet supplementary).
pub open spec fn descriptor(
    kind: u8,
    vol_field: Seq<u8>,
    volume_sectors: nat,
    escape: Seq<u8>,
    root: nat,
    pt_le: nat,
    pt_be: nat,
) -> Seq<u8> {
    seq![kind] + cd001() + seq![1u8] + zeros(33) + vol_field + zeros(8) + both32(volume_sectors)
        + escape + both16(2048) + both32(10) + le32(pt_le) + zeros(4) + be32(pt_be) + zeros(12)
        + dir_record(root, 2048, 2, seq![0u8]) + zeros(691) + seq![1u8] + zeros(1166)
}

pub open spec fn joliet_escape() -> Seq<u8> {
    seq![0x25u8, 0x2fu8, 0x45u8] + zeros(29)
}

pub open spec fn terminator() -> Seq<u8> {
    seq![255u8] + cd001() + seq![1u8] + zeros(2041)
}

/// A path table sector holding the root directory alone.
pub open spec fn path_table(lba: nat, be: bool) -> Seq<u8> {
    seq![1u8, 0u8] + (if be {
        be32(lba) + be16(1)
    } else {
        le32(lba) + le16(1)
    }) + seq![0u8] + zeros(2039)
}

/// The 8.3 identifier: up to eight ASCII letters and digits of the name, upper case, `.;1`.
pub open spec fn iso_ident(name: Seq<char>) -> Seq<u8> {
    let kept = name.filter(|c: char| is_alnum(c));
    let stem = if kept.len() < 8 {
        kept
    } else {
        kept.take(8)
    };
    ascii_bytes(stem.map_values(|c: char| upper(c))) + seq![0x2eu8, 0x3bu8, 0x31u8]
}

pub type IsoFiles = Seq<(Seq<char>, Seq<u8>)>;

/// Sectors of a file's extent: at least one.
pub open spec fn file_sectors(len: nat) -> nat {
    if len == 0 {
        1
    } else {
        ((len + 2047) / 2048) as nat
    }
}

/// First sector of file `i`: files follow the root directories (sector 25) back to back.
pub open spec fn extent_of(files: IsoFiles, i: int) -> nat
    decreases i,
{
    if i <= 0 {
        25
    } else {
        extent_of(files, i - 1) + file_sectors(files[i - 1].1.len())
    }
}

pub open spec fn iso_entries(files: IsoFiles, n: int) -> Seq<u8>
    decreases n,
{
    if n <= 0 {
        seq![]
    } else {
        iso_entries(files, n - 1) + dir_record(
            extent_of(files, n - 1),
            (files[n - 1].1.len() as u32) as nat,
            0,
            iso_ident(files[n - 1].0),
        )
    }
}

pub open spec fn joliet_entries(files: IsoFiles, n: int) -> Seq<u8>
    decreases n,
{
    if n <= 0 {
        seq![]
    } else {
        joliet_entries(files, n - 1) + dir_record(
            extent_of(files, n - 1),
            (files[n - 1].1.len() as u32) as nat,
            0,
            ucs2(files[n - 1].0),
        )
    }
}

pub open spec fn root_dir(lba: nat, entries: Seq<u8>) -> Seq<u8> {
    dir_record(lba, 2048, 2, seq![0u8]) + dir_record(lba, 2048, 2, seq![1u8]) + entries
}

pub open spec fn file_area(files: IsoFiles, n: int) -> Seq<u8>
    decreases n,
{
    if n <= 0 {
        seq![]
    } else {
        file_area(files, n - 1) + pad_to(files[n - 1].1, file_sectors(files[n - 1].1.len()) * 2048)
    }
}

/// The whole image: system area, primary and Joliet descriptors, terminator, the four
/// path tables, the two root directories, then each file in its own extent.
pub open spec fn iso_image(vol: Seq<char>, files: IsoFiles) -> Seq<u8> {
    let vs = extent_of(files, files.len() as int);
    zeros(16 * 2048) + descriptor(1, pvd_volume(vol), vs, zeros(32), 23, 19, 20) + descriptor(
        2,
        svd_volume(vol),
        vs,
        joliet_escape(),
        24,
        21,
        22,
    ) + terminator() + path_table(23, false) + path_table(23, true) + path_table(24, false)
        + path_table(24, true) + pad_to(root_dir(23, iso_entries(files, files.len() as int)), 2048)
        + pad_to(root_dir(24, joliet_entries(files, files.len() as int)), 2048) + file_area(
        files,
        files.len() as int,
    )
}

/// The bytes a volume descriptor holds where readers look: its kind, `CD001`, the
/// escape sequence at 88, and the root directory record at 156 (length 34, extent `root`,
/// one sector of data); 2048 bytes in all.
pub proof fn lemma_descriptor_layout(
    kind: u8,
    vol_field: Seq<u8>,
    volume_sectors: nat,
    escape: Seq<u8>,
    root: nat,
    pt_le: nat,
    pt_be: nat,
)
    requires
        vol_field.len() == 32,
        escape.len() == 32,
        root < 0x1_0000_0000,
    ensures
        ({
            let d = descriptor(kind, vol_field, volume_sectors, escape, root, pt_le, pt_be);
            &&& d.len() == 2048
            &&& d[0] == kind
            &&& d.subrange(1, 6) == cd001()
            &&& d.subrange(40, 72) == vol_field
            &&& d.subrange(88, 120) == escape
            &&& d[156] == 34u8
            &&& d.subrange(158, 162) == le32(root)
            &&& d.subrange(166, 170) == le32(2048)
        }),
{
    let d = descriptor(kind, vol_field, volume_sectors, escape, root, pt_le, pt_be);
    let rec = dir_record(root, 2048, 2, seq![0u8]);
    assert(rec.len() == 34);
    assert(rec[0] == 34u8);
    assert(rec.subrange(2, 6) =~= le32(root));
    assert(rec.subrange(10, 14) =~= le32(2048));
    let head = seq![kind] + cd001() + seq![1u8] + zeros(33) + vol_field + zeros(8) + both32(
        volume_sectors,
    );
    assert(head.len() == 88);
    let mid = head + escape + both16(2048) + both32(10) + le32(pt_le) + zeros(4) + be32(pt_be)
        + zeros(12);
    assert(mid.len() == 156);
    assert(d =~= mid + rec + zeros(691) + seq![1u8] + zeros(1166));
    assert(d.subrange(1, 6) =~= cd001());
    assert(d.subrange(40, 72) =~= vol_field);
    assert(d.subrange(88, 120) =~= escape);
    assert(d.subrange(158, 162) =~= rec.subrange(2, 6));
    assert(d.subrange(166, 170) =~= rec.subrange(10, 14));
}

proof fn lemma_add_prefix(x: Seq<u8>, y: Seq<u8>, n: int)
    requires
        0 <= n <= x.len(),
    ensures
        (x + y).subrange(0, n) == x.subrange(0, n),
{
    assert((x + y).subrange(0, n) =~= x.subrange(0, n));
}

/// Where the descriptors of a written image lie: the primary at sector 16, the Joliet
/// one at 17, the terminator at 18.
pub proof fn lemma_image_descriptors(vol: Seq<char>, files: IsoFiles)
    ensures
        ({
            let img = iso_image(vol, files);
            let vs = extent_of(files, files.len() as int);
            &&& img.len() >= 38912
            &&& img.subrange(32768, 34816) == descriptor(1, pvd_volume(vol), vs, zeros(32), 23, 19, 20)
            &&& img.subrange(34816, 36864) == descriptor(
                2,
                svd_volume(vol),
                vs,
                joliet_escape(),
                24,
                21,
                22,
            )
            &&& img.subrange(36864, 38912) == terminator()
        }),
{
    let vs = extent_of(files, files.len() as int);
    let p = descriptor(1, pvd_volume(vol), vs, zeros(32), 23, 19, 20);
    let j = descriptor(2, svd_volume(vol), vs, joliet_escape(), 24, 21, 22);
    let a = ascii_bytes(crate::text::upper_seq(vol));
    let n = if a.len() < 32 {
        a.len()
    } else {
        32
    };
    assert(pvd_volume(vol).len() == n + (32 - n));
    lemma_descriptor_layout(1, pvd_volume(vol), vs, zeros(32), 23, 19, 20);
    lemma_descriptor_layout(2, svd_volume(vol), vs, joliet_escape(), 24, 21, 22);
    let t = terminator();
    assert(t.len() == 2048);
    let s2 = zeros(16 * 2048) + p + j + t;
    assert(s2.len() == 38912);
    let s3 = s2 + path_table(23, false);
    let s4 = s3 + path_table(23, true);
    let s5 = s4 + path_table(24, false);
    let s6 = s5 + path_table(24, true);
    let s7 = s6 + pad_to(root_dir(23, iso_entries(files, files.len() as int)), 2048);
    let s8 = s7 + pad_to(root_dir(24, joliet_entries(files, files.len() as int)), 2048);
    let img = s8 + file_area(files, files.len() as int);
    assert(img == iso_image(vol, files));
    lemma_add_prefix(s2, path_table(23, false), 38912);
    lemma_add_prefix(s3, path_table(23, true), 38912);
    lemma_add_prefix(s4, path_table(24, false), 38912);
    lemma_add_prefix(s5, path_table(24, true), 38912);
    lemma_add_prefix(s6, pad_to(root_dir(23, iso_entries(files, files.len() as int)), 2048), 38912);
    lemma_add_prefix(
        s7,
        pad_to(root_dir(24, joliet_entries(files, files.len() as int)), 2048),
        38912,
    );
    lemma_add_prefix(s8, file_area(files, files.len() as int), 38912);
    assert(s2.subrange(0, 38912) =~= s2);
    let pre = img.subrange(0, 38912);
    assert(pre == s2);
    assert(img.subrange(32768, 34816) =~= pre.subrange(32768, 34816));
    assert(img.subrange(34816, 36864) =~= pre.subrange(34816, 36864));
    assert(img.subrange(36864, 38912) =~= pre.subrange(36864, 38912));
    assert(s2.subrange(32768, 34816) =~= p);
    assert(s2.subrange(34816, 36864) =~= j);
    assert(s2.subrange(36864, 38912) =~= t);
}

/// What readers find in the descriptor sectors of a written image: sector 16 is a
/// primary descriptor and sector 17 a Joliet one, each with a one-sector root directory
/// record (at sectors 23 and 24), and sector 18 is the terminator.
pub proof fn lemma_image_reads(vol: Seq<char>, files: IsoFiles)
    ensures
        ({
            let img = iso_image(vol, files);
            let s0 = img.subrange(32768, 34816);
            let s1 = img.subrange(34816, 36864);
            let s2 = img.subrange(36864, 38912);
            &&& img.len() >= 38912
            &&& s0.len() == 2048 && s1.len() == 2048 && s2.len() == 2048
            &&& s0[0] == 1u8 && s0.subrange(1, 6) == cd001()
            &&& s1[0] == 2u8 && s1.subrange(1, 6) == cd001()
            &&& s2[0] == 255u8
            &&& s1[88] == 0x25u8 && s1[89] == 0x2fu8 && s1[90] == 0x45u8
            &&& s0[156] == 34u8 && s1[156] == 34u8
            &&& s0.subrange(158, 162) == le32(23) && s0.subrange(166, 170) == le32(2048)
            &&& s1.subrange(158, 162) == le32(24) && s1.subrange(166, 170) == le32(2048)
        }),
{
    let vs = extent_of(files, files.len() as int);
    lemma_image_descriptors(vol, files);
    let a = ascii_bytes(crate::text::upper_seq(vol));
    let n = if a.len() < 32 {
        a.len()
    } else {
        32
    };
    assert(pvd_volume(vol).len() == n + (32 - n));
    lemma_descriptor_layout(1, pvd_volume(vol), vs, zeros(32), 23, 19, 20);
    lemma_descriptor_layout(2, svd_volume(vol), vs, joliet_escape(), 24, 21, 22);
    let j = descriptor(2, svd_volume(vol), vs, joliet_escape(), 24, 21, 22);
    assert(j.subrange(88, 120) == joliet_escape());
    assert(j[88] == j.subrange(88, 120)[0]);
    assert(j[89] == j.subrange(88, 120)[1]);
    assert(j[90] == j.subrange(88, 120)[2]);
}

/// Every seed image is labelled `CIDATA`: bytes 40 to 45 of sector 16 (the volume
/// identifier of the primary descriptor) spell it, spaces follow.
pub proof fn lemma_cidata_label(files: IsoFiles)
    ensures
        iso_image("cidata"@, files).subrange(32808, 32814) == seq![
            0x43u8,
            0x49u8,
            0x44u8,
            0x41u8,
            0x54u8,
            0x41u8,
        ],
        iso_image("cidata"@, files).subrange(32814, 32840) == Seq::new(26, |i: int| 0x20u8),
{
    reveal_strlit("cidata");
    let vol = "cidata"@;
    let vs = extent_of(files, files.len() as int);
    lemma_image_descriptors(vol, files);
    let u = crate::text::upper_seq(vol);
    assert(u =~= seq!['C', 'I', 'D', 'A', 'T', 'A']);
    let a = ascii_bytes(u);
    assert(a =~= seq![0x43u8, 0x49u8, 0x44u8, 0x41u8, 0x54u8, 0x41u8]);
    let f = pvd_volume(vol);
    assert(f =~= a + Seq::new(26, |i: int| 0x20u8));
    lemma_descriptor_layout(1, f, vs, zeros(32), 23, 19, 20);
    let img = iso_image(vol, files);
    let d = img.subrange(32768, 34816);
    assert(d.subrange(40, 72) == f);
    assert(img.subrange(32808, 32814) =~= d.subrange(40, 72).subrange(0, 6));
    assert(img.subrange(32814, 32840) =~= d.subrange(40, 72).subrange(6, 32));
}

// ---------------------------------------------------------------------------
// Writing
// ---------------------------------------------------------------------------

fn push_bytes(v: &mut Vec<u8>, s: &[u8])
    ensures
        final(v)@ == old(v)@ + s@,
{
    let mut i: usize = 0;
    while i < s.len()
        invariant
            i <= s.len(),
            v@ == old(v)@ + s@.take(i as int),
        decreases s.len() - i,
    {
        v.push(s[i]);
        assert(v@ =~= old(v)@ + s@.take(i as int + 1));
        i += 1;
    }
    assert(s@.take(s.len() as int) =~= s@);
}

fn push_zeros(v: &mut Vec<u8>, n: usize)
    ensures
        final(v)@ == old(v)@ + zeros(n as nat),
{
    let mut i: usize = 0;
    while i < n
        invariant
            i <= n,
            v@ == old(v)@ + zeros(i as nat),
        decreases n - i,
    {
        v.push(0);
        assert(v@ =~= old(v)@ + zeros(i as nat + 1));
        i += 1;
    }
}

fn le32_vec(n: u32) -> (r: Vec<u8>)
    ensures
        r@ == le32(n as nat),
{
    let r = vec![(n % 256) as u8, ((n / 256) % 256) as u8, ((n / 65536) % 256) as u8, ((n / 16777216) % 256) as u8];
    assert(r@ =~= le32(n as nat));
    r
}

fn be32_vec(n: u32) -> (r: Vec<u8>)
    ensures
        r@ == be32(n as nat),
{
    let r = vec![((n / 16777216) % 256) as u8, ((n / 65536) % 256) as u8, ((n / 256) % 256) as u8, (n % 256) as u8];
    assert(r@ =~= be32(n as nat));
    r
}

fn push_both32(v: &mut Vec<u8>, n: u32)
    ensures
        final(v)@ == old(v)@ + both32(n as nat),
{
    let a = le32_vec(n);
    let b = be32_vec(n);
    push_bytes(v, a.as_slice());
    push_bytes(v, b.as_slice());
    assert(v@ =~= old(v)@ + both32(n as nat));
}

fn dir_record_vec(extent: u32, data_len: u32, flags: u8, name: &[u8]) -> (r: Vec<u8>)
    requires
        name@.len() <= 1024,
    ensures
        r@ == dir_record(extent as nat, data_len as nat, flags, name@),
{
    let base: usize = 33 + name.len();
    let total: usize = if base % 2 == 1 {
        base + 1
    } else {
        base
    };
    let mut rec: Vec<u8> = Vec::new();
    rec.push(total as u8);
    rec.push(0);
    push_both32(&mut rec, extent);
    push_both32(&mut rec, data_len);
    let mid = vec![124u8, 1u8, 1u8, 0u8, 0u8, 0u8, 0u8, flags, 0u8, 0u8, 0u8, 0u8, 0u8, 0u8, name.len() as u8];
    push_bytes(&mut rec, mid.as_slice());
    push_bytes(&mut rec, name);
    if base % 2 == 1 {
        rec.push(0);
    }
    assert(rec@ =~= dir_record(extent as nat, data_len as nat, flags, name@));
    rec
}

fn descriptor_vec(
    kind: u8,
    vol_field: &[u8],
    volume_sectors: u32,
    joliet: bool,
    root: u32,
    pt_le: u32,
    pt_be: u32,
) -> (r: Vec<u8>)
    ensures
        r@ == descriptor(
            kind,
            vol_field@,
            volume_sectors as nat,
            if joliet {
                joliet_escape()
            } else {
                zeros(32)
            },
            root as nat,
            pt_le as nat,
            pt_be as nat,
        ),
{
    let mut s: Vec<u8> = Vec::new();
    s.push(kind);
    let cd = vec![0x43u8, 0x44u8, 0x30u8, 0x30u8, 0x31u8];
    push_bytes(&mut s, cd.as_slice());
    s.push(1);
    push_zeros(&mut s, 33);
    push_bytes(&mut s, vol_field);
    push_zeros(&mut s, 8);
    push_both32(&mut s, volume_sectors);
    if joliet {
        s.push(0x25);
        s.push(0x2f);
        s.push(0x45);
        push_zeros(&mut s, 29);
    } else {
        push_zeros(&mut s, 32);
    }
    let b16 = vec![0u8, 8u8, 8u8, 0u8];
    push_bytes(&mut s, b16.as_slice());
    push_both32(&mut s, 10);
    let le = le32_vec(pt_le);
    push_bytes(&mut s, le.as_slice());
    push_zeros(&mut s, 4);
    let be = be32_vec(pt_be);
    push_bytes(&mut s, be.as_slice());
    push_zeros(&mut s, 12);
    let zero_name = vec![0u8];
    let rec = dir_record_vec(root, 2048, 2, zero_name.as_slice());
    push_bytes(&mut s, rec.as_slice());
    push_zeros(&mut s, 691);
    s.push(1);
    push_zeros(&mut s, 1166);
    proof {
        assert(cd@ =~= cd001());
        assert(b16@ =~= both16(2048));
        assert(zero_name@ =~= seq![0u8]);
    }
    assert(s@ =~= descriptor(
        kind,
        vol_field@,
        volume_sectors as nat,
        if joliet {
            joliet_escape()
        } else {
            zeros(32)
        },
        root as nat,
        pt_le as nat,
        pt_be as nat,
    ));
    s
}

fn path_table_vec(lba: u32, be: bool) -> (r: Vec<u8>)
    ensures
        r@ == path_table(lba as nat, be),
{
    let mut s: Vec<u8> = Vec::new();
    s.push(1);
    s.push(0);
    if be {
        let b = be32_vec(lba);
        push_bytes(&mut s, b.as_slice());
        s.push(0);
        s.push(1);
    } else {
        let l = le32_vec(lba);
        push_bytes(&mut s, l.as_slice());
        s.push(1);
        s.push(0);
    }
    s.push(0);
    push_zeros(&mut s, 2039);
    assert(s@ =~= path_table(lba as nat, be));
    s
}

fn pvd_volume_vec(vol: &str) -> (r: Vec<u8>)
    requires
        is_ascii_seq(vol@),
    ensures
        r@ == pvd_volume(vol@),
{
    let v = chars_of(vol);
    let mut out: Vec<u8> = Vec::new();
    let n: usize = if v.len() < 32 {
        v.len()
    } else {
        32
    };
    let ghost u = ascii_bytes(crate::text::upper_seq(vol@));
    let mut i: usize = 0;
    while i < n
        invariant
            i <= n <= v.len(),
            n <= 32,
            v@ == vol@,
            u == ascii_bytes(crate::text::upper_seq(vol@)),
            out@ == u.take(i as int),
        decreases n - i,
    {
        let c = upper_char(v[i]);
        proof {
            assert(crate::text::upper_seq(vol@)[i as int] == c);
        }
        out.push(c as u32 as u8);
        assert(out@ =~= u.take(i as int + 1));
        i += 1;
    }
    let mut k: usize = n;
    while k < 32
        invariant
            n <= k <= 32,
            out@ == u.take(n as int) + Seq::new((k - n) as nat, |j: int| 0x20u8),
        decreases 32 - k,
    {
        out.push(0x20);
        assert(out@ =~= u.take(n as int) + Seq::new((k + 1 - n) as nat, |j: int| 0x20u8));
        k += 1;
    }
    out
}

fn svd_volume_vec(vol: &str) -> (r: Vec<u8>)
    requires
        is_bmp_seq(vol@),
    ensures
        r@ == svd_volume(vol@),
{
    let v = chars_of(vol);
    let mut out: Vec<u8> = Vec::new();
    let mut i: usize = 0;
    while i < 16
        invariant
            i <= 16,
            v@ == vol@,
            out@ == svd_volume(vol@).take(2 * i as int),
        decreases 16 - i,
    {
        let unit: u32 = if i < v.len() {
            v[i] as u32
        } else {
            32
        };
        out.push((unit / 256) as u8);
        out.push((unit % 256) as u8);
        proof {
            let k0 = 2 * i as int;
            assert(k0 / 2 == i as int && k0 % 2 == 0);
            assert((k0 + 1) / 2 == i as int && (k0 + 1) % 2 == 1);
            assert(svd_volume(vol@)[k0] == (unit / 256) as u8);
            assert(svd_volume(vol@)[k0 + 1] == (unit % 256) as u8);
        }
        assert(out@ =~= svd_volume(vol@).take(2 * (i as int + 1)));
        i += 1;
    }
    assert(svd_volume(vol@).take(32) =~= svd_volume(vol@));
    out
}

fn ucs2_vec(s: &str) -> (r: Vec<u8>)
    requires
        is_bmp_seq(s@),
    ensures
        r@ == ucs2(s@),
{
    let v = chars_of(s);
    let mut out: Vec<u8> = Vec::new();
    let mut i: usize = 0;
    while i < v.len()
        invariant
            i <= v.len(),
            v@ == s@,
            out@ == ucs2(s@).take(2 * i as int),
        decreases v.len() - i,
    {
        let u = v[i] as u32;
        out.push((u / 256) as u8);
        out.push((u % 256) as u8);
        proof {
            let k0 = 2 * i as int;
            assert(k0 / 2 == i as int && k0 % 2 == 0);
            assert((k0 + 1) / 2 == i as int && (k0 + 1) % 2 == 1);
        }
        assert(out@ =~= ucs2(s@).take(2 * (i as int + 1)));
        i += 1;
    }
    assert(ucs2(s@).take(2 * v.len() as int) =~= ucs2(s@));
    out
}

fn iso_ident_vec(name: &str) -> (r: Vec<u8>)
    ensures
        r@ == iso_ident(name@),
{
    let v = chars_of(name);
    let ghost kept = name@.filter(|c: char| is_alnum(c));
    let mut stem: Vec<char> = Vec::new();
    let mut i: usize = 0;
    while i < v.len()
        invariant
            i <= v.len(),
            v@ == name@,
            kept == name@.filter(|c: char| is_alnum(c)),
            stem@ == name@.take(i as int).filter(|c: char| is_alnum(c)),
        decreases v.len() - i,
    {
        proof {
            reveal(Seq::filter);
            assert(name@.take(i as int + 1).drop_last() =~= name@.take(i as int));
            assert(name@.take(i as int + 1).last() == v@[i as int]);
        }
        if is_alnum_char(v[i]) {
            stem.push(v[i]);
        }
        i += 1;
    }
    assert(name@.take(v.len() as int) =~= name@);
    let n: usize = if stem.len() < 8 {
        stem.len()
    } else {
        8
    };
    let mut out: Vec<u8> = Vec::new();
    let mut j: usize = 0;
    let ghost st = if kept.len() < 8 {
        kept
    } else {
        kept.take(8)
    };
    proof {
        assert(st =~= kept.take(n as int));
    }
    while j < n
        invariant
            j <= n <= stem.len(),
            stem@ == kept,
            st == kept.take(n as int),
            out@ == ascii_bytes(st.map_values(|c: char| upper(c))).take(j as int),
        decreases n - j,
    {
        let c = upper_char(stem[j]);
        out.push(c as u32 as u8);
        assert(out@ =~= ascii_bytes(st.map_values(|c: char| upper(c))).take(j as int + 1));
        j += 1;
    }
    assert(ascii_bytes(st.map_values(|c: char| upper(c))).take(n as int) =~= ascii_bytes(
        st.map_values(|c: char| upper(c)),
    ));
    out.push(0x2e);
    out.push(0x3b);
    out.push(0x31);
    assert(out@ =~= iso_ident(name@));
    out
}

pub open spec fn files_view<'a>(f: Seq<(&'a str, &'a [u8])>) -> IsoFiles {
    Seq::new(f.len(), |i: int| (f[i].0@, f[i].1@))
}

proof fn lemma_extent_mono(files: IsoFiles, i: int, j: int)
    requires
        0 <= i <= j <= files.len(),
    ensures
        extent_of(files, i) <= extent_of(files, j),
    decreases j - i,
{
    if i < j {
        lemma_extent_mono(files, i, j - 1);
    }
}

proof fn lemma_sectors_cover(len: nat)
    ensures
        len <= file_sectors(len) * 2048,
        file_sectors(len) >= 1,
{
    if len > 0 {
        assert(len <= ((len + 2047) / 2048) * 2048) by (nonlinear_arith);
        assert(((len + 2047) / 2048) >= 1) by (nonlinear_arith)
            requires
                len > 0,
        ;
    }
}

/// Names fit one directory sector each: few files with short BMP names.
pub open spec fn names_fit(files: IsoFiles) -> bool {
    &&& files.len() <= 8
    &&& forall|i: int| 0 <= i < files.len() ==> (#[trigger] files[i]).0.len() <= 64 && is_bmp_seq(
        files[i].0,
    )
}

proof fn lemma_iso_entries_len(files: IsoFiles, n: int)
    requires
        0 <= n <= files.len(),
        names_fit(files),
    ensures
        iso_entries(files, n).len() <= 46 * n,
    decreases n,
{
    if n > 0 {
        lemma_iso_entries_len(files, n - 1);
        let kept = files[n - 1].0.filter(|c: char| is_alnum(c));
    }
}

proof fn lemma_joliet_entries_len(files: IsoFiles, n: int)
    requires
        0 <= n <= files.len(),
        names_fit(files),
    ensures
        joliet_entries(files, n).len() <= 162 * n,
    decreases n,
{
    if n > 0 {
        lemma_joliet_entries_len(files, n - 1);
        assert(files[n - 1].0.len() <= 64);
    }
}

fn root_dir_vec(lba: u32, files: &[(&str, &[u8])], extents: &Vec<u32>, joliet: bool) -> (r: Vec<u8>)
    requires
        names_fit(files_view(files@)),
        extents@.len() == files@.len(),
        forall|i: int| 0 <= i < files@.len() ==> extents@[i] as nat == extent_of(files_view(files@), i),
    ensures
        r@ == pad_to(
            root_dir(
                lba as nat,
                if joliet {
                    joliet_entries(files_view(files@), files@.len() as int)
                } else {
                    iso_entries(files_view(files@), files@.len() as int)
                },
            ),
            2048,
        ),
{
    let ghost fv = files_view(files@);
    let z = vec![0u8];
    let o = vec![1u8];
    let mut buf = dir_record_vec(lba, 2048, 2, z.as_slice());
    let r1 = dir_record_vec(lba, 2048, 2, o.as_slice());
    push_bytes(&mut buf, r1.as_slice());
    let ghost head = buf@;
    assert(z@ =~= seq![0u8] && o@ =~= seq![1u8]);
    let mut i: usize = 0;
    while i < files.len()
        invariant
            i <= files@.len(),
            fv == files_view(files@),
            names_fit(fv),
            extents@.len() == files@.len(),
            forall|k: int| 0 <= k < files@.len() ==> extents@[k] as nat == extent_of(fv, k),
            buf@ == head + if joliet {
                joliet_entries(fv, i as int)
            } else {
                iso_entries(fv, i as int)
            },
        decreases files.len() - i,
    {
        let (name, data) = files[i];
        assert(fv[i as int] == (name@, data@));
        let ident = if joliet {
            ucs2_vec(name)
        } else {
            iso_ident_vec(name)
        };
        proof {
            if !joliet {
                let kept = name@.filter(|c: char| is_alnum(c));
            }
        }
        let rec = dir_record_vec(extents[i], data.len() as u32, 0, ident.as_slice());
        push_bytes(&mut buf, rec.as_slice());
        i += 1;
    }
    proof {
        lemma_iso_entries_len(fv, files@.len() as int);
        lemma_joliet_entries_len(fv, files@.len() as int);
    }
    let n = buf.len();
    push_zeros(&mut buf, 2048 - n);
    buf
}

pub open spec fn sum_len(files: IsoFiles, n: int) -> nat
    decreases n,
{
    if n <= 0 {
        0
    } else {
        sum_len(files, n - 1) + files[n - 1].1.len()
    }
}

/// The image's sector count fits a 32-bit sector number and its bytes fit in memory.
pub open spec fn image_fits(files: IsoFiles) -> bool {
    &&& extent_of(files, files.len() as int) <= u32::MAX
    &&& extent_of(files, files.len() as int) * 2048 <= usize::MAX
}

fn sectors_for(len: usize) -> (r: usize)
    ensures
        r as nat == file_sectors(len as nat),
{
    if len == 0 {
        1
    } else {
        let q = len / 2048;
        let r = if len % 2048 != 0 {
            q + 1
        } else {
            q
        };
        proof {
            let l = len as int;
            assert((l + 2047) / 2048 == l / 2048 + if l % 2048 != 0 {
                1int
            } else {
                0int
            }) by (nonlinear_arith)
                requires
                    l > 0,
            ;
        }
        r
    }
}

fn compute_extents(files: &[(&str, &[u8])]) -> (r: (Vec<u32>, u32))
    requires
        image_fits(files_view(files@)),
    ensures
        r.0@.len() == files@.len(),
        forall|k: int| 0 <= k < files@.len() ==> r.0@[k] as nat == extent_of(files_view(files@), k),
        r.1 as nat == extent_of(files_view(files@), files@.len() as int),
{
    let ghost fv = files_view(files@);
    let ghost total = extent_of(fv, files@.len() as int);
    let mut extents: Vec<u32> = Vec::new();
    let mut next: u32 = 25;
    let mut i: usize = 0;
    while i < files.len()
        invariant
            i <= files@.len(),
            fv == files_view(files@),
            total == extent_of(fv, files@.len() as int),
            total <= u32::MAX,
            extents@.len() == i,
            forall|k: int| 0 <= k < i ==> extents@[k] as nat == extent_of(fv, k),
            next as nat == extent_of(fv, i as int),
        decreases files.len() - i,
    {
        let (_, data) = files[i];
        assert(fv[i as int].1 == data@);
        proof {
            lemma_extent_mono(fv, i as int + 1, files@.len() as int);
        }
        let sectors = sectors_for(data.len());
        extents.push(next);
        next = next + sectors as u32;
        i += 1;
    }
    (extents, next)
}

fn push_file_area(image: &mut Vec<u8>, files: &[(&str, &[u8])])
    requires
        image_fits(files_view(files@)),
    ensures
        final(image)@ == old(image)@ + file_area(files_view(files@), files@.len() as int),
{
    let ghost fv = files_view(files@);
    let ghost total = extent_of(fv, files@.len() as int);
    let mut j: usize = 0;
    while j < files.len()
        invariant
            j <= files@.len(),
            fv == files_view(files@),
            total == extent_of(fv, files@.len() as int),
            total * 2048 <= usize::MAX,
            image@ == old(image)@ + file_area(fv, j as int),
        decreases files.len() - j,
    {
        let (_, data) = files[j];
        assert(fv[j as int].1 == data@);
        proof {
            lemma_extent_mono(fv, j as int + 1, files@.len() as int);
            lemma_sectors_cover(data@.len());
            assert(file_sectors(data@.len()) * 2048 <= total * 2048) by (nonlinear_arith)
                requires
                    file_sectors(data@.len()) <= total,
            ;
        }
        let len = data.len();
        let sectors = sectors_for(len);
        push_bytes(image, data);
        push_zeros(image, sectors * 2048 - len);
        j += 1;
    }
}

fn push_head(image: &mut Vec<u8>, volume_id: &str, files: &[(&str, &[u8])], extents: &Vec<u32>, volume_sectors: u32)
    requires
        is_ascii_seq(volume_id@),
        names_fit(files_view(files@)),
        extents@.len() == files@.len(),
        forall|i: int| 0 <= i < files@.len() ==> extents@[i] as nat == extent_of(files_view(files@), i),
    ensures
        final(image)@ == old(image)@ + zeros(16 * 2048) + descriptor(1, pvd_volume(volume_id@), volume_sectors as nat, zeros(32), 23, 19, 20)
            + descriptor(2, svd_volume(volume_id@), volume_sectors as nat, joliet_escape(), 24, 21, 22) + terminator()
            + path_table(23, false) + path_table(23, true) + path_table(24, false) + path_table(24, true)
            + pad_to(root_dir(23, iso_entries(files_view(files@), files@.len() as int)), 2048) + pad_to(
            root_dir(24, joliet_entries(files_view(files@), files@.len() as int)),
            2048,
        ),
{
    push_zeros(image, 16 * 2048);
    let pv = pvd_volume_vec(volume_id);
    proof {
        assert forall|k: int| 0 <= k < volume_id@.len() implies (#[trigger] volume_id@[k] as u32)
            < 0x10000 by {}
    }
    let sv = svd_volume_vec(volume_id);
    let pvd = descriptor_vec(1, pv.as_slice(), volume_sectors, false, 23, 19, 20);
    push_bytes(image, pvd.as_slice());
    let svd = descriptor_vec(2, sv.as_slice(), volume_sectors, true, 24, 21, 22);
    push_bytes(image, svd.as_slice());
    let term = vec![255u8, 0x43u8, 0x44u8, 0x30u8, 0x30u8, 0x31u8, 1u8];
    push_bytes(image, term.as_slice());
    push_zeros(image, 2041);
    let t1 = path_table_vec(23, false);
    push_bytes(image, t1.as_slice());
    let t2 = path_table_vec(23, true);
    push_bytes(image, t2.as_slice());
    let t3 = path_table_vec(24, false);
    push_bytes(image, t3.as_slice());
    let t4 = path_table_vec(24, true);
    push_bytes(image, t4.as_slice());
    let iso_root = root_dir_vec(23, files, extents, false);
    push_bytes(image, iso_root.as_slice());
    let joliet_root = root_dir_vec(24, files, extents, true);
    push_bytes(image, joliet_root.as_slice());
    assert(term@ + zeros(2041) =~= terminator());
    assert(image@ =~= old(image)@ + zeros(16 * 2048) + descriptor(1, pvd_volume(volume_id@), volume_sectors as nat, zeros(32), 23, 19, 20)
            + descriptor(2, svd_volume(volume_id@), volume_sectors as nat, joliet_escape(), 24, 21, 22) + terminator()
            + path_table(23, false) + path_table(23, true) + path_table(24, false) + path_table(24, true)
            + pad_to(root_dir(23, iso_entries(files_view(files@), files@.len() as int)), 2048) + pad_to(
            root_dir(24, joliet_entries(files_view(files@), files@.len() as int)),
            2048,
        ));
}

fn write_joliet_iso(volume_id: &str, files: &[(&str, &[u8])]) -> (r: Vec<u8>)
    requires
        is_ascii_seq(volume_id@),
        names_fit(files_view(files@)),
        image_fits(files_view(files@)),
    ensures
        r@ == iso_image(volume_id@, files_view(files@)),
{
    let (extents, volume_sectors) = compute_extents(files);
    let mut image: Vec<u8> = Vec::new();
    push_head(&mut image, volume_id, files, &extents, volume_sectors);
    push_file_area(&mut image, files);
    assert(image@ =~= iso_image(volume_id@, files_view(files@)));
    image
}

/// Whether a cloud-init seed of these two files can be laid out: its sector numbers
/// fit in 32 bits and its bytes in memory (what `cidata_iso` requires).
pub fn cidata_fits(user_data: &[u8], meta_data: &[u8]) -> (r: bool)
    ensures
        r == image_fits(seq![("user-data"@, user_data@), ("meta-data"@, meta_data@)]),
{
    let ghost files = seq![("user-data"@, user_data@), ("meta-data"@, meta_data@)];
    let u = sectors_for(user_data.len()) as u64;
    let m = sectors_for(meta_data.len()) as u64;
    proof {
        assert(extent_of(files, 0) == 25);
        assert(extent_of(files, 1) == 25 + file_sectors(user_data@.len()));
        assert(extent_of(files, 2) == extent_of(files, 1) + file_sectors(meta_data@.len()));
        assert(u <= 0x20_0000_0000_0000u64) by {
            assert(user_data@.len() <= usize::MAX);
        }
        assert(m <= 0x20_0000_0000_0000u64) by {
            assert(meta_data@.len() <= usize::MAX);
        }
    }
    let total = 25 + u + m;
    if total > 0xffff_ffffu64 {
        return false;
    }
    total * 2048 <= usize::MAX as u64
}


/// The NoCloud seed image: volume `cidata` holding `user-data` and `meta-data`.
pub fn cidata_iso(user_data: &[u8], meta_data: &[u8]) -> (r: Vec<u8>)
    requires
        image_fits(seq![("user-data"@, user_data@), ("meta-data"@, meta_data@)]),
    ensures
        r@ == iso_image("cidata"@, seq![("user-data"@, user_data@), ("meta-data"@, meta_data@)]),
{
    proof {
        reveal_strlit("cidata");
        reveal_strlit("user-data");
        reveal_strlit("meta-data");
    }
    let files: [(&str, &[u8]); 2] = [("user-data", user_data), ("meta-data", meta_data)];
    let fs = files.as_slice();
    assert(files_view(fs@) =~= seq![("user-data"@, user_data@), ("meta-data"@, meta_data@)]);
    write_joliet_iso("cidata", fs)
}

} // verus!
