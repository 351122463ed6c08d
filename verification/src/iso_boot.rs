//! Reading ISO 9660 / Joliet images: volume descriptors, directories, and which
//! installer kernel to boot directly.
use vstd::prelude::*;

use crate::host::replace_all;
use crate::iso9660::{cd001, iso_image, le32, lemma_image_reads, IsoFiles};
use crate::text::{
    append_str, chars_of, contains, contains_str, decode_lossy, decode_utf16_lossy, find,
    find_vec, lower_seq, string_of, trim, trim_vec, utf16_lossy, utf8_lossy,
};
use crate::urls::{trim_end_char, trim_end_char_vec};

verus! {

/// A Joliet supplementary descriptor: the UCS-2 escape `%/@`, `%/C` or `%/E`.
pub open spec fn spec_is_joliet(sector: Seq<u8>) -> bool {
    &&& sector.len() > 90
    &&& sector[88] == 0x25
    &&& sector[89] == 0x2f
    &&& (sector[90] == 0x40 || sector[90] == 0x43 || sector[90] == 0x45)
}

pub fn is_joliet(sector: &[u8]) -> (r: bool)
    ensures
        r == spec_is_joliet(sector@),
{
    sector.len() > 90 && sector[88] == 0x25 && sector[89] == 0x2f && (sector[90] == 0x40
        || sector[90] == 0x43 || sector[90] == 0x45)
}

/// The volume label: bytes 40..72, decoded and trimmed.
pub open spec fn spec_volume_id(sector: Seq<u8>) -> Seq<char> {
    if sector.len() < 72 {
        seq![]
    } else {
        trim(utf8_lossy(sector.subrange(40, 72)))
    }
}

pub fn parse_volume_id(sector: &[u8]) -> (r: String)
    ensures
        r@ == spec_volume_id(sector@),
{
    if sector.len() < 72 {
        return String::new();
    }
    let mut b: Vec<u8> = Vec::new();
    let mut i: usize = 40;
    while i < 72
        invariant
            40 <= i <= 72,
            72 <= sector@.len(),
            b@ == sector@.subrange(40, i as int),
        decreases 72 - i,
    {
        b.push(sector[i]);
        assert(b@ =~= sector@.subrange(40, i as int + 1));
        i += 1;
    }
    let raw = decode_lossy(b.as_slice());
    string_of(trim_vec(chars_of(raw.as_str()).as_slice()).as_slice())
}

/// Little-endian 32-bit number at `i`.
pub open spec fn le32_at(b: Seq<u8>, i: int) -> nat {
    (b[i] as nat) + 256 * (b[i + 1] as nat) + 65536 * (b[i + 2] as nat) + 16777216 * (b[i
        + 3] as nat)
}

fn le32_read(b: &[u8], i: usize) -> (r: u32)
    requires
        i + 4 <= b@.len(),
    ensures
        r as nat == le32_at(b@, i as int),
{
    (b[i] as u32) + 256 * (b[i + 1] as u32) + 65536 * (b[i + 2] as u32) + 16777216 * (b[i
        + 3] as u32)
}

/// The root directory's extent and size from a volume descriptor.
pub open spec fn spec_root_record(sector: Seq<u8>) -> Option<(u32, u32)> {
    if sector.len() < 190 || sector[156] < 34 {
        None
    } else {
        let lba = le32_at(sector, 158);
        let size = le32_at(sector, 166);
        if lba == 0 || size == 0 {
            None
        } else {
            Some((lba as u32, size as u32))
        }
    }
}

pub fn parse_root_record(sector: &[u8]) -> (r: Option<(u32, u32)>)
    ensures
        r == spec_root_record(sector@),
{
    if sector.len() < 190 || sector[156] < 34 {
        return None;
    }
    let lba = le32_read(sector, 158);
    let size = le32_read(sector, 166);
    if lba == 0 || size == 0 {
        None
    } else {
        Some((lba, size))
    }
}

/// An ISO 9660 identifier as a name: the text before `;`, without trailing dots.
pub open spec fn spec_decode_iso9660(ident: Seq<u8>) -> Seq<char> {
    let raw = utf8_lossy(ident);
    let k = find(raw, ";"@);
    trim_end_char(
        if k < 0 {
            raw
        } else {
            raw.take(k)
        },
        '.',
    )
}

/// The big-endian UTF-16 units of a Joliet identifier (a trailing odd byte is dropped).
pub open spec fn be_units(ident: Seq<u8>) -> Seq<u16> {
    Seq::new(ident.len() / 2, |k: int| (ident[2 * k] as nat * 256 + ident[2 * k + 1] as nat) as u16)
}

pub open spec fn spec_decode_joliet(ident: Seq<u8>) -> Seq<char> {
    let raw = utf16_lossy(be_units(ident));
    let k = find(raw, ";"@);
    trim_end_char(
        if k < 0 {
            raw
        } else {
            raw.take(k)
        },
        '.',
    )
}

fn before_semicolon(raw: &[char]) -> (r: Vec<char>)
    ensures
        r@ == trim_end_char(
            if find(raw@, ";"@) < 0 {
                raw@
            } else {
                raw@.take(find(raw@, ";"@))
            },
            '.',
        ),
{
    let semi = vec![';'];
    proof {
        reveal_strlit(";");
        assert(semi@ =~= ";"@);
    }
    let first = match find_vec(raw, semi.as_slice()) {
        None => crate::text::slice_vec(raw, 0, raw.len()),
        Some(k) => {
            proof {
                crate::text::lemma_find_in_range(raw@, ";"@);
            }
            crate::text::slice_vec(raw, 0, k)
        },
    };
    proof {
        if find(raw@, ";"@) < 0 {
            assert(first@ =~= raw@);
        } else {
            assert(first@ =~= raw@.take(find(raw@, ";"@)));
        }
    }
    trim_end_char_vec(first.as_slice(), '.')
}

pub fn decode_iso9660(ident: &[u8]) -> (r: String)
    ensures
        r@ == spec_decode_iso9660(ident@),
{
    let raw = decode_lossy(ident);
    let v = chars_of(raw.as_str());
    string_of(before_semicolon(v.as_slice()).as_slice())
}

pub fn decode_joliet(ident: &[u8]) -> (r: String)
    ensures
        r@ == spec_decode_joliet(ident@),
{
    let mut units: Vec<u16> = Vec::new();
    let ilen = ident.len();
    let n = ilen / 2;
    proof {
        vstd::arithmetic::div_mod::lemma_fundamental_div_mod(ilen as int, 2);
    }
    let mut k: usize = 0;
    while k < n
        invariant
            k <= n,
            2 * n <= ilen,
            ilen == ident@.len(),
            n == ident@.len() / 2,
            units@ == be_units(ident@).take(k as int),
        decreases n - k,
    {
        assert(2 * k + 1 < ilen);
        let u = (ident[2 * k] as u16) * 256 + (ident[2 * k + 1] as u16);
        units.push(u);
        assert(units@ =~= be_units(ident@).take(k as int + 1));
        k += 1;
    }
    assert(be_units(ident@).take(n as int) =~= be_units(ident@));
    let raw = decode_utf16_lossy(units.as_slice());
    let v = chars_of(raw.as_str());
    string_of(before_semicolon(v.as_slice()).as_slice())
}

/// A directory entry.
pub struct DirEnt {
    pub name: String,
    pub lba: u32,
    pub size: u32,
    pub is_dir: bool,
}

pub struct DirEntView {
    pub name: Seq<char>,
    pub lba: u32,
    pub size: u32,
    pub is_dir: bool,
}

impl View for DirEnt {
    type V = DirEntView;

    open spec fn view(&self) -> DirEntView {
        DirEntView { name: self.name@, lba: self.lba, size: self.size, is_dir: self.is_dir }
    }
}

pub open spec fn next_sector(i: int) -> int {
    (i / 2048 + 1) * 2048
}

pub proof fn lemma_next_sector(i: int)
    requires
        i >= 0,
    ensures
        i < next_sector(i) <= i + 2048,
{
    vstd::arithmetic::div_mod::lemma_fundamental_div_mod(i, 2048);
}

/// The named entries of a directory extent from offset `i`: records back to back, a zero
/// length skipping to the next sector; `.` and `..` and unnamed entries left out.
pub open spec fn dir_entries_from(data: Seq<u8>, joliet: bool, i: int) -> Seq<DirEntView>
    decreases data.len() + 2048 - i,
{
    if i < 0 || i >= data.len() {
        seq![]
    } else {
        let len = data[i] as int;
        if len == 0 {
            proof {
                lemma_next_sector(i);
            }
            dir_entries_from(data, joliet, next_sector(i))
        } else if i + len > data.len() {
            seq![]
        } else {
            let rec = data.subrange(i, i + len);
            let ident_len = if rec.len() > 32 {
                rec[32] as int
            } else {
                0
            };
            if rec.len() < 33 + ident_len {
                seq![]
            } else {
                let ident = rec.subrange(33, 33 + ident_len);
                if ident == seq![0u8] || ident == seq![1u8] {
                    dir_entries_from(data, joliet, i + len)
                } else {
                    let name = if joliet {
                        spec_decode_joliet(ident)
                    } else {
                        spec_decode_iso9660(ident)
                    };
                    let e = DirEntView {
                        name,
                        lba: le32_at(rec, 2) as u32,
                        size: le32_at(rec, 10) as u32,
                        is_dir: rec[25] & 2u8 != 0u8,
                    };
                    (if name.len() > 0 {
                        seq![e]
                    } else {
                        seq![]
                    }) + dir_entries_from(data, joliet, i + len)
                }
            }
        }
    }
}

pub open spec fn dirent_views(v: Seq<DirEnt>) -> Seq<DirEntView> {
    Seq::new(v.len(), |i: int| v[i]@)
}

fn sub_bytes(b: &[u8], lo: usize, hi: usize) -> (r: Vec<u8>)
    requires
        lo <= hi <= b@.len(),
    ensures
        r@ == b@.subrange(lo as int, hi as int),
{
    let mut out: Vec<u8> = Vec::new();
    let mut i: usize = lo;
    while i < hi
        invariant
            lo <= i <= hi,
            hi <= b@.len(),
            out@ == b@.subrange(lo as int, i as int),
        decreases hi - i,
    {
        out.push(b[i]);
        assert(out@ =~= b@.subrange(lo as int, i as int + 1));
        i += 1;
    }
    out
}

/// The entries of a directory extent.
pub fn parse_dir(data: &[u8], joliet: bool) -> (r: Vec<DirEnt>)
    requires
        data@.len() + 2048 <= usize::MAX,
    ensures
        dirent_views(r@) == dir_entries_from(data@, joliet, 0),
{
    let mut out: Vec<DirEnt> = Vec::new();
    let mut i: usize = 0;
    while i < data.len()
        invariant
            i <= data@.len() + 2048,
            data@.len() + 2048 <= usize::MAX,
            dir_entries_from(data@, joliet, 0) == dirent_views(out@) + dir_entries_from(
                data@,
                joliet,
                i as int,
            ),
        ensures
            dir_entries_from(data@, joliet, 0) == dirent_views(out@),
        decreases data@.len() + 2048 - i,
    {
        let ghost before = dirent_views(out@);
        let len = data[i] as usize;
        if len == 0 {
            proof {
                lemma_next_sector(i as int);
            }
            let nx = (i / 2048 + 1) * 2048;
            assert(nx as int == next_sector(i as int));
            i = nx;
            continue;
        }
        if len > data.len() - i {
            assert(dir_entries_from(data@, joliet, i as int) == Seq::<DirEntView>::empty());
            assert(before + Seq::<DirEntView>::empty() =~= before);
            assert(dir_entries_from(data@, joliet, 0) == dirent_views(out@));
            break;
        }
        let rec = sub_bytes(data, i, i + len);
        let ident_len: usize = if rec.len() > 32 {
            rec[32] as usize
        } else {
            0
        };
        if rec.len() < 33 + ident_len {
            assert(dir_entries_from(data@, joliet, i as int) == Seq::<DirEntView>::empty());
            assert(before + Seq::<DirEntView>::empty() =~= before);
            assert(dir_entries_from(data@, joliet, 0) == dirent_views(out@));
            break;
        }
        let ident = sub_bytes(rec.as_slice(), 33, 33 + ident_len);
        if ident.len() == 1 && (ident[0] == 0 || ident[0] == 1) {
            proof {
                if ident@[0] == 0u8 {
                    assert(ident@ =~= seq![0u8]);
                } else {
                    assert(ident@ =~= seq![1u8]);
                }
            }
            i = i + len;
            continue;
        }
        proof {
            if i as int >= data@.len() {
            }
            if ident@ == seq![0u8] {
                assert(ident@[0] == 0u8);
            }
            if ident@ == seq![1u8] {
                assert(ident@[0] == 1u8);
            }
        }
        let name = if joliet {
            decode_joliet(ident.as_slice())
        } else {
            decode_iso9660(ident.as_slice())
        };
        let lba = le32_read(rec.as_slice(), 2);
        let size = le32_read(rec.as_slice(), 10);
        let is_dir = rec[25] & 2u8 != 0u8;
        let named = chars_of(name.as_str()).len() > 0;
        if named {
            out.push(DirEnt { name, lba, size, is_dir });
            assert(dirent_views(out@) =~= before.push(out@.last()@));
        } else {
            assert(before + Seq::<DirEntView>::empty() =~= before);
        }
        i = i + len;
    }
    out
}

/// The index of the first entry whose name equals `part` ignoring ASCII case.
pub fn find_entry(entries: &Vec<DirEnt>, part: &str) -> (r: Option<usize>)
    ensures
        match r {
            Some(i) => i < entries@.len() && lower_seq(entries@[i as int].name@) == lower_seq(part@)
                && forall|j: int|
                0 <= j < i ==> lower_seq((#[trigger] entries@[j]).name@) != lower_seq(part@),
            None => forall|j: int|
                0 <= j < entries@.len() ==> lower_seq((#[trigger] entries@[j]).name@) != lower_seq(
                    part@,
                ),
        },
{
    let want = crate::text::lower_vec(chars_of(part).as_slice());
    let mut i: usize = 0;
    while i < entries.len()
        invariant
            i <= entries.len(),
            want@ == lower_seq(part@),
            forall|j: int| 0 <= j < i ==> lower_seq((#[trigger] entries@[j]).name@) != lower_seq(part@),
        decreases entries.len() - i,
    {
        let n = crate::text::lower_vec(chars_of(entries[i].name.as_str()).as_slice());
        if crate::text::chars_eq(n.as_slice(), want.as_slice()) {
            return Some(i);
        }
        i += 1;
    }
    None
}

/// Anaconda finds its install tree only when `inst.stage2` names the ISO label; add it
/// (spaces escaped as `\\x20`) to an `inst.` command line that lacks it.
pub open spec fn spec_resolve_cmdline(base: Seq<char>, volume_id: Seq<char>) -> Seq<char> {
    if volume_id.len() == 0 || !contains(base, "inst."@) || contains(base, "inst.stage2"@) {
        base
    } else {
        base + " inst.stage2=hd:LABEL="@ + replace_all(volume_id, " "@, "\\\\x20"@)
    }
}

pub fn resolve_cmdline(base: &str, volume_id: &str) -> (r: String)
    ensures
        r@ == spec_resolve_cmdline(base@, volume_id@),
{
    let b = chars_of(base);
    let v = chars_of(volume_id);
    if v.len() == 0 || !contains_str(b.as_slice(), "inst.") || contains_str(b.as_slice(), "inst.stage2") {
        return string_of(b.as_slice());
    }
    let sp = chars_of(" ");
    let esc = chars_of("\\\\x20");
    proof {
        reveal_strlit(" ");
    }
    let label = crate::host::replace_all_vec(v.as_slice(), sp.as_slice(), esc.as_slice());
    let mut out = b;
    append_str(&mut out, " inst.stage2=hd:LABEL=");
    crate::text::append_chars(&mut out, label.as_slice());
    string_of(out.as_slice())
}

/// Root directories and label found in the volume descriptors.
pub struct Roots {
    pub iso: Option<(u32, u32)>,
    pub joliet: Option<(u32, u32)>,
    pub volume_id: String,
}

pub struct RootsView {
    pub iso: Option<(u32, u32)>,
    pub joliet: Option<(u32, u32)>,
    pub volume_id: Seq<char>,
}

pub open spec fn is_descriptor(sector: Seq<u8>) -> bool {
    sector.len() >= 6 && sector.subrange(1, 6) == seq![0x43u8, 0x44u8, 0x30u8, 0x30u8, 0x31u8]
}

/// Descriptors in order until one that is not a descriptor or the terminator (255): the
/// primary (1) gives the ISO root and label, a Joliet supplementary (2) the Joliet root.
pub open spec fn roots_fold(sectors: Seq<Seq<u8>>, i: int, st: RootsView) -> RootsView
    decreases sectors.len() - i,
{
    if i < 0 || i >= sectors.len() || !is_descriptor(sectors[i]) || sectors[i][0] == 255u8 {
        st
    } else {
        let s = sectors[i];
        let next = if s[0] == 1u8 {
            RootsView { iso: spec_root_record(s), volume_id: spec_volume_id(s), ..st }
        } else if s[0] == 2u8 && spec_is_joliet(s) {
            RootsView { joliet: spec_root_record(s), ..st }
        } else {
            st
        };
        roots_fold(sectors, i + 1, next)
    }
}

pub open spec fn spec_roots(sectors: Seq<Seq<u8>>) -> Option<RootsView> {
    let st = roots_fold(sectors, 0, RootsView { iso: None, joliet: None, volume_id: seq![] });
    if st.iso is None && st.joliet is None {
        None
    } else {
        Some(st)
    }
}

pub open spec fn sectors_view(v: Seq<Vec<u8>>) -> Seq<Seq<u8>> {
    Seq::new(v.len(), |i: int| v[i]@)
}

/// Sectors 16, 17 and 18 of an image.
pub open spec fn first_descriptors(img: Seq<u8>) -> Seq<Seq<u8>> {
    seq![img.subrange(32768, 34816), img.subrange(34816, 36864), img.subrange(36864, 38912)]
}

/// An image the library writes reads back with both roots: the ISO 9660 root directory
/// at sector 23 and the Joliet one at sector 24, one sector each, whatever sectors follow
/// the terminator.
pub proof fn lemma_written_image_roots(vol: Seq<char>, files: IsoFiles, rest: Seq<Seq<u8>>)
    ensures
        spec_roots(first_descriptors(iso_image(vol, files)) + rest) matches Some(v) && v.iso
            == Some((23u32, 2048u32)) && v.joliet == Some((24u32, 2048u32)),
{
    lemma_image_reads(vol, files);
    lemma_image_roots(iso_image(vol, files), rest);
}

proof fn lemma_image_roots(img: Seq<u8>, rest: Seq<Seq<u8>>)
    requires
        ({
            let s0 = img.subrange(32768, 34816);
            let s1 = img.subrange(34816, 36864);
            let s2 = img.subrange(36864, 38912);
            &&& img.len() >= 38912
            &&& s0.len() == 2048 && s1.len() == 2048 && s2.len() == 2048
            &&& s0[0] == 1u8 && s0.subrange(1, 6) == cd001()
            &&& s1[0] == 2u8 && s1.subrange(1, 6) == cd001()
            &&& s2[0] == 255u8
            &&& s1[88] == 0x25u8 && s1[89] == 0x2fu8 && s1[90] == 0x45u8
            &&& s0[156] == 34u8 && s1[156] == 34u8
            &&& s0.subrange(158, 162) == le32(23) && s0.subrange(166, 170) == le32(2048)
            &&& s1.subrange(158, 162) == le32(24) && s1.subrange(166, 170) == le32(2048)
        }),
    ensures
        spec_roots(first_descriptors(img) + rest) matches Some(v) && v.iso == Some(
            (23u32, 2048u32),
        ) && v.joliet == Some((24u32, 2048u32)),
{
    let sv = first_descriptors(img) + rest;
    assert(sv[0] === img.subrange(32768, 34816));
    assert(sv[1] === img.subrange(34816, 36864));
    assert(sv[2] === img.subrange(36864, 38912));
    lemma_descriptor_chain(sv);
}

/// Sectors that start with a primary descriptor (root at 23), a Joliet one (root at 24)
/// and a terminator give those two roots.
proof fn lemma_descriptor_chain(sv: Seq<Seq<u8>>)
    requires
        sv.len() >= 3,
        sv[0].len() == 2048 && sv[1].len() == 2048 && sv[2].len() == 2048,
        sv[0][0] == 1u8 && sv[0].subrange(1, 6) == cd001(),
        sv[1][0] == 2u8 && sv[1].subrange(1, 6) == cd001(),
        sv[2][0] == 255u8,
        sv[1][88] == 0x25u8 && sv[1][89] == 0x2fu8 && sv[1][90] == 0x45u8,
        sv[0][156] == 34u8 && sv[1][156] == 34u8,
        sv[0].subrange(158, 162) == le32(23) && sv[0].subrange(166, 170) == le32(2048),
        sv[1].subrange(158, 162) == le32(24) && sv[1].subrange(166, 170) == le32(2048),
    ensures
        spec_roots(sv) matches Some(v) && v.iso == Some((23u32, 2048u32)) && v.joliet == Some(
            (24u32, 2048u32),
        ),
{
    let s0 = sv[0];
    let s1 = sv[1];
    lemma_root_record_reads(s0, 23);
    lemma_root_record_reads(s1, 24);
    assert(spec_is_joliet(s1));
    assert(is_descriptor(s0));
    assert(is_descriptor(s1));
    let init = RootsView { iso: None, joliet: None, volume_id: seq![] };
    let st1 = RootsView { iso: spec_root_record(s0), volume_id: spec_volume_id(s0), ..init };
    let st2 = RootsView { joliet: spec_root_record(s1), ..st1 };
    assert(roots_fold(sv, 2, st2) == st2);
    assert(roots_fold(sv, 1, st1) == roots_fold(sv, 2, st2));
    assert(roots_fold(sv, 0, init) == roots_fold(sv, 1, st1));
}

proof fn lemma_root_record_reads(d: Seq<u8>, root: nat)
    requires
        d.len() == 2048,
        d[156] == 34u8,
        0 < root < 256,
        d.subrange(158, 162) == le32(root),
        d.subrange(166, 170) == le32(2048),
    ensures
        spec_root_record(d) == Some((root as u32, 2048u32)),
{
    assert(d[158] == d.subrange(158, 162)[0]);
    assert(d[159] == d.subrange(158, 162)[1]);
    assert(d[160] == d.subrange(158, 162)[2]);
    assert(d[161] == d.subrange(158, 162)[3]);
    assert(d[166] == d.subrange(166, 170)[0]);
    assert(d[167] == d.subrange(166, 170)[1]);
    assert(d[168] == d.subrange(166, 170)[2]);
    assert(d[169] == d.subrange(166, 170)[3]);
    assert(le32_at(d, 158) == root);
    assert(le32_at(d, 166) == 2048);
}

/// The roots of an image from its descriptor sectors 16, 17, ... (as far as they could
/// be read); none when it has neither an ISO nor a Joliet root.
pub fn roots_from(sectors: &Vec<Vec<u8>>) -> (r: Option<Roots>)
    ensures
        match r {
            Some(x) => spec_roots(sectors_view(sectors@)) == Some(
                RootsView { iso: x.iso, joliet: x.joliet, volume_id: x.volume_id@ },
            ),
            None => spec_roots(sectors_view(sectors@)) is None,
        },
{
    let ghost sv = sectors_view(sectors@);
    let ghost init = RootsView { iso: None, joliet: None, volume_id: seq![] };
    let mut iso: Option<(u32, u32)> = None;
    let mut joliet: Option<(u32, u32)> = None;
    let mut volume_id = String::new();
    let mut i: usize = 0;
    while i < sectors.len()
        invariant
            i <= sectors.len(),
            sv == sectors_view(sectors@),
            roots_fold(sv, 0, init) == roots_fold(
                sv,
                i as int,
                RootsView { iso, joliet, volume_id: volume_id@ },
            ),
        ensures
            roots_fold(sv, 0, init) == (RootsView { iso, joliet, volume_id: volume_id@ }),
        decreases sectors.len() - i,
    {
        let s = &sectors[i];
        assert(sv[i as int] == s@);
        let desc = if s.len() >= 6 {
            let mid = sub_bytes(s.as_slice(), 1, 6);
            mid[0] == 0x43 && mid[1] == 0x44 && mid[2] == 0x30 && mid[3] == 0x30 && mid[4] == 0x31
        } else {
            false
        };
        proof {
            if s@.len() >= 6 {
                let m = s@.subrange(1, 6);
                if desc {
                    assert(m =~= seq![0x43u8, 0x44u8, 0x30u8, 0x30u8, 0x31u8]);
                } else {
                    assert(m != seq![0x43u8, 0x44u8, 0x30u8, 0x30u8, 0x31u8]) by {
                        if m == seq![0x43u8, 0x44u8, 0x30u8, 0x30u8, 0x31u8] {
                            assert(m[0] == 0x43u8 && m[1] == 0x44u8 && m[2] == 0x30u8 && m[3] == 0x30u8 && m[4] == 0x31u8);
                        }
                    }
                }
            }
        }
        let ghost st = RootsView { iso, joliet, volume_id: volume_id@ };
        if !desc || s[0] == 255 {
            assert(roots_fold(sv, i as int, st) == st);
            break;
        }
        if s[0] == 1 {
            iso = parse_root_record(s.as_slice());
            volume_id = parse_volume_id(s.as_slice());
        } else if s[0] == 2 && is_joliet(s.as_slice()) {
            joliet = parse_root_record(s.as_slice());
        }
        assert(roots_fold(sv, i as int, st) == roots_fold(
            sv,
            i as int + 1,
            RootsView { iso, joliet, volume_id: volume_id@ },
        ));
        i += 1;
    }
    if iso.is_none() && joliet.is_none() {
        None
    } else {
        Some(Roots { iso, joliet, volume_id })
    }
}

// ---------------------------------------------------------------------------
// Installer kernels
// ---------------------------------------------------------------------------

/// An installer layout: kernel path, initrd path (components) and its command line.
pub struct KernelCandidate {
    pub kernel: Vec<String>,
    pub initrd: Vec<String>,
    pub cmdline: String,
}

pub open spec fn strings_view(v: Seq<String>) -> Seq<Seq<char>> {
    Seq::new(v.len(), |i: int| v[i]@)
}

pub open spec fn candidate_view(c: KernelCandidate) -> (Seq<Seq<char>>, Seq<Seq<char>>, Seq<char>) {
    (strings_view(c.kernel@), strings_view(c.initrd@), c.cmdline@)
}

/// Ubuntu live (casper), Debian installer, Alpine virt and LTS, and Anaconda pxeboot
/// layouts, in the order they are tried.
pub open spec fn spec_kernel_candidates() -> Seq<(Seq<Seq<char>>, Seq<Seq<char>>, Seq<char>)> {
    seq![
        (seq!["casper"@, "vmlinuz"@], seq!["casper"@, "initrd"@], "console=ttyS0 boot=casper ---"@),
        (seq!["casper"@, "vmlinuz"@], seq!["casper"@, "initrd.gz"@], "console=ttyS0 boot=casper ---"@),
        (seq!["install.amd"@, "vmlinuz"@], seq!["install.amd"@, "initrd.gz"@], "console=ttyS0"@),
        (seq!["install.amd"@, "linux"@], seq!["install.amd"@, "initrd.gz"@], "console=ttyS0"@),
        (seq!["boot"@, "vmlinuz-virt"@], seq!["boot"@, "initramfs-virt"@], "console=ttyS0"@),
        (seq!["boot"@, "vmlinuz-lts"@], seq!["boot"@, "initramfs-lts"@], "console=ttyS0"@),
        (
            seq!["images"@, "pxeboot"@, "vmlinuz"@],
            seq!["images"@, "pxeboot"@, "initrd.img"@],
            "console=ttyS0 inst.text"@,
        ),
    ]
}

fn st(x: &str) -> (r: String)
    ensures
        r@ == x@,
{
    string_of(chars_of(x).as_slice())
}

fn cand(k1: &str, k2: &str, i1: &str, i2: &str, c: &str) -> (r: KernelCandidate)
    ensures
        candidate_view(r) == (seq![k1@, k2@], seq![i1@, i2@], c@),
{
    let r = KernelCandidate { kernel: vec![st(k1), st(k2)], initrd: vec![st(i1), st(i2)], cmdline: st(c) };
    assert(strings_view(r.kernel@) =~= seq![k1@, k2@]);
    assert(strings_view(r.initrd@) =~= seq![i1@, i2@]);
    r
}

pub fn kernel_candidates() -> (r: Vec<KernelCandidate>)
    ensures
        r@.len() == spec_kernel_candidates().len(),
        forall|i: int| 0 <= i < r@.len() ==> candidate_view(#[trigger] r@[i]) == spec_kernel_candidates()[i],
{
    let mut v: Vec<KernelCandidate> = Vec::new();
    v.push(cand("casper", "vmlinuz", "casper", "initrd", "console=ttyS0 boot=casper ---"));
    v.push(cand("casper", "vmlinuz", "casper", "initrd.gz", "console=ttyS0 boot=casper ---"));
    v.push(cand("install.amd", "vmlinuz", "install.amd", "initrd.gz", "console=ttyS0"));
    v.push(cand("install.amd", "linux", "install.amd", "initrd.gz", "console=ttyS0"));
    v.push(cand("boot", "vmlinuz-virt", "boot", "initramfs-virt", "console=ttyS0"));
    v.push(cand("boot", "vmlinuz-lts", "boot", "initramfs-lts", "console=ttyS0"));
    let last = KernelCandidate {
        kernel: vec![st("images"), st("pxeboot"), st("vmlinuz")],
        initrd: vec![st("images"), st("pxeboot"), st("initrd.img")],
        cmdline: st("console=ttyS0 inst.text"),
    };
    assert(strings_view(last.kernel@) =~= seq!["images"@, "pxeboot"@, "vmlinuz"@]);
    assert(strings_view(last.initrd@) =~= seq!["images"@, "pxeboot"@, "initrd.img"@]);
    v.push(last);
    v
}

/// Directories that mark a Secure Boot shim ISO.
pub open spec fn spec_shim_dirs() -> Seq<Seq<Seq<char>>> {
    seq![
        seq!["efi"@, "ubuntu"@],
        seq!["efi"@, "debian"@],
        seq!["efi"@, "fedora"@],
        seq!["efi"@, "centos"@],
        seq!["efi"@, "redhat"@],
    ]
}

pub fn shim_dirs() -> (r: Vec<Vec<String>>)
    ensures
        r@.len() == 5,
        forall|i: int| 0 <= i < 5 ==> strings_view(#[trigger] r@[i]@) == spec_shim_dirs()[i],
{
    let mut v: Vec<Vec<String>> = Vec::new();
    let a = vec![st("efi"), st("ubuntu")];
    let b = vec![st("efi"), st("debian")];
    let c = vec![st("efi"), st("fedora")];
    let d = vec![st("efi"), st("centos")];
    let e = vec![st("efi"), st("redhat")];
    assert(strings_view(a@) =~= spec_shim_dirs()[0]);
    assert(strings_view(b@) =~= spec_shim_dirs()[1]);
    assert(strings_view(c@) =~= spec_shim_dirs()[2]);
    assert(strings_view(d@) =~= spec_shim_dirs()[3]);
    assert(strings_view(e@) =~= spec_shim_dirs()[4]);
    v.push(a);
    v.push(b);
    v.push(c);
    v.push(d);
    v.push(e);
    v
}

/// Why a shim-only ISO cannot be booted.
pub open spec fn shim_msg() -> Seq<char> {
    "this ISO uses UEFI Secure Boot (shim). Cloud Hypervisor firmware (hypervisor-fw) cannot run it (import_mok_state / security protocol Unsupported). Use Alpine virt, an Ubuntu live ISO with casper/vmlinuz (pertisk kernel-boots those), or a cloud image + cloud-init. Graphical Ubuntu Desktop / Windows need VGA (not in this VMM)."@
}

/// A lookup result: extent, size, and whether it is a directory.
pub type Found = Option<(u32, u32, bool)>;

pub open spec fn usable_file(f: Found) -> bool {
    f matches Some((_, size, is_dir)) && !is_dir && size != 0
}

/// How to boot an installer ISO, from the lookups of each candidate's kernel and initrd
/// and of each shim directory: the first candidate whose two files exist and are not
/// empty; else an error when a shim directory exists; else firmware boot (`None`).
pub fn choose_iso_boot(found: &Vec<(Found, Found)>, shim_found: &Vec<Found>) -> (r: Result<
    Option<usize>,
    String,
>)
    ensures
        match r {
            Ok(Some(i)) => i < found@.len() && usable_file(found@[i as int].0) && usable_file(
                found@[i as int].1,
            ) && forall|j: int|
                0 <= j < i ==> !(usable_file((#[trigger] found@[j]).0) && usable_file(found@[j].1)),
            Ok(None) => (forall|j: int|
                0 <= j < found@.len() ==> !(usable_file((#[trigger] found@[j]).0) && usable_file(
                    found@[j].1,
                ))) && forall|j: int|
                0 <= j < shim_found@.len() ==> !((#[trigger] shim_found@[j]) matches Some(
                    (_, _, true),
                )),
            Err(m) => (forall|j: int|
                0 <= j < found@.len() ==> !(usable_file((#[trigger] found@[j]).0) && usable_file(
                    found@[j].1,
                ))) && (exists|j: int|
                0 <= j < shim_found@.len() && (#[trigger] shim_found@[j]) matches Some(
                    (_, _, true),
                )) && m@ == shim_msg(),
        },
{
    let mut i: usize = 0;
    while i < found.len()
        invariant
            i <= found.len(),
            forall|j: int|
                0 <= j < i ==> !(usable_file((#[trigger] found@[j]).0) && usable_file(found@[j].1)),
        decreases found.len() - i,
    {
        let (k, n) = found[i];
        let ku = match k {
            Some((_, size, is_dir)) => !is_dir && size != 0,
            None => false,
        };
        let nu = match n {
            Some((_, size, is_dir)) => !is_dir && size != 0,
            None => false,
        };
        if ku && nu {
            return Ok(Some(i));
        }
        i += 1;
    }
    let mut j: usize = 0;
    while j < shim_found.len()
        invariant
            j <= shim_found.len(),
            forall|k: int| 0 <= k < j ==> !((#[trigger] shim_found@[k]) matches Some((_, _, true))),
            forall|k: int|
                0 <= k < found@.len() ==> !(usable_file((#[trigger] found@[k]).0) && usable_file(found@[k].1)),
        decreases shim_found.len() - j,
    {
        match shim_found[j] {
            Some((_, _, true)) => {
                assert(shim_found@[j as int] matches Some((_, _, true)));
                proof {
                    reveal_strlit("this ISO uses UEFI Secure Boot (shim). Cloud Hypervisor firmware (hypervisor-fw) cannot run it (import_mok_state / security protocol Unsupported). Use Alpine virt, an Ubuntu live ISO with casper/vmlinuz (pertisk kernel-boots those), or a cloud image + cloud-init. Graphical Ubuntu Desktop / Windows need VGA (not in this VMM).");
                }
                return Err(st("this ISO uses UEFI Secure Boot (shim). Cloud Hypervisor firmware (hypervisor-fw) cannot run it (import_mok_state / security protocol Unsupported). Use Alpine virt, an Ubuntu live ISO with casper/vmlinuz (pertisk kernel-boots those), or a cloud image + cloud-init. Graphical Ubuntu Desktop / Windows need VGA (not in this VMM)."));
            },
            _ => {},
        }
        j += 1;
    }
    Ok(None)
}

} // verus!
