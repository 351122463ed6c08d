//! Kernel-booting cloud disks whose firmware path needs Secure Boot shim: which
//! partition is which, and the kernel command line to boot them with.
use vstd::prelude::*;

use crate::text::{
    all_digits, append_chars, append_str, chars_of, contains, contains_str, is_digit_char, join,
    join_vec, lines, lines_of, parse_unsigned, rfind, rfind_vec, slice_vec, starts_with,
    starts_with_str, string_of, trim, trim_vec, words, words_of,
};

verus! {

/// The last component of a path split at `/`, skipping empty and `.` components.
pub open spec fn last_component(segs: Seq<Seq<char>>) -> Option<Seq<char>>
    decreases segs.len(),
{
    if segs.len() == 0 {
        None
    } else if segs.last().len() == 0 || segs.last() == seq!['.'] {
        last_component(segs.drop_last())
    } else {
        Some(segs.last())
    }
}

/// `Path::file_name`: the last normal component; none when the path ends in `..` or has
/// no component left (empty, `/`, `.`).
pub open spec fn path_file_name(p: Seq<char>) -> Option<Seq<char>> {
    match last_component(crate::text::split_char(p, '/')) {
        Some(c) => if c == seq!['.', '.'] {
            None
        } else {
            Some(c)
        },
        None => None,
    }
}

pub fn file_name(p: &str) -> (r: Option<Vec<char>>)
    ensures
        match r {
            Some(n) => path_file_name(p@) == Some(n@),
            None => path_file_name(p@) is None,
        },
{
    let segs = crate::text::split_on(chars_of(p).as_slice(), '/');
    let ghost sd = segs.deep_view();
    let mut i: usize = segs.len();
    assert(sd.take(i as int) =~= sd);
    while i > 0
        invariant
            i <= segs.len(),
            sd == segs.deep_view(),
            sd == crate::text::split_char(p@, '/'),
            last_component(sd) == last_component(sd.take(i as int)),
        decreases i,
    {
        proof {
            crate::text::lemma_char_vec_dv(segs@[i as int - 1]);
            assert(sd.take(i as int).drop_last() =~= sd.take(i as int - 1));
        }
        let seg = &segs[i - 1];
        if seg.len() == 0 || (seg.len() == 1 && seg[0] == '.') {
            proof {
                if seg@.len() == 1 {
                    assert(seg@ =~= seq!['.']);
                }
            }
            i -= 1;
        } else {
            proof {
                assert(seg@ != seq!['.']) by {
                    if seg@.len() == 1 {
                        assert(seg@[0] != '.');
                    }
                }
            }
            if seg.len() == 2 && seg[0] == '.' && seg[1] == '.' {
                assert(seg@ =~= seq!['.', '.']);
                return None;
            }
            proof {
                assert(seg@ != seq!['.', '.']) by {
                    if seg@.len() == 2 {
                        assert(!(seg@[0] == '.' && seg@[1] == '.'));
                    }
                }
            }
            return Some(slice_vec(seg.as_slice(), 0, seg.len()));
        }
    }
    None
}

/// `fname` names a partition of loop device `loop_name`: the name, `p`, then digits.
pub open spec fn spec_is_loop_partition(loop_name: Seq<char>, fname: Seq<char>) -> bool {
    &&& starts_with(fname, loop_name)
    &&& starts_with(fname.skip(loop_name.len() as int), "p"@)
    &&& fname.skip(loop_name.len() as int + 1).len() > 0
    &&& all_digits(fname.skip(loop_name.len() as int + 1))
}

fn digits_only(s: &[char]) -> (r: bool)
    ensures
        r == all_digits(s@),
{
    let mut i: usize = 0;
    while i < s.len()
        invariant
            i <= s.len(),
            forall|j: int| 0 <= j < i ==> crate::text::is_digit(#[trigger] s@[j]),
        decreases s.len() - i,
    {
        if !is_digit_char(s[i]) {
            return false;
        }
        i += 1;
    }
    true
}

pub fn is_loop_partition(loop_name: &str, fname: &str) -> (r: bool)
    ensures
        r == spec_is_loop_partition(loop_name@, fname@),
{
    proof {
        reveal_strlit("p");
    }
    let l = chars_of(loop_name);
    let f = chars_of(fname);
    if !crate::text::starts_with_vec(f.as_slice(), l.as_slice()) {
        return false;
    }
    let rest = slice_vec(f.as_slice(), l.len(), f.len());
    assert(rest@ =~= f@.skip(l@.len() as int));
    if !starts_with_str(rest.as_slice(), "p") {
        return false;
    }
    let num = slice_vec(rest.as_slice(), 1, rest.len());
    assert(num@ =~= f@.skip(l@.len() as int + 1));
    num.len() > 0 && digits_only(num.as_slice())
}

/// The text after the last `p` of a name (the whole name without one).
pub open spec fn after_last_p(n: Seq<char>) -> Seq<char> {
    let k = rfind(n, "p"@);
    if k < 0 {
        n
    } else {
        n.skip(k + 1)
    }
}

/// The partition number ending a device name (`loop0p15` is 15); 0 when there is none.
pub open spec fn spec_partition_index(path: Seq<char>) -> u32 {
    match path_file_name(path) {
        None => 0,
        Some(n) => match parse_unsigned(after_last_p(n), u32::MAX as nat) {
            Some(v) => v as u32,
            None => 0,
        },
    }
}

fn after_last_p_vec(n: &[char]) -> (r: Vec<char>)
    ensures
        r@ == after_last_p(n@),
{
    let pv = vec!['p'];
    proof {
        reveal_strlit("p");
        assert(pv@ =~= "p"@);
    }
    match rfind_vec(n, pv.as_slice()) {
        None => slice_vec(n, 0, n.len()),
        Some(k) => {
            let len = n.len();
            proof {
                crate::text::lemma_rfind_to(n@, "p"@, n@.len() - 1);
            }
            let x = slice_vec(n, k + 1, len);
            assert(x@ =~= n@.skip(k + 1));
            x
        },
    }
}

pub fn partition_index(path: &str) -> (r: u32)
    ensures
        r == spec_partition_index(path@),
{
    match file_name(path) {
        None => 0,
        Some(n) => {
            let tail = after_last_p_vec(n.as_slice());
            match crate::text::parse_unsigned_vec(tail.as_slice(), u32::MAX as u64) {
                Some(v) => v as u32,
                None => 0,
            }
        },
    }
}

/// The guest's virtio disk partition with the same number: `/dev/loop3p1` is `/dev/vda1`.
pub open spec fn spec_virtio_root_dev(part: Seq<char>) -> Option<Seq<char>> {
    match path_file_name(part) {
        None => None,
        Some(n) => {
            let k = rfind(n, "p"@);
            if k < 0 {
                None
            } else {
                let num = n.skip(k + 1);
                if num.len() == 0 || !all_digits(num) {
                    None
                } else {
                    Some("/dev/vda"@ + num)
                }
            }
        },
    }
}

pub open spec fn opt_str_view(o: Option<String>) -> Option<Seq<char>> {
    match o {
        Some(s) => Some(s@),
        None => None,
    }
}

pub fn virtio_root_dev(part: &str) -> (r: Option<String>)
    ensures
        opt_str_view(r) == spec_virtio_root_dev(part@),
{
    let n = match file_name(part) {
        None => {
            return None;
        },
        Some(n) => n,
    };
    let pv = vec!['p'];
    proof {
        reveal_strlit("p");
        assert(pv@ =~= "p"@);
    }
    match rfind_vec(n.as_slice(), pv.as_slice()) {
        None => None,
        Some(k) => {
            let len = n.len();
            proof {
                crate::text::lemma_rfind_to(n@, "p"@, n@.len() - 1);
            }
            let num = slice_vec(n.as_slice(), k + 1, len);
            assert(num@ =~= n@.skip(k + 1));
            if num.len() == 0 || !digits_only(num.as_slice()) {
                None
            } else {
                let mut out = chars_of("/dev/vda");
                append_chars(&mut out, num.as_slice());
                Some(string_of(out.as_slice()))
            }
        },
    }
}

pub open spec fn block_root_word(w: Seq<char>) -> bool {
    starts_with(w, "root=/dev/"@) || starts_with(w, "root=UUID="@) || starts_with(
        w,
        "root=PARTUUID="@,
    )
}

/// Whether the command line names the root by device, UUID or PARTUUID (a `LABEL=` root
/// needs an initramfs that a direct kernel boot may lack).
pub open spec fn spec_has_block_root(cmdline: Seq<char>) -> bool {
    exists|i: int| 0 <= i < words(cmdline).len() && block_root_word(#[trigger] words(cmdline)[i])
}

pub fn cmdline_has_block_root(cmdline: &str) -> (r: bool)
    ensures
        r == spec_has_block_root(cmdline@),
{
    let ws = words_of(chars_of(cmdline).as_slice());
    let ghost wd = ws.deep_view();
    let mut i: usize = 0;
    while i < ws.len()
        invariant
            i <= ws.len(),
            wd == ws.deep_view(),
            wd == words(cmdline@),
            forall|j: int| 0 <= j < i ==> !block_root_word(#[trigger] wd[j]),
        decreases ws.len() - i,
    {
        proof {
            crate::text::lemma_char_vec_dv(ws@[i as int]);
        }
        let w = ws[i].as_slice();
        if starts_with_str(w, "root=/dev/") || starts_with_str(w, "root=UUID=") || starts_with_str(
            w,
            "root=PARTUUID=",
        ) {
            assert(block_root_word(wd[i as int]));
            return true;
        }
        i += 1;
    }
    false
}

pub open spec fn keeps_word(w: Seq<char>) -> bool {
    !starts_with(w, "root="@) && !starts_with(w, "rootfstype="@)
}

/// The root the guest should mount: its virtio partition, else the partition's
/// PARTUUID, else its filesystem UUID.
pub open spec fn pinned_root(part: Seq<char>, partuuid: Option<Seq<char>>, uuid: Option<Seq<char>>) -> Option<
    Seq<char>,
> {
    match spec_virtio_root_dev(part) {
        Some(v) => Some(v),
        None => match partuuid {
            Some(u) => Some("PARTUUID="@ + u),
            None => match uuid {
                Some(u) => Some("UUID="@ + u),
                None => None,
            },
        },
    }
}

/// `cmdline` with its `root=` and `rootfstype=` words replaced by the pinned root (and
/// the filesystem type when known) in front, and `rootwait` at the end if missing;
/// unchanged when no root can be named.
pub open spec fn spec_pin_root(
    cmdline: Seq<char>,
    part: Seq<char>,
    partuuid: Option<Seq<char>>,
    uuid: Option<Seq<char>>,
    fstype: Option<Seq<char>>,
) -> Seq<char> {
    let rest = words(cmdline).filter(|w: Seq<char>| keeps_word(w));
    match pinned_root(part, partuuid, uuid) {
        None => cmdline,
        Some(root) => {
            let a = "root="@ + root + match fstype {
                Some(t) => " rootfstype="@ + t,
                None => seq![],
            };
            let b = if rest.len() > 0 {
                a + " "@ + join(rest, " "@)
            } else {
                a
            };
            if contains(b, "rootwait"@) {
                b
            } else {
                b + " rootwait"@
            }
        },
    }
}

fn kept_words(cmdline: &str) -> (r: Vec<Vec<char>>)
    ensures
        r.deep_view() == words(cmdline@).filter(|w: Seq<char>| keeps_word(w)),
{
    let ws = words_of(chars_of(cmdline).as_slice());
    let ghost wd = ws.deep_view();
    let mut out: Vec<Vec<char>> = Vec::new();
    let mut i: usize = 0;
    proof {
        crate::text::lemma_dv_empty(out@);
        reveal(Seq::filter);
        assert(wd.take(0) =~= Seq::<Seq<char>>::empty());
    }
    while i < ws.len()
        invariant
            i <= ws.len(),
            wd == ws.deep_view(),
            wd == words(cmdline@),
            crate::text::dv(out@) == wd.take(i as int).filter(|w: Seq<char>| keeps_word(w)),
        decreases ws.len() - i,
    {
        proof {
            reveal(Seq::filter);
            crate::text::lemma_char_vec_dv(ws@[i as int]);
            assert(wd.take(i as int + 1).drop_last() =~= wd.take(i as int));
        }
        let w = ws[i].as_slice();
        let ghost prev = wd.take(i as int);
        let ghost cur = wd.take(i as int + 1);
        proof {
            assert(cur.last() == wd[i as int]);
            assert(cur.filter(|w: Seq<char>| keeps_word(w)) == if keeps_word(wd[i as int]) {
                prev.filter(|w: Seq<char>| keeps_word(w)).push(wd[i as int])
            } else {
                prev.filter(|w: Seq<char>| keeps_word(w))
            });
        }
        if !starts_with_str(w, "root=") && !starts_with_str(w, "rootfstype=") {
            let x = slice_vec(w, 0, w.len());
            assert(x@ =~= wd[i as int]);
            let ghost o0 = out@;
            let ghost xg = x;
            out.push(x);
            proof {
                crate::text::lemma_dv_push(o0, xg, out@);
            }
        }
        i += 1;
    }
    assert(wd.take(ws.len() as int) =~= wd);
    assert(out.deep_view() =~= crate::text::dv(out@));
    out
}

/// Pin `root=` to a device the kernel can find without udev; `partuuid`, `uuid` and
/// `fstype` are what `blkid` reports for the partition.
pub fn pin_root_device(
    cmdline: &str,
    part: &str,
    partuuid: Option<String>,
    uuid: Option<String>,
    fstype: Option<String>,
) -> (r: String)
    ensures
        r@ == spec_pin_root(
            cmdline@,
            part@,
            opt_str_view(partuuid),
            opt_str_view(uuid),
            opt_str_view(fstype),
        ),
{
    let rest = kept_words(cmdline);
    let root = match virtio_root_dev(part) {
        Some(v) => v,
        None => match partuuid {
            Some(u) => {
                let mut x = chars_of("PARTUUID=");
                append_str(&mut x, u.as_str());
                string_of(x.as_slice())
            },
            None => match uuid {
                Some(u) => {
                    let mut x = chars_of("UUID=");
                    append_str(&mut x, u.as_str());
                    string_of(x.as_slice())
                },
                None => {
                    return string_of(chars_of(cmdline).as_slice());
                },
            },
        },
    };
    let mut out = chars_of("root=");
    append_str(&mut out, root.as_str());
    match &fstype {
        Some(t) => {
            append_str(&mut out, " rootfstype=");
            append_str(&mut out, t.as_str());
        },
        None => {},
    }
    let ghost a = "root="@ + root@ + match opt_str_view(fstype) {
        Some(t) => " rootfstype="@ + t,
        None => seq![],
    };
    assert(out@ =~= a);
    let ghost rs = words(cmdline@).filter(|w: Seq<char>| keeps_word(w));
    assert(rest.deep_view() == rs);
    if rest.len() > 0 {
        append_str(&mut out, " ");
        let sp = vec![' '];
        proof {
            reveal_strlit(" ");
            assert(sp@ =~= " "@);
        }
        let j = join_vec(&rest, sp.as_slice());
        append_chars(&mut out, j.as_slice());
    }
    let ghost b = if rs.len() > 0 {
        a + " "@ + join(rs, " "@)
    } else {
        a
    };
    assert(out@ =~= b);
    if !contains_str(out.as_slice(), "rootwait") {
        append_str(&mut out, " rootwait");
    }
    proof {
        assert(pinned_root(part@, opt_str_view(partuuid), opt_str_view(uuid)) == Some(root@));
    }
    string_of(out.as_slice())
}

/// The command line a shim disk is kernel-booted with: its boot entry's options with the
/// root pinned when it is a label or no block device, plus a serial console, `reboot=k`
/// and `panic=1` unless already set.
pub open spec fn spec_disk_boot_cmdline(
    options: Seq<char>,
    root_part: Seq<char>,
    partuuid: Option<Seq<char>>,
    uuid: Option<Seq<char>>,
    fstype: Option<Seq<char>>,
) -> Seq<char> {
    let label = exists|i: int|
        0 <= i < words(options).len() && starts_with(#[trigger] words(options)[i], "root=LABEL="@);
    let c0 = if label || !spec_has_block_root(options) {
        spec_pin_root(options, root_part, partuuid, uuid, fstype)
    } else {
        options
    };
    let c1 = if contains(c0, "console="@) {
        c0
    } else {
        c0 + " console=ttyS0,115200n8"@
    };
    let c2 = if contains(c1, "reboot="@) {
        c1
    } else {
        c1 + " reboot=k"@
    };
    if contains(c2, "panic="@) {
        c2
    } else {
        c2 + " panic=1"@
    }
}

fn has_label_root(cmdline: &str) -> (r: bool)
    ensures
        r == exists|i: int|
            0 <= i < words(cmdline@).len() && starts_with(
                #[trigger] words(cmdline@)[i],
                "root=LABEL="@,
            ),
{
    let ws = words_of(chars_of(cmdline).as_slice());
    let ghost wd = ws.deep_view();
    let mut i: usize = 0;
    while i < ws.len()
        invariant
            i <= ws.len(),
            wd == ws.deep_view(),
            wd == words(cmdline@),
            forall|j: int| 0 <= j < i ==> !starts_with(#[trigger] wd[j], "root=LABEL="@),
        decreases ws.len() - i,
    {
        proof {
            crate::text::lemma_char_vec_dv(ws@[i as int]);
        }
        if starts_with_str(ws[i].as_slice(), "root=LABEL=") {
            assert(starts_with(wd[i as int], "root=LABEL="@));
            return true;
        }
        i += 1;
    }
    false
}

fn append_unless(v: &mut Vec<char>, key: &str, extra: &str)
    ensures
        final(v)@ == if contains(old(v)@, key@) {
            old(v)@
        } else {
            old(v)@ + extra@
        },
{
    if !contains_str(v.as_slice(), key) {
        append_str(v, extra);
    }
}

pub fn disk_boot_cmdline(
    options: &str,
    root_part: &str,
    partuuid: Option<String>,
    uuid: Option<String>,
    fstype: Option<String>,
) -> (r: String)
    ensures
        r@ == spec_disk_boot_cmdline(
            options@,
            root_part@,
            opt_str_view(partuuid),
            opt_str_view(uuid),
            opt_str_view(fstype),
        ),
{
    let c0 = if has_label_root(options) || !cmdline_has_block_root(options) {
        pin_root_device(options, root_part, partuuid, uuid, fstype)
    } else {
        string_of(chars_of(options).as_slice())
    };
    let mut v = chars_of(c0.as_str());
    append_unless(&mut v, "console=", " console=ttyS0,115200n8");
    append_unless(&mut v, "reboot=", " reboot=k");
    append_unless(&mut v, "panic=", " panic=1");
    string_of(v.as_slice())
}

/// Kernel, initramfs and command line to boot a guest directly.
pub struct LinuxIsoBoot {
    pub kernel: String,
    pub initramfs: String,
    pub cmdline: String,
}

// ---------------------------------------------------------------------------
// Boot entries
// ---------------------------------------------------------------------------

/// A Boot Loader Specification entry (or one made up from `/boot/vmlinuz`).
pub struct BlsEntry {
    pub linux: String,
    pub initrd: String,
    pub options: String,
    pub version: String,
}

pub struct BlsView {
    pub linux: Seq<char>,
    pub initrd: Seq<char>,
    pub options: Seq<char>,
    pub version: Seq<char>,
}

impl View for BlsEntry {
    type V = BlsView;

    open spec fn view(&self) -> BlsView {
        BlsView {
            linux: self.linux@,
            initrd: self.initrd@,
            options: self.options@,
            version: self.version@,
        }
    }
}

pub struct BlsState {
    pub linux: Option<Seq<char>>,
    pub initrd: Option<Seq<char>>,
    pub options: Seq<char>,
    pub version: Seq<char>,
}

/// One line of an entry file: the last `linux`, `initrd`, `options` and `version` keys win.
pub open spec fn bls_step(st: BlsState, line: Seq<char>) -> BlsState {
    let t = trim(line);
    if starts_with(t, "linux "@) {
        BlsState { linux: Some(trim(t.skip(6))), ..st }
    } else if starts_with(t, "initrd "@) {
        BlsState { initrd: Some(trim(t.skip(7))), ..st }
    } else if starts_with(t, "options "@) {
        BlsState { options: trim(t.skip(8)), ..st }
    } else if starts_with(t, "version "@) {
        BlsState { version: trim(t.skip(8)), ..st }
    } else {
        st
    }
}

pub open spec fn bls_fold(ls: Seq<Seq<char>>) -> BlsState
    decreases ls.len(),
{
    if ls.len() == 0 {
        BlsState { linux: None, initrd: None, options: seq![], version: seq![] }
    } else {
        bls_step(bls_fold(ls.drop_last()), ls.last())
    }
}

/// An entry needs both a kernel and an initrd.
pub open spec fn spec_parse_bls(text: Seq<char>) -> Option<BlsView> {
    let st = bls_fold(lines(text));
    match (st.linux, st.initrd) {
        (Some(l), Some(i)) => Some(
            BlsView { linux: l, initrd: i, options: st.options, version: st.version },
        ),
        _ => None,
    }
}

fn rest_after(t: &[char], n: usize) -> (r: Vec<char>)
    requires
        n <= t@.len(),
    ensures
        r@ == trim(t@.skip(n as int)),
{
    let x = slice_vec(t, n, t.len());
    assert(x@ =~= t@.skip(n as int));
    trim_vec(x.as_slice())
}

/// The entry an entry file's text describes.
pub fn parse_bls(text: &str) -> (r: Option<BlsEntry>)
    ensures
        match r {
            Some(e) => spec_parse_bls(text@) == Some(e@),
            None => spec_parse_bls(text@) is None,
        },
{
    let ls = lines_of(chars_of(text).as_slice());
    let ghost ld = ls.deep_view();
    let mut linux: Option<Vec<char>> = None;
    let mut initrd: Option<Vec<char>> = None;
    let mut options: Vec<char> = Vec::new();
    let mut version: Vec<char> = Vec::new();
    let mut i: usize = 0;
    proof {
        assert(ld.take(0) =~= Seq::<Seq<char>>::empty());
    }
    while i < ls.len()
        invariant
            i <= ls.len(),
            ld == ls.deep_view(),
            bls_fold(ld.take(i as int)) == (BlsState {
                linux: match linux {
                    Some(v) => Some(v@),
                    None => None,
                },
                initrd: match initrd {
                    Some(v) => Some(v@),
                    None => None,
                },
                options: options@,
                version: version@,
            }),
        decreases ls.len() - i,
    {
        proof {
            crate::text::lemma_char_vec_dv(ls@[i as int]);
            assert(ld.take(i as int + 1).drop_last() =~= ld.take(i as int));
            reveal_strlit("linux ");
            reveal_strlit("initrd ");
            reveal_strlit("options ");
            reveal_strlit("version ");
        }
        let t = trim_vec(ls[i].as_slice());
        if starts_with_str(t.as_slice(), "linux ") {
            linux = Some(rest_after(t.as_slice(), 6));
        } else if starts_with_str(t.as_slice(), "initrd ") {
            initrd = Some(rest_after(t.as_slice(), 7));
        } else if starts_with_str(t.as_slice(), "options ") {
            options = rest_after(t.as_slice(), 8);
        } else if starts_with_str(t.as_slice(), "version ") {
            version = rest_after(t.as_slice(), 8);
        }
        i += 1;
    }
    assert(ld.take(ls.len() as int) =~= ld);
    match (linux, initrd) {
        (Some(l), Some(ir)) => Some(
            BlsEntry {
                linux: string_of(l.as_slice()),
                initrd: string_of(ir.as_slice()),
                options: string_of(options.as_slice()),
                version: string_of(version.as_slice()),
            },
        ),
        _ => None,
    }
}

/// Kernel options of a GRUB `linux`/`linuxefi` line: its words after the kernel path.
pub open spec fn grub_line_options(line: Seq<char>) -> Option<Seq<char>> {
    let t = trim(line);
    let rest = if starts_with(t, "linux "@) || starts_with(t, "linux\t"@) {
        Some(t.skip(6))
    } else if starts_with(t, "linuxefi "@) {
        Some(t.skip(9))
    } else {
        None
    };
    match rest {
        None => None,
        Some(r) => {
            let ws = words(r);
            let o = if ws.len() > 0 {
                join(ws.skip(1), " "@)
            } else {
                seq![]
            };
            if o.len() > 0 {
                Some(o)
            } else {
                None
            }
        },
    }
}

/// The options of the last such line with any.
pub open spec fn grub_text_options(ls: Seq<Seq<char>>) -> Option<Seq<char>>
    decreases ls.len(),
{
    if ls.len() == 0 {
        None
    } else {
        match grub_line_options(ls.last()) {
            Some(o) => Some(o),
            None => grub_text_options(ls.drop_last()),
        }
    }
}

/// Over the GRUB configurations in search order; an absent one ends the search.
pub open spec fn spec_grub_options(cfgs: Seq<Option<Seq<char>>>) -> Option<Seq<char>>
    decreases cfgs.len(),
{
    if cfgs.len() == 0 {
        None
    } else {
        match cfgs[0] {
            None => None,
            Some(t) => match grub_text_options(lines(t)) {
                Some(o) => Some(o),
                None => spec_grub_options(cfgs.drop_first()),
            },
        }
    }
}

fn grub_line_options_vec(line: &[char]) -> (r: Option<Vec<char>>)
    ensures
        match r {
            Some(o) => grub_line_options(line@) == Some(o@),
            None => grub_line_options(line@) is None,
        },
{
    proof {
        reveal_strlit("linux ");
        reveal_strlit("linux\t");
        reveal_strlit("linuxefi ");
        reveal_strlit(" ");
    }
    let t = trim_vec(line);
    let rest = if starts_with_str(t.as_slice(), "linux ") || starts_with_str(t.as_slice(), "linux\t") {
        let x = slice_vec(t.as_slice(), 6, t.len());
        assert(x@ =~= t@.skip(6));
        x
    } else if starts_with_str(t.as_slice(), "linuxefi ") {
        let x = slice_vec(t.as_slice(), 9, t.len());
        assert(x@ =~= t@.skip(9));
        x
    } else {
        return None;
    };
    let ws = words_of(rest.as_slice());
    let ghost wd = ws.deep_view();
    if ws.len() == 0 {
        return None;
    }
    let mut tail: Vec<Vec<char>> = Vec::new();
    let mut i: usize = 1;
    proof {
        crate::text::lemma_dv_empty(tail@);
    }
    while i < ws.len()
        invariant
            1 <= i <= ws.len(),
            wd == ws.deep_view(),
            crate::text::dv(tail@) == wd.subrange(1, i as int),
        decreases ws.len() - i,
    {
        proof {
            crate::text::lemma_char_vec_dv(ws@[i as int]);
        }
        let x = slice_vec(ws[i].as_slice(), 0, ws[i].len());
        assert(x@ =~= wd[i as int]);
        let ghost t0 = tail@;
        let ghost xg = x;
        tail.push(x);
        proof {
            crate::text::lemma_dv_push(t0, xg, tail@);
            assert(crate::text::dv(tail@) =~= wd.subrange(1, i as int + 1));
        }
        i += 1;
    }
    assert(tail.deep_view() =~= wd.skip(1));
    let sp = vec![' '];
    assert(sp@ =~= " "@);
    let o = join_vec(&tail, sp.as_slice());
    if o.len() > 0 {
        Some(o)
    } else {
        None
    }
}

/// Kernel options from the GRUB configurations `boot/grub/grub.cfg`, `grub/grub.cfg`
/// and `boot/grub2/grub.cfg` (each as read, or absent).
pub fn grub_linux_options(cfgs: &Vec<Option<String>>) -> (r: Option<String>)
    ensures
        opt_str_view(r) == spec_grub_options(cfgs@.map_values(|c: Option<String>| opt_str_view(c))),
{
    let ghost cv = cfgs@.map_values(|c: Option<String>| opt_str_view(c));
    let mut k: usize = 0;
    assert(cv.skip(0) =~= cv);
    while k < cfgs.len()
        invariant
            k <= cfgs.len(),
            cv == cfgs@.map_values(|c: Option<String>| opt_str_view(c)),
            spec_grub_options(cv) == spec_grub_options(cv.skip(k as int)),
        decreases cfgs.len() - k,
    {
        proof {
            assert(cv.skip(k as int)[0] == opt_str_view(cfgs@[k as int]));
            assert(cv.skip(k as int).drop_first() =~= cv.skip(k as int + 1));
        }
        match &cfgs[k] {
            None => {
                return None;
            },
            Some(text) => {
                let ls = lines_of(chars_of(text.as_str()).as_slice());
                let ghost ld = ls.deep_view();
                let mut j: usize = ls.len();
                assert(ld.take(ls.len() as int) =~= ld);
                while j > 0
                    invariant
                        j <= ls.len(),
                        ld == ls.deep_view(),
                        ld == lines(text@),
                        cv.skip(k as int)[0] == Some(text@),
                        spec_grub_options(cv) == spec_grub_options(cv.skip(k as int)),
                        k < cv.len(),
                        cv == cfgs@.map_values(|c: Option<String>| opt_str_view(c)),
                        grub_text_options(ld) == grub_text_options(ld.take(j as int)),
                    decreases j,
                {
                    proof {
                        crate::text::lemma_char_vec_dv(ls@[j as int - 1]);
                        assert(ld.take(j as int).drop_last() =~= ld.take(j as int - 1));
                        assert(ld.take(j as int).last() == ld[j as int - 1]);
                    }
                    match grub_line_options_vec(ls[j - 1].as_slice()) {
                        Some(o) => {
                            assert(grub_text_options(ld) == Some(o@));
                            assert(cv.skip(k as int).len() > 0);
                            assert(spec_grub_options(cv.skip(k as int)) == Some(o@));
                            return Some(string_of(o.as_slice()));
                        },
                        None => {},
                    }
                    j -= 1;
                }
                assert(ld.take(0) =~= Seq::<Seq<char>>::empty());
            },
        }
        k += 1;
    }
    None
}

pub open spec fn is_rescue(e: BlsView) -> bool {
    contains(e.version, "rescue"@)
}

pub open spec fn bls_views(v: Seq<BlsEntry>) -> Seq<BlsView> {
    Seq::new(v.len(), |i: int| v[i]@)
}

/// Entry `i` is the one to boot: among entries that are not rescue entries, the one with
/// the greatest version, the first listed among equals; with only rescue entries, the
/// first entry.
pub open spec fn is_bls_choice(es: Seq<BlsView>, i: int) -> bool {
    if exists|j: int| 0 <= j < es.len() && !is_rescue(#[trigger] es[j]) {
        &&& 0 <= i < es.len()
        &&& !is_rescue(es[i])
        &&& forall|j: int|
            0 <= j < es.len() && !is_rescue(#[trigger] es[j]) ==> !crate::text::seq_lt(
                es[i].version,
                es[j].version,
            )
        &&& forall|j: int|
            0 <= j < i && !is_rescue(#[trigger] es[j]) ==> crate::text::seq_lt(
                es[j].version,
                es[i].version,
            )
    } else {
        es.len() > 0 && i == 0
    }
}

/// Which parsed entry (in directory order) to boot.
pub fn choose_bls_entry(entries: &Vec<BlsEntry>) -> (r: Option<usize>)
    ensures
        match r {
            Some(i) => is_bls_choice(bls_views(entries@), i as int),
            None => entries@.len() == 0,
        },
{
    let ghost es = bls_views(entries@);
    let mut best: Option<usize> = None;
    let mut i: usize = 0;
    while i < entries.len()
        invariant
            i <= entries.len(),
            es == bls_views(entries@),
            match best {
                None => forall|j: int| 0 <= j < i ==> is_rescue(#[trigger] es[j]),
                Some(b) => {
                    &&& b < i
                    &&& !is_rescue(es[b as int])
                    &&& forall|j: int|
                        0 <= j < i && !is_rescue(#[trigger] es[j]) ==> !crate::text::seq_lt(
                            es[b as int].version,
                            es[j].version,
                        )
                    &&& forall|j: int|
                        0 <= j < b && !is_rescue(#[trigger] es[j]) ==> crate::text::seq_lt(
                            es[j].version,
                            es[b as int].version,
                        )
                },
            },
        decreases entries.len() - i,
    {
        let v = chars_of(entries[i].version.as_str());
        if !contains_str(v.as_slice(), "rescue") {
            match best {
                None => {
                    proof {
                        crate::text::lemma_seq_lt_irrefl(es[i as int].version);
                    }
                    best = Some(i);
                },
                Some(b) => {
                    let bv = chars_of(entries[b].version.as_str());
                    if crate::text::chars_lt(bv.as_slice(), v.as_slice()) {
                        proof {
                            let vi = es[i as int].version;
                            crate::text::lemma_seq_lt_irrefl(vi);
                            assert forall|j: int|
                                0 <= j < i + 1 && !is_rescue(#[trigger] es[j]) implies !crate::text::seq_lt(
                                vi,
                                es[j].version,
                            ) && (j < i ==> crate::text::seq_lt(es[j].version, vi)) by {
                                if j < i {
                                    let vb = es[b as int].version;
                                    let vj = es[j].version;
                                    crate::text::lemma_seq_lt_total(vj, vb);
                                    if crate::text::seq_lt(vj, vb) {
                                        crate::text::lemma_seq_lt_trans(vj, vb, vi);
                                    }
                                    if crate::text::seq_lt(vi, vj) {
                                        crate::text::lemma_seq_lt_trans(vi, vj, vi);
                                    }
                                }
                            }
                        }
                        best = Some(i);
                    }
                },
            }
        }
        i += 1;
    }
    match best {
        Some(b) => Some(b),
        None => {
            if entries.len() > 0 {
                Some(0)
            } else {
                None
            }
        },
    }
}

// ---------------------------------------------------------------------------
// Kernels of disks without boot loader entries
// ---------------------------------------------------------------------------

/// The greatest name (in name order) that starts with `prefix`.
pub open spec fn newest_with(names: Seq<Seq<char>>, prefix: Seq<char>) -> Option<Seq<char>>
    decreases names.len(),
{
    if names.len() == 0 {
        None
    } else {
        let best = newest_with(names.drop_last(), prefix);
        let n = names.last();
        if starts_with(n, prefix) {
            match best {
                None => Some(n),
                Some(b) => if crate::text::seq_lt(b, n) {
                    Some(n)
                } else {
                    Some(b)
                },
            }
        } else {
            best
        }
    }
}

pub open spec fn names_view(v: Seq<String>) -> Seq<Seq<char>> {
    Seq::new(v.len(), |i: int| v[i]@)
}

fn newest_with_of(names: &Vec<String>, prefix: &str) -> (r: Option<Vec<char>>)
    ensures
        match r {
            Some(n) => newest_with(names_view(names@), prefix@) == Some(n@),
            None => newest_with(names_view(names@), prefix@) is None,
        },
{
    let ghost nv = names_view(names@);
    let pv = chars_of(prefix);
    let mut best: Option<Vec<char>> = None;
    let mut i: usize = 0;
    while i < names.len()
        invariant
            i <= names.len(),
            nv == names_view(names@),
            pv@ == prefix@,
            match best {
                Some(b) => newest_with(nv.take(i as int), prefix@) == Some(b@),
                None => newest_with(nv.take(i as int), prefix@) is None,
            },
        decreases names.len() - i,
    {
        assert(nv.take(i as int + 1).drop_last() =~= nv.take(i as int));
        let n = chars_of(names[i].as_str());
        if crate::text::starts_with_vec(n.as_slice(), pv.as_slice()) {
            let replace = match &best {
                None => true,
                Some(b) => crate::text::chars_lt(b.as_slice(), n.as_slice()),
            };
            if replace {
                best = Some(n);
            }
        }
        i += 1;
    }
    assert(nv.take(names.len() as int) =~= nv);
    best
}

fn has_name(names: &Vec<String>, x: &[char]) -> (r: bool)
    ensures
        r == names_view(names@).contains(x@),
{
    let mut i: usize = 0;
    while i < names.len()
        invariant
            i <= names.len(),
            forall|j: int| 0 <= j < i ==> names_view(names@)[j] != x@,
        decreases names.len() - i,
    {
        if crate::text::chars_eq(chars_of(names[i].as_str()).as_slice(), x) {
            assert(names_view(names@)[i as int] == x@);
            return true;
        }
        i += 1;
    }
    false
}

/// `s` without its leading `-` characters.
pub open spec fn trim_dashes(s: Seq<char>) -> Seq<char>
    decreases s.len(),
{
    if s.len() > 0 && s[0] == '-' {
        trim_dashes(s.drop_first())
    } else {
        s
    }
}

/// The kernel, initrd and version of a directory listing (the names of its files): the
/// kernel `vmlinuz`, else the greatest `vmlinuz-*`; the initrd `initrd.img`, else
/// `initrd.img.old`, else the ones named after the kernel's suffix (`initrd.img<suffix>`,
/// `initramfs<suffix>.img`), else the greatest `initrd.img-*`, else the greatest
/// `initramfs-*`; the version is the suffix without leading dashes.
pub open spec fn spec_kernel_files(names: Seq<Seq<char>>) -> Option<(Seq<char>, Seq<char>, Seq<char>)> {
    let linux = if names.contains("vmlinuz"@) {
        Some("vmlinuz"@)
    } else {
        newest_with(names, "vmlinuz-"@)
    };
    match linux {
        None => None,
        Some(l) => {
            let suffix = l.skip(7);
            let initrd = if names.contains("initrd.img"@) {
                Some("initrd.img"@)
            } else if names.contains("initrd.img.old"@) {
                Some("initrd.img.old"@)
            } else if suffix.len() > 0 && names.contains("initrd.img"@ + suffix) {
                Some("initrd.img"@ + suffix)
            } else if suffix.len() > 0 && names.contains("initramfs"@ + suffix + ".img"@) {
                Some("initramfs"@ + suffix + ".img"@)
            } else {
                match newest_with(names, "initrd.img-"@) {
                    Some(x) => Some(x),
                    None => newest_with(names, "initramfs-"@),
                }
            };
            match initrd {
                None => None,
                Some(i) => Some((l, i, trim_dashes(suffix))),
            }
        },
    }
}

proof fn lemma_newest_prefix(names: Seq<Seq<char>>, prefix: Seq<char>)
    ensures
        newest_with(names, prefix) matches Some(n) ==> starts_with(n, prefix),
    decreases names.len(),
{
    if names.len() > 0 {
        lemma_newest_prefix(names.drop_last(), prefix);
    }
}

fn trim_dashes_vec(s: &[char]) -> (r: Vec<char>)
    ensures
        r@ == trim_dashes(s@),
{
    let mut i: usize = 0;
    assert(s@.skip(0) =~= s@);
    while i < s.len() && s[i] == '-'
        invariant
            i <= s.len(),
            trim_dashes(s@) == trim_dashes(s@.skip(i as int)),
        decreases s.len() - i,
    {
        assert(s@.skip(i as int).drop_first() =~= s@.skip(i as int + 1));
        i += 1;
    }
    let r = slice_vec(s, i, s.len());
    assert(r@ =~= s@.skip(i as int));
    r
}

pub fn kernel_files(names: &Vec<String>) -> (r: Option<(String, String, String)>)
    ensures
        match r {
            Some((l, i, v)) => spec_kernel_files(names_view(names@)) == Some((l@, i@, v@)),
            None => spec_kernel_files(names_view(names@)) is None,
        },
{
    let ghost nv = names_view(names@);
    proof {
        reveal_strlit("vmlinuz");
        reveal_strlit("vmlinuz-");
        lemma_newest_prefix(nv, "vmlinuz-"@);
    }
    let vml = chars_of("vmlinuz");
    let linux: Vec<char> = if has_name(names, vml.as_slice()) {
        vml
    } else {
        match newest_with_of(names, "vmlinuz-") {
            Some(l) => l,
            None => {
                return None;
            },
        }
    };
    assert(linux@.len() >= 7);
    let suffix = slice_vec(linux.as_slice(), 7, linux.len());
    assert(suffix@ =~= linux@.skip(7));
    let a = chars_of("initrd.img");
    let b = chars_of("initrd.img.old");
    let mut c = chars_of("initrd.img");
    append_chars(&mut c, suffix.as_slice());
    let mut d = chars_of("initramfs");
    append_chars(&mut d, suffix.as_slice());
    append_str(&mut d, ".img");
    let initrd: Vec<char> = if has_name(names, a.as_slice()) {
        a
    } else if has_name(names, b.as_slice()) {
        b
    } else if suffix.len() > 0 && has_name(names, c.as_slice()) {
        c
    } else if suffix.len() > 0 && has_name(names, d.as_slice()) {
        d
    } else {
        match newest_with_of(names, "initrd.img-") {
            Some(x) => x,
            None => match newest_with_of(names, "initramfs-") {
                Some(x) => x,
                None => {
                    return None;
                },
            },
        }
    };
    let version = trim_dashes_vec(suffix.as_slice());
    Some((string_of(linux.as_slice()), string_of(initrd.as_slice()), string_of(version.as_slice())))
}

/// A file of a directory under the root, as a root-relative path with `/` separators:
/// `dir/name`, or `name` for the root itself.
pub open spec fn rel_path(dir: Seq<char>, name: Seq<char>) -> Seq<char> {
    crate::host::replace_all(
        if dir.len() == 0 {
            name
        } else {
            dir + seq!['/'] + name
        },
        seq!['\\'],
        seq!['/'],
    )
}

fn rel_path_of(dir: &str, name: &str) -> (r: String)
    ensures
        r@ == rel_path(dir@, name@),
{
    let mut v = chars_of(dir);
    if v.len() > 0 {
        v.push('/');
    }
    append_str(&mut v, name);
    assert(v@ =~= (if dir@.len() == 0 {
        name@
    } else {
        dir@ + seq!['/'] + name@
    }));
    let bs = vec!['\\'];
    let fs = vec!['/'];
    assert(bs@ =~= seq!['\\']);
    assert(fs@ =~= seq!['/']);
    let r = crate::host::replace_all_vec(v.as_slice(), bs.as_slice(), fs.as_slice());
    string_of(r.as_slice())
}

/// The boot entry of a disk without loader entries, from the file names of its `/boot`
/// (`boot`) and of its root (`root`): the first of the two directories that holds a
/// kernel and an initrd, with paths relative to the root and the given kernel options.
pub fn unix_kernel_entry(boot: &Vec<String>, root: &Vec<String>, options: &str) -> (r: Option<
    BlsEntry,
>)
    ensures
        match r {
            Some(e) => {
                let (dir, files) = if spec_kernel_files(names_view(boot@)) is Some {
                    ("boot"@, spec_kernel_files(names_view(boot@))->0)
                } else {
                    (seq![], spec_kernel_files(names_view(root@))->0)
                };
                &&& (spec_kernel_files(names_view(boot@)) is Some || spec_kernel_files(
                    names_view(root@),
                ) is Some)
                &&& e.linux@ == rel_path(dir, files.0)
                &&& e.initrd@ == rel_path(dir, files.1)
                &&& e.version@ == files.2
                &&& e.options@ == options@
            },
            None => spec_kernel_files(names_view(boot@)) is None && spec_kernel_files(
                names_view(root@),
            ) is None,
        },
{
    proof {
        reveal_strlit("boot");
    }
    let (dir, found) = match kernel_files(boot) {
        Some(f) => ("boot", f),
        None => match kernel_files(root) {
            Some(f) => ("", f),
            None => {
                return None;
            },
        },
    };
    proof {
        reveal_strlit("");
    }
    let (l, i, v) = found;
    Some(
        BlsEntry {
            linux: rel_path_of(dir, l.as_str()),
            initrd: rel_path_of(dir, i.as_str()),
            options: string_of(chars_of(options).as_slice()),
            version: v,
        },
    )
}

// ---------------------------------------------------------------------------
// Secure Boot shims on the EFI system partition
// ---------------------------------------------------------------------------

/// `needle` occurs in `data`.
pub open spec fn bytes_contain(data: Seq<u8>, needle: Seq<u8>) -> bool {
    exists|i: int| 0 <= i && i + needle.len() <= data.len() && #[trigger] data.subrange(
        i,
        i + needle.len(),
    ) == needle
}

fn bytes_contain_exec(data: &[u8], needle: &[u8]) -> (r: bool)
    requires
        needle@.len() > 0,
    ensures
        r == bytes_contain(data@, needle@),
{
    if needle.len() > data.len() {
        return false;
    }
    let mut i: usize = 0;
    while i <= data.len() - needle.len()
        invariant
            i <= data.len() - needle.len() + 1,
            needle@.len() > 0,
            needle.len() <= data.len(),
            forall|j: int|
                0 <= j < i ==> #[trigger] data@.subrange(j, j + needle.len()) != needle@,
        decreases data.len() - i,
    {
        let mut k: usize = 0;
        let mut same = true;
        while k < needle.len()
            invariant
                k <= needle.len(),
                i + needle.len() <= data.len(),
                same == (forall|q: int| 0 <= q < k ==> data@[i + q] == needle@[q]),
            decreases needle.len() - k,
        {
            same = same && data[i + k] == needle[k];
            k += 1;
        }
        if same {
            assert(data@.subrange(i as int, i + needle.len()) =~= needle@);
            return true;
        }
        assert(data@.subrange(i as int, i + needle.len()) != needle@) by {
            let q = choose|q: int| 0 <= q < needle.len() && data@[i + q] != needle@[q];
            assert(data@.subrange(i as int, i + needle.len())[q] == data@[i + q]);
        }
        i += 1;
    }
    false
}

/// An EFI file that is (or wraps) the Secure Boot shim: `shim*.efi`, the MOK managers,
/// or a fallback `boot*.efi` whose bytes (`contents`, when it could be read) mention
/// `MokList` or `shim`. Names compare case-insensitively.
pub open spec fn spec_efi_file_is_shim(path: Seq<char>, contents: Option<Seq<u8>>) -> bool {
    let name = crate::text::lower_seq(
        match path_file_name(path) {
            Some(n) => n,
            None => seq![],
        },
    );
    if starts_with(name, "shim"@) && crate::text::ends_with(name, ".efi"@) {
        true
    } else if name == "mmx64.efi"@ || name == "mmaa64.efi"@ || name == "mokmanager.efi"@ {
        true
    } else if name == "bootx64.efi"@ || name == "bootaa64.efi"@ || name == "bootia32.efi"@ {
        match contents {
            Some(d) => bytes_contain(d, seq![77u8, 111u8, 107u8, 76u8, 105u8, 115u8, 116u8])
                || bytes_contain(d, seq![115u8, 104u8, 105u8, 109u8]),
            None => false,
        }
    } else {
        false
    }
}

pub fn efi_file_is_shim(path: &str, contents: Option<&[u8]>) -> (r: bool)
    ensures
        r == spec_efi_file_is_shim(
            path@,
            match contents {
                Some(d) => Some(d@),
                None => None,
            },
        ),
{
    let raw = match file_name(path) {
        Some(n) => n,
        None => Vec::new(),
    };
    let name = crate::text::lower_vec(raw.as_slice());
    if starts_with_str(name.as_slice(), "shim") && crate::text::ends_with_str(name.as_slice(), ".efi")
    {
        return true;
    }
    let n = name.as_slice();
    if crate::text::eq_str(n, "mmx64.efi") || crate::text::eq_str(n, "mmaa64.efi")
        || crate::text::eq_str(n, "mokmanager.efi") {
        return true;
    }
    if crate::text::eq_str(n, "bootx64.efi") || crate::text::eq_str(n, "bootaa64.efi")
        || crate::text::eq_str(n, "bootia32.efi") {
        return match contents {
            Some(d) => {
                let mok: [u8; 7] = [77, 111, 107, 76, 105, 115, 116];
                let shim: [u8; 4] = [115, 104, 105, 109];
                assert(mok@ =~= seq![77u8, 111u8, 107u8, 76u8, 105u8, 115u8, 116u8]);
                assert(shim@ =~= seq![115u8, 104u8, 105u8, 109u8]);
                bytes_contain_exec(d, mok.as_slice()) || bytes_contain_exec(d, shim.as_slice())
            },
            None => false,
        };
    }
    false
}

// ---------------------------------------------------------------------------
// Files a loader entry names
// ---------------------------------------------------------------------------

/// `s` without its leading `/` characters.
pub open spec fn trim_slashes(s: Seq<char>) -> Seq<char>
    decreases s.len(),
{
    if s.len() > 0 && s[0] == '/' {
        trim_slashes(s.drop_first())
    } else {
        s
    }
}

/// A loader entry's path as looked up under the boot partition: trimmed, without leading
/// `/`.
pub open spec fn boot_rel(rel: Seq<char>) -> Seq<char> {
    trim_slashes(trim(rel))
}

/// Where the file may be: the path under `boot`, then the path without a leading `boot/`
/// under `boot` (for a `/boot` that is its own partition).
pub open spec fn spec_boot_candidates(boot: Seq<char>, rel: Seq<char>) -> Seq<Seq<char>> {
    let r = boot_rel(rel);
    let r2 = if starts_with(r, "boot/"@) {
        r.skip(5)
    } else {
        r
    };
    seq![crate::config::join_path(boot, r), crate::config::join_path(boot, r2)]
}

fn trim_slashes_vec(s: &[char]) -> (r: Vec<char>)
    ensures
        r@ == trim_slashes(s@),
{
    let mut i: usize = 0;
    assert(s@.skip(0) =~= s@);
    while i < s.len() && s[i] == '/'
        invariant
            i <= s.len(),
            trim_slashes(s@) == trim_slashes(s@.skip(i as int)),
        decreases s.len() - i,
    {
        assert(s@.skip(i as int).drop_first() =~= s@.skip(i as int + 1));
        i += 1;
    }
    let r = slice_vec(s, i, s.len());
    assert(r@ =~= s@.skip(i as int));
    r
}

pub fn boot_file_candidates(boot: &str, rel: &str) -> (r: Vec<String>)
    ensures
        names_view(r@) == spec_boot_candidates(boot@, rel@),
{
    proof {
        reveal_strlit("boot/");
    }
    let r = trim_slashes_vec(trim_vec(chars_of(rel).as_slice()).as_slice());
    let r2 = if starts_with_str(r.as_slice(), "boot/") {
        slice_vec(r.as_slice(), 5, r.len())
    } else {
        slice_vec(r.as_slice(), 0, r.len())
    };
    assert(r2@ =~= (if starts_with(r@, "boot/"@) {
        r@.skip(5)
    } else {
        r@
    }));
    let a = crate::config::join(boot, string_of(r.as_slice()).as_str());
    let b = crate::config::join(boot, string_of(r2.as_slice()).as_str());
    let v = vec![a, b];
    assert(names_view(v@) =~= spec_boot_candidates(boot@, rel@));
    v
}

/// The first candidate that is a file (`present[i]` for candidate `i`), else `boot file
/// not found: <path> under <boot>`.
pub fn resolve_boot_path(boot: &str, rel: &str, present: &Vec<bool>) -> (r: Result<
    String,
    crate::storage::StorageError,
>)
    ensures
        ({
            let c = spec_boot_candidates(boot@, rel@);
            match r {
                Ok(p) => (present@.len() > 0 && present@[0] && p@ == c[0]) || (!(present@.len()
                    > 0 && present@[0]) && present@.len() > 1 && present@[1] && p@ == c[1]),
                Err(e) => {
                    &&& !(present@.len() > 0 && present@[0])
                    &&& !(present@.len() > 1 && present@[1])
                    &&& e matches crate::storage::StorageError::Message(m)
                    &&& m@ == "boot file not found: "@ + boot_rel(rel@) + " under "@ + boot@
                },
            }
        }),
{
    let c = boot_file_candidates(boot, rel);
    assert(names_view(c@).len() == c@.len());
    assert(c@.len() == 2);
    assert(c@[0]@ == names_view(c@)[0]);
    assert(c@[1]@ == names_view(c@)[1]);
    if present.len() > 0 && present[0] {
        return Ok(string_of(chars_of(c[0].as_str()).as_slice()));
    }
    if present.len() > 1 && present[1] {
        return Ok(string_of(chars_of(c[1].as_str()).as_slice()));
    }
    let r = trim_slashes_vec(trim_vec(chars_of(rel).as_slice()).as_slice());
    let mut m = chars_of("boot file not found: ");
    append_chars(&mut m, r.as_slice());
    append_str(&mut m, " under ");
    append_str(&mut m, boot);
    Err(crate::storage::StorageError::Message(string_of(m.as_slice())))
}


// ---------------------------------------------------------------------------
// Where a shim-booting disk keeps its kernel
// ---------------------------------------------------------------------------

/// What `blkid` tells of one partition of a disk: its label and filesystem type.
#[derive(Debug)]
pub struct PartProbe {
    pub label: Option<String>,
    pub fstype: Option<String>,
}

pub open spec fn opt_is(o: Option<String>, want: Seq<char>) -> bool {
    o matches Some(x) && x@ == want
}

/// Index of the first partition labelled `l`, or -1.
pub open spec fn first_labeled(parts: Seq<PartProbe>, l: Seq<char>) -> int
    decreases parts.len(),
{
    if parts.len() == 0 {
        -1
    } else if first_labeled(parts.drop_last(), l) >= 0 {
        first_labeled(parts.drop_last(), l)
    } else if opt_is(parts.last().label, l) {
        parts.len() - 1
    } else {
        -1
    }
}

/// Index of the first partition with filesystem `f`, or -1.
pub open spec fn first_fs(parts: Seq<PartProbe>, f: Seq<char>) -> int
    decreases parts.len(),
{
    if parts.len() == 0 {
        -1
    } else if first_fs(parts.drop_last(), f) >= 0 {
        first_fs(parts.drop_last(), f)
    } else if opt_is(parts.last().fstype, f) {
        parts.len() - 1
    } else {
        -1
    }
}

/// `s` with partition `k` added at the end, unless none (-1) or listed already.
pub open spec fn add_part(s: Seq<usize>, k: int) -> Seq<usize> {
    if k < 0 || s.contains(k as usize) {
        s
    } else {
        s.push(k as usize)
    }
}

/// The partitions searched for a kernel, in order: the one labelled `BOOT`, the one
/// labelled `cloudimg-rootfs`, then the first XFS, ext4 and Btrfs ones, each once.
pub open spec fn spec_shim_search(parts: Seq<PartProbe>) -> Seq<usize> {
    add_part(
        add_part(
            add_part(
                add_part(add_part(seq![], first_labeled(parts, "BOOT"@)), first_labeled(parts, "cloudimg-rootfs"@)),
                first_fs(parts, "xfs"@),
            ),
            first_fs(parts, "ext4"@),
        ),
        first_fs(parts, "btrfs"@),
    )
}

proof fn lemma_first_labeled(parts: Seq<PartProbe>, l: Seq<char>)
    ensures
        -1 <= first_labeled(parts, l) < parts.len(),
    decreases parts.len(),
{
    if parts.len() > 0 {
        lemma_first_labeled(parts.drop_last(), l);
    }
}

proof fn lemma_first_fs(parts: Seq<PartProbe>, f: Seq<char>)
    ensures
        -1 <= first_fs(parts, f) < parts.len(),
    decreases parts.len(),
{
    if parts.len() > 0 {
        lemma_first_fs(parts.drop_last(), f);
    }
}

fn find_part(parts: &Vec<PartProbe>, want: &str, by_label: bool) -> (r: Option<usize>)
    ensures
        by_label ==> match r {
            Some(k) => k as int == first_labeled(parts@, want@),
            None => first_labeled(parts@, want@) < 0,
        },
        !by_label ==> match r {
            Some(k) => k as int == first_fs(parts@, want@),
            None => first_fs(parts@, want@) < 0,
        },
{
    let w = chars_of(want);
    let mut i: usize = 0;
    while i < parts.len()
        invariant
            i <= parts@.len(),
            w@ == want@,
            by_label ==> first_labeled(parts@.take(i as int), want@) < 0,
            !by_label ==> first_fs(parts@.take(i as int), want@) < 0,
        decreases parts.len() - i,
    {
        assert(parts@.take(i as int + 1).drop_last() =~= parts@.take(i as int));
        let field = if by_label {
            &parts[i].label
        } else {
            &parts[i].fstype
        };
        let hit = match field {
            Some(x) => crate::text::chars_eq(chars_of(x.as_str()).as_slice(), w.as_slice()),
            None => false,
        };
        if hit {
            proof {
                if by_label {
                    assert(first_labeled(parts@.take(i as int + 1), want@) == i);
                    lemma_first_labeled_prefix(parts@, want@, i as int + 1);
                } else {
                    assert(first_fs(parts@.take(i as int + 1), want@) == i);
                    lemma_first_fs_prefix(parts@, want@, i as int + 1);
                }
            }
            return Some(i);
        }
        i += 1;
    }
    assert(parts@.take(parts.len() as int) =~= parts@);
    None
}

proof fn lemma_first_labeled_prefix(parts: Seq<PartProbe>, w: Seq<char>, k: int)
    requires
        0 <= k <= parts.len(),
        first_labeled(parts.take(k), w) >= 0,
    ensures
        first_labeled(parts, w) == first_labeled(parts.take(k), w),
    decreases parts.len(),
{
    if k == parts.len() {
        assert(parts.take(k) =~= parts);
    } else {
        let d = parts.drop_last();
        assert(d.take(k) =~= parts.take(k));
        lemma_first_labeled_prefix(d, w, k);
    }
}

proof fn lemma_first_fs_prefix(parts: Seq<PartProbe>, w: Seq<char>, k: int)
    requires
        0 <= k <= parts.len(),
        first_fs(parts.take(k), w) >= 0,
    ensures
        first_fs(parts, w) == first_fs(parts.take(k), w),
    decreases parts.len(),
{
    if k == parts.len() {
        assert(parts.take(k) =~= parts);
    } else {
        let d = parts.drop_last();
        assert(d.take(k) =~= parts.take(k));
        lemma_first_fs_prefix(d, w, k);
    }
}

fn add_found(s: &mut Vec<usize>, k: Option<usize>)
    ensures
        final(s)@ == add_part(
            old(s)@,
            match k {
                Some(x) => x as int,
                None => -1,
            },
        ),
{
    if let Some(x) = k {
        let mut present = false;
        let mut i: usize = 0;
        while i < s.len()
            invariant
                i <= s@.len(),
                present == exists|j: int| 0 <= j < i && s@[j] == x,
            decreases s.len() - i,
        {
            if s[i] == x {
                present = true;
            }
            i += 1;
        }
        assert(present == s@.contains(x));
        assert(((x as int) as usize) == x);
        if !present {
            s.push(x);
        }
    }
}

/// The partitions of a shim-booting disk to search for a kernel, in order (see
/// `spec_shim_search`).
pub fn shim_search_order(parts: &Vec<PartProbe>) -> (r: Vec<usize>)
    ensures
        r@ == spec_shim_search(parts@),
{
    let mut s: Vec<usize> = Vec::new();
    add_found(&mut s, find_part(parts, "BOOT", true));
    add_found(&mut s, find_part(parts, "cloudimg-rootfs", true));
    add_found(&mut s, find_part(parts, "xfs", false));
    add_found(&mut s, find_part(parts, "ext4", false));
    add_found(&mut s, find_part(parts, "btrfs", false));
    s
}

/// The partition the kernel mounts as root: the one labelled `cloudimg-rootfs`, else
/// `writable`, else the first one searched.
pub fn shim_root_partition(parts: &Vec<PartProbe>, search: &Vec<usize>) -> (r: usize)
    requires
        search@.len() > 0,
    ensures
        r as int == (if first_labeled(parts@, "cloudimg-rootfs"@) >= 0 {
            first_labeled(parts@, "cloudimg-rootfs"@)
        } else if first_labeled(parts@, "writable"@) >= 0 {
            first_labeled(parts@, "writable"@)
        } else {
            search@[0] as int
        }),
{
    if let Some(k) = find_part(parts, "cloudimg-rootfs", true) {
        return k;
    }
    if let Some(k) = find_part(parts, "writable", true) {
        return k;
    }
    search[0]
}

}
