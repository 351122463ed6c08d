//! What the kernel's text files and `df` say about the host and its guests: memory,
//! disk space and network traffic counters.
use vstd::prelude::*;

use crate::text::{
    chars_eq, chars_of, eq_str, find, find_vec, lines, lines_of, rfind, parse_unsigned,
    parse_unsigned_vec, slice_vec, starts_with, starts_with_str, trim, trim_vec, words, words_of,
};

verus! {

/// `str::parse::<u64>()`.
pub open spec fn p64(s: Seq<char>) -> Option<u64> {
    match parse_unsigned(s, u64::MAX as nat) {
        Some(v) => Some(v as u64),
        None => None,
    }
}

fn parse_u64(s: &[char]) -> (r: Option<u64>)
    ensures
        r == p64(s@),
{
    parse_unsigned_vec(s, u64::MAX)
}

/// `x * 1024`, saturating.
pub open spec fn kib(x: u64) -> u64 {
    if x * 1024 > u64::MAX {
        u64::MAX
    } else {
        (x * 1024) as u64
    }
}

fn kib_exec(x: u64) -> (r: u64)
    ensures
        r == kib(x),
{
    if x > u64::MAX / 1024 {
        u64::MAX
    } else {
        x * 1024
    }
}

pub open spec fn sat_add(a: u64, b: u64) -> u64 {
    if a + b > u64::MAX {
        u64::MAX
    } else {
        (a + b) as u64
    }
}

pub open spec fn sat_sub(a: u64, b: u64) -> u64 {
    if a < b {
        0
    } else {
        (a - b) as u64
    }
}

// ---------------------------------------------------------------------------
// /proc/meminfo
// ---------------------------------------------------------------------------

/// `/proc/meminfo` read line by line: `MemTotal:` and `MemAvailable:` in KiB (the last of
/// each wins); none as soon as a line lacks a key or a number after it.
pub open spec fn meminfo_scan(ls: Seq<Seq<char>>) -> Option<(u64, u64)>
    decreases ls.len(),
{
    if ls.len() == 0 {
        Some((0, 0))
    } else {
        match meminfo_scan(ls.drop_last()) {
            None => None,
            Some((t, a)) => {
                let ws = words(ls.last());
                if ws.len() < 2 {
                    None
                } else {
                    match p64(ws[1]) {
                        None => None,
                        Some(v) => if ws[0] == "MemTotal:"@ {
                            Some((v, a))
                        } else if ws[0] == "MemAvailable:"@ {
                            Some((t, v))
                        } else {
                            Some((t, a))
                        },
                    }
                }
            },
        }
    }
}

/// Used and total host memory in bytes: total less available, and total; none without a
/// total.
pub open spec fn spec_meminfo_usage(text: Seq<char>) -> Option<(u64, u64)> {
    match meminfo_scan(lines(text)) {
        None => None,
        Some((t, a)) => if t == 0 {
            None
        } else {
            Some((kib(sat_sub(t, a)), kib(t)))
        },
    }
}

pub fn meminfo_usage(text: &str) -> (r: Option<(u64, u64)>)
    ensures
        r == spec_meminfo_usage(text@),
{
    let ls = lines_of(chars_of(text).as_slice());
    let ghost ld = ls.deep_view();
    let mut total: u64 = 0;
    let mut avail: u64 = 0;
    let mut i: usize = 0;
    while i < ls.len()
        invariant
            i <= ls.len(),
            ld == ls.deep_view(),
            ld == lines(text@),
            meminfo_scan(ld.take(i as int)) == Some((total, avail)),
        decreases ls.len() - i,
    {
        proof {
            crate::text::lemma_char_vec_dv(ls@[i as int]);
            assert(ld.take(i as int + 1).drop_last() =~= ld.take(i as int));
        }
        let ws = words_of(ls[i].as_slice());
        if ws.len() < 2 {
            proof {
                lemma_scan_stays_none(ld, i as int + 1);
            }
            return None;
        }
        proof {
            crate::text::lemma_char_vec_dv(ws@[0]);
            crate::text::lemma_char_vec_dv(ws@[1]);
        }
        match parse_u64(ws[1].as_slice()) {
            None => {
                proof {
                    lemma_scan_stays_none(ld, i as int + 1);
                }
                return None;
            },
            Some(v) => {
                if eq_str(ws[0].as_slice(), "MemTotal:") {
                    total = v;
                } else if eq_str(ws[0].as_slice(), "MemAvailable:") {
                    avail = v;
                }
            },
        }
        i += 1;
    }
    assert(ld.take(ls.len() as int) =~= ld);
    if total == 0 {
        return None;
    }
    Some((kib_exec(total.saturating_sub(avail)), kib_exec(total)))
}

proof fn lemma_scan_stays_none(ls: Seq<Seq<char>>, k: int)
    requires
        0 <= k <= ls.len(),
        meminfo_scan(ls.take(k)) is None,
    ensures
        meminfo_scan(ls) is None,
    decreases ls.len() - k,
{
    if k < ls.len() {
        assert(ls.take(k + 1).drop_last() =~= ls.take(k));
        lemma_scan_stays_none(ls, k + 1);
    } else {
        assert(ls.take(k) =~= ls);
    }
}

// ---------------------------------------------------------------------------
// `Key: value` lines
// ---------------------------------------------------------------------------

/// Index of the first line starting with `key`, or -1.
pub open spec fn key_line(ls: Seq<Seq<char>>, key: Seq<char>, i: int) -> int
    decreases ls.len() - i,
{
    if i < 0 || i >= ls.len() {
        -1
    } else if starts_with(ls[i], key) {
        i
    } else {
        key_line(ls, key, i + 1)
    }
}

proof fn lemma_key_line(ls: Seq<Seq<char>>, key: Seq<char>, i: int)
    requires
        0 <= i,
    ensures
        key_line(ls, key, i) == -1 || (i <= key_line(ls, key, i) < ls.len() && starts_with(
            ls[key_line(ls, key, i)],
            key,
        )),
    decreases ls.len() - i,
{
    if i < ls.len() && !starts_with(ls[i], key) {
        lemma_key_line(ls, key, i + 1);
    }
}

/// The number after `key` on the first line that starts with it.
pub open spec fn key_value(text: Seq<char>, key: Seq<char>) -> Option<u64> {
    let ls = lines(text);
    let k = key_line(ls, key, 0);
    if k < 0 {
        None
    } else {
        let ws = words(ls[k].skip(key.len() as int));
        if ws.len() == 0 {
            None
        } else {
            p64(ws[0])
        }
    }
}

fn key_value_of(text: &str, key: &str) -> (r: Option<u64>)
    ensures
        r == key_value(text@, key@),
{
    let ls = lines_of(chars_of(text).as_slice());
    let ghost ld = ls.deep_view();
    let kv = chars_of(key);
    proof {
        lemma_key_line(ld, key@, 0);
    }
    let mut i: usize = 0;
    while i < ls.len()
        invariant
            i <= ls.len(),
            ld == ls.deep_view(),
            ld == lines(text@),
            kv@ == key@,
            key_line(ld, key@, 0) == key_line(ld, key@, i as int),
        decreases ls.len() - i,
    {
        proof {
            crate::text::lemma_char_vec_dv(ls@[i as int]);
        }
        if crate::text::starts_with_vec(ls[i].as_slice(), kv.as_slice()) {
            let rest = slice_vec(ls[i].as_slice(), kv.len(), ls[i].len());
            let ws = words_of(rest.as_slice());
            if ws.len() == 0 {
                return None;
            }
            proof {
                crate::text::lemma_char_vec_dv(ws@[0]);
            }
            return parse_u64(ws[0].as_slice());
        }
        i += 1;
    }
    None
}

/// Host memory in MiB from `/proc/meminfo`'s first `MemTotal:` line.
pub fn mem_total_mib(meminfo: &str) -> (r: Option<u64>)
    ensures
        r == (match key_value(meminfo@, "MemTotal:"@) {
            Some(kb) => Some((kb / 1024) as u64),
            None => None,
        }),
{
    match key_value_of(meminfo, "MemTotal:") {
        Some(kb) => Some(kb / 1024),
        None => None,
    }
}

/// Resident memory in bytes from `/proc/<pid>/status`'s first `VmRSS:` line.
pub fn vm_rss_bytes(status: &str) -> (r: Option<u64>)
    ensures
        r == (match key_value(status@, "VmRSS:"@) {
            Some(kb) => Some(kib(kb)),
            None => None,
        }),
{
    match key_value_of(status, "VmRSS:") {
        Some(kb) => Some(kib_exec(kb)),
        None => None,
    }
}

// ---------------------------------------------------------------------------
// df -Pk
// ---------------------------------------------------------------------------

/// The columns of the first data line of `df -Pk` output.
pub open spec fn df_columns(text: Seq<char>) -> Option<Seq<Seq<char>>> {
    let ls = lines(text);
    if ls.len() < 2 {
        None
    } else {
        Some(words(ls[1]))
    }
}

fn df_columns_of(text: &str) -> (r: Option<Vec<Vec<char>>>)
    ensures
        match r {
            Some(c) => df_columns(text@) == Some(c.deep_view()),
            None => df_columns(text@) is None,
        },
{
    let ls = lines_of(chars_of(text).as_slice());
    if ls.len() < 2 {
        return None;
    }
    proof {
        crate::text::lemma_char_vec_dv(ls@[1]);
    }
    Some(words_of(ls[1].as_slice()))
}

/// Used and total bytes of the file system in `df -Pk` output (the total at least 1).
pub open spec fn spec_df_usage(text: Seq<char>) -> Option<(u64, u64)> {
    match df_columns(text) {
        None => None,
        Some(c) => if c.len() < 3 {
            None
        } else {
            match (p64(c[1]), p64(c[2])) {
                (Some(total), Some(used)) => Some(
                    (kib(used), if kib(total) < 1 {
                        1
                    } else {
                        kib(total)
                    }),
                ),
                _ => None,
            }
        },
    }
}

pub fn df_usage(text: &str) -> (r: Option<(u64, u64)>)
    ensures
        r == spec_df_usage(text@),
{
    let c = df_columns_of(text)?;
    if c.len() < 3 {
        return None;
    }
    proof {
        crate::text::lemma_char_vec_dv(c@[1]);
        crate::text::lemma_char_vec_dv(c@[2]);
    }
    let total = parse_u64(c[1].as_slice())?;
    let used = parse_u64(c[2].as_slice())?;
    let t = kib_exec(total);
    Some((kib_exec(used), if t < 1 {
        1
    } else {
        t
    }))
}

/// Available MiB of the file system in `df -Pk` output.
pub fn df_available_mib(text: &str) -> (r: Option<u64>)
    ensures
        r == (match df_columns(text@) {
            Some(c) => if c.len() < 4 {
                None
            } else {
                match p64(c[3]) {
                    Some(kb) => Some((kb / 1024) as u64),
                    None => None,
                }
            },
            None => None,
        }),
{
    let c = df_columns_of(text)?;
    if c.len() < 4 {
        return None;
    }
    proof {
        crate::text::lemma_char_vec_dv(c@[3]);
    }
    let kb = parse_u64(c[3].as_slice())?;
    Some(kb / 1024)
}

// ---------------------------------------------------------------------------
// /proc/net/dev
// ---------------------------------------------------------------------------

/// The words of a list that parse as `u64`, in order.
pub open spec fn parsed_u64s(ws: Seq<Seq<char>>) -> Seq<u64>
    decreases ws.len(),
{
    if ws.len() == 0 {
        seq![]
    } else {
        let k = parsed_u64s(ws.drop_last());
        match p64(ws.last()) {
            Some(v) => k.push(v),
            None => k,
        }
    }
}

/// A row of `/proc/net/dev`: the trimmed line split at its first colon into the trimmed
/// interface name and the numbers after the colon.
pub open spec fn dev_row(line: Seq<char>) -> Option<(Seq<char>, Seq<u64>)> {
    let t = trim(line);
    let k = find(t, seq![':']);
    if k < 0 {
        None
    } else {
        Some((trim(t.take(k)), parsed_u64s(words(t.skip(k + 1)))))
    }
}

/// The rows after the two header lines.
pub open spec fn dev_rows(text: Seq<char>) -> Seq<Seq<char>> {
    let ls = lines(text);
    if ls.len() < 2 {
        seq![]
    } else {
        ls.skip(2)
    }
}

fn dev_row_of(line: &[char]) -> (r: Option<(Vec<char>, Vec<u64>)>)
    ensures
        match r {
            Some((n, f)) => dev_row(line@) == Some((n@, f@)),
            None => dev_row(line@) is None,
        },
{
    let t = trim_vec(line);
    let colon = vec![':'];
    assert(colon@ =~= seq![':']);
    let k = match find_vec(t.as_slice(), colon.as_slice()) {
        Some(k) => k,
        None => {
            return None;
        },
    };
    proof {
        crate::text::lemma_find_in_range(t@, seq![':']);
        assert(seq![':'].len() == 1);
    }
    assert(k < t.len());
    let name = trim_vec(slice_vec(t.as_slice(), 0, k).as_slice());
    let rest = slice_vec(t.as_slice(), k + 1, t.len());
    assert(t@.subrange(0, k as int) =~= t@.take(k as int));
    assert(t@.subrange(k + 1, t@.len() as int) =~= t@.skip(k + 1));
    let ws = words_of(rest.as_slice());
    let ghost wd = ws.deep_view();
    let mut nums: Vec<u64> = Vec::new();
    let mut i: usize = 0;
    while i < ws.len()
        invariant
            i <= ws.len(),
            wd == ws.deep_view(),
            nums@ == parsed_u64s(wd.take(i as int)),
        decreases ws.len() - i,
    {
        proof {
            crate::text::lemma_char_vec_dv(ws@[i as int]);
            assert(wd.take(i as int + 1).drop_last() =~= wd.take(i as int));
        }
        if let Some(v) = parse_u64(ws[i].as_slice()) {
            nums.push(v);
        }
        i += 1;
    }
    assert(wd.take(ws.len() as int) =~= wd);
    Some((name, nums))
}

fn dev_rows_of(text: &str) -> (r: Vec<Vec<char>>)
    ensures
        r.deep_view() == dev_rows(text@),
{
    let ls = lines_of(chars_of(text).as_slice());
    let ghost ld = ls.deep_view();
    let mut out: Vec<Vec<char>> = Vec::new();
    if ls.len() < 2 {
        assert(out.deep_view() =~= Seq::<Seq<char>>::empty());
        return out;
    }
    let mut i: usize = 2;
    assert(out.deep_view() =~= ld.subrange(2, 2));
    while i < ls.len()
        invariant
            2 <= i <= ls.len(),
            ld == ls.deep_view(),
            out.deep_view() == ld.subrange(2, i as int),
        decreases ls.len() - i,
    {
        proof {
            crate::text::lemma_char_vec_dv(ls@[i as int]);
        }
        let x = slice_vec(ls[i].as_slice(), 0, ls[i].len());
        assert(x@ =~= ld[i as int]);
        crate::text::push_piece(&mut out, x);
        assert(ld.subrange(2, i as int + 1) =~= ld.subrange(2, i as int).push(ld[i as int]));
        i += 1;
    }
    assert(ld.subrange(2, ls.len() as int) =~= ld.skip(2));
    out
}

/// Received and sent bytes of the TAP devices `taps`, summed (saturating) over the rows
/// that name one of them and carry at least nine numbers.
pub open spec fn taps_fold(rows: Seq<Seq<char>>, taps: Seq<Seq<char>>) -> (u64, u64)
    decreases rows.len(),
{
    if rows.len() == 0 {
        (0, 0)
    } else {
        let (rx, tx) = taps_fold(rows.drop_last(), taps);
        match dev_row(rows.last()) {
            Some((name, f)) => if taps.contains(name) && f.len() >= 9 {
                (sat_add(rx, f[0]), sat_add(tx, f[8]))
            } else {
                (rx, tx)
            },
            None => (rx, tx),
        }
    }
}

fn sat_add_exec(a: u64, b: u64) -> (r: u64)
    ensures
        r == sat_add(a, b),
{
    if a > u64::MAX - b {
        u64::MAX
    } else {
        a + b
    }
}

fn names_contain(names: &Vec<String>, x: &[char]) -> (r: bool)
    ensures
        r == crate::storage::strs_view(names@).contains(x@),
{
    let mut i: usize = 0;
    while i < names.len()
        invariant
            i <= names.len(),
            forall|j: int| 0 <= j < i ==> crate::storage::strs_view(names@)[j] != x@,
        decreases names.len() - i,
    {
        if chars_eq(chars_of(names[i].as_str()).as_slice(), x) {
            assert(crate::storage::strs_view(names@)[i as int] == x@);
            return true;
        }
        i += 1;
    }
    false
}

/// Traffic of a guest's TAP devices from `/proc/net/dev`.
pub fn taps_traffic(net_dev: &str, taps: &Vec<String>) -> (r: (u64, u64))
    ensures
        r == taps_fold(dev_rows(net_dev@), crate::storage::strs_view(taps@)),
{
    let rows = dev_rows_of(net_dev);
    let ghost rd = rows.deep_view();
    let ghost tv = crate::storage::strs_view(taps@);
    let mut rx: u64 = 0;
    let mut tx: u64 = 0;
    let mut i: usize = 0;
    while i < rows.len()
        invariant
            i <= rows.len(),
            rd == rows.deep_view(),
            tv == crate::storage::strs_view(taps@),
            (rx, tx) == taps_fold(rd.take(i as int), tv),
        decreases rows.len() - i,
    {
        proof {
            crate::text::lemma_char_vec_dv(rows@[i as int]);
            assert(rd.take(i as int + 1).drop_last() =~= rd.take(i as int));
        }
        if let Some((name, f)) = dev_row_of(rows[i].as_slice()) {
            if f.len() >= 9 && names_contain(taps, name.as_slice()) {
                rx = sat_add_exec(rx, f[0]);
                tx = sat_add_exec(tx, f[8]);
            }
        }
        i += 1;
    }
    assert(rd.take(rows.len() as int) =~= rd);
    (rx, tx)
}

/// A guest's TAP device (`p` and digits only) or another virtual link (`tap…`, `veth…`).
pub open spec fn is_virtual_link(name: Seq<char>) -> bool {
    ||| (name.len() > 0 && name[0] == 'p' && crate::text::all_digits(name.skip(1)))
    ||| starts_with(name, "tap"@)
    ||| starts_with(name, "veth"@)
}

/// Host traffic over the rows: the last `br0` row's counters, and the sum (saturating) of
/// the counters of every other physical link but loopback.
pub open spec fn host_fold(rows: Seq<Seq<char>>) -> (Option<(u64, u64)>, u64, u64)
    decreases rows.len(),
{
    if rows.len() == 0 {
        (None, 0, 0)
    } else {
        let (br, rx, tx) = host_fold(rows.drop_last());
        match dev_row(rows.last()) {
            Some((name, f)) => if name != "lo"@ && f.len() >= 9 {
                let br2 = if name == "br0"@ {
                    Some((f[0], f[8]))
                } else {
                    br
                };
                if is_virtual_link(name) {
                    (br2, rx, tx)
                } else {
                    (br2, sat_add(rx, f[0]), sat_add(tx, f[8]))
                }
            } else {
                (br, rx, tx)
            },
            None => (br, rx, tx),
        }
    }
}

pub open spec fn spec_host_traffic(net_dev: Seq<char>) -> (u64, u64) {
    let (br, rx, tx) = host_fold(dev_rows(net_dev));
    match br {
        Some(p) => p,
        None => (rx, tx),
    }
}

fn is_virtual_link_exec(name: &[char]) -> (r: bool)
    ensures
        r == is_virtual_link(name@),
{
    if name.len() > 0 && name[0] == 'p' {
        let mut all = true;
        let mut j: usize = 1;
        while j < name.len()
            invariant
                1 <= j <= name.len(),
                all == (forall|q: int| 1 <= q < j ==> crate::text::is_digit(#[trigger] name@[q])),
            decreases name.len() - j,
        {
            all = all && crate::text::is_digit_char(name[j]);
            j += 1;
        }
        assert(all == crate::text::all_digits(name@.skip(1))) by {
            if all {
                assert forall|q: int| 0 <= q < name@.skip(1).len() implies crate::text::is_digit(
                    #[trigger] name@.skip(1)[q],
                ) by {
                    assert(name@.skip(1)[q] == name@[q + 1]);
                }
            } else {
                let q = choose|q: int| 1 <= q < name@.len() && !crate::text::is_digit(name@[q]);
                assert(name@.skip(1)[q - 1] == name@[q]);
            }
        }
        if all {
            return true;
        }
    }
    starts_with_str(name, "tap") || starts_with_str(name, "veth")
}

/// Host traffic from `/proc/net/dev`: the `br0` bridge when there is one, else the sum
/// over physical links.
pub fn host_traffic(net_dev: &str) -> (r: (u64, u64))
    ensures
        r == spec_host_traffic(net_dev@),
{
    let rows = dev_rows_of(net_dev);
    let ghost rd = rows.deep_view();
    let mut br: Option<(u64, u64)> = None;
    let mut rx: u64 = 0;
    let mut tx: u64 = 0;
    let mut i: usize = 0;
    while i < rows.len()
        invariant
            i <= rows.len(),
            rd == rows.deep_view(),
            (br, rx, tx) == host_fold(rd.take(i as int)),
        decreases rows.len() - i,
    {
        proof {
            crate::text::lemma_char_vec_dv(rows@[i as int]);
            assert(rd.take(i as int + 1).drop_last() =~= rd.take(i as int));
        }
        if let Some((name, f)) = dev_row_of(rows[i].as_slice()) {
            if !eq_str(name.as_slice(), "lo") && f.len() >= 9 {
                if eq_str(name.as_slice(), "br0") {
                    br = Some((f[0], f[8]));
                }
                if !is_virtual_link_exec(name.as_slice()) {
                    rx = sat_add_exec(rx, f[0]);
                    tx = sat_add_exec(tx, f[8]);
                }
            }
        }
        i += 1;
    }
    assert(rd.take(rows.len() as int) =~= rd);
    match br {
        Some(p) => p,
        None => (rx, tx),
    }
}


// ---------------------------------------------------------------------------
// /proc/stat and /proc/<pid>/stat
// ---------------------------------------------------------------------------

/// The sum of a list of counters.
pub open spec fn counter_sum(s: Seq<u64>) -> int
    decreases s.len(),
{
    if s.len() == 0 {
        0
    } else {
        counter_sum(s.drop_last()) + s.last()
    }
}

/// The counters of `/proc/stat`'s first line, when that is the `cpu ` line: the words
/// after `cpu ` that parse as numbers.
pub open spec fn cpu_fields(stat: Seq<char>) -> Option<Seq<u64>> {
    let ls = lines(stat);
    if ls.len() > 0 && starts_with(ls[0], "cpu "@) {
        Some(parsed_u64s(words(ls[0].skip(4))))
    } else {
        None
    }
}

/// The host's CPU counters fit in 64 bits (else summing them overflows).
pub open spec fn cpu_counters_fit(stat: Seq<char>) -> bool {
    match cpu_fields(stat) {
        Some(p) => counter_sum(p) <= u64::MAX,
        None => true,
    }
}

/// `(busy, total)` jiffies of the host: idle is the fourth counter plus the fifth
/// (iowait) when present, total the sum of all, at least 1; none without four counters.
pub open spec fn spec_cpu_counters(stat: Seq<char>) -> Option<(u64, u64)> {
    match cpu_fields(stat) {
        None => None,
        Some(p) => if p.len() < 4 {
            None
        } else {
            let idle: int = p[3] + if p.len() > 4 {
                p[4] as int
            } else {
                0
            };
            let t = counter_sum(p);
            Some(
                (
                    if t < idle {
                        0u64
                    } else {
                        (t - idle) as u64
                    },
                    if t < 1 {
                        1u64
                    } else {
                        t as u64
                    },
                ),
            )
        },
    }
}

proof fn lemma_sum_nonneg(s: Seq<u64>)
    ensures
        counter_sum(s) >= 0,
    decreases s.len(),
{
    if s.len() > 0 {
        lemma_sum_nonneg(s.drop_last());
    }
}

proof fn lemma_sum_bounds(s: Seq<u64>, i: int)
    requires
        0 <= i < s.len(),
    ensures
        counter_sum(s) >= s[i],
    decreases s.len(),
{
    if i == s.len() - 1 {
        lemma_sum_nonneg(s.drop_last());
    } else {
        lemma_sum_bounds(s.drop_last(), i);
    }
}

proof fn lemma_sum_two(s: Seq<u64>, i: int, j: int)
    requires
        0 <= i < j < s.len(),
    ensures
        counter_sum(s) >= s[i] + s[j],
    decreases s.len(),
{
    if j == s.len() - 1 {
        lemma_sum_bounds(s.drop_last(), i);
    } else {
        lemma_sum_two(s.drop_last(), i, j);
    }
}

fn cpu_fields_of(stat: &str) -> (r: Option<Vec<u64>>)
    ensures
        match r {
            Some(v) => cpu_fields(stat@) == Some(v@),
            None => cpu_fields(stat@) is None,
        },
{
    let text = chars_of(stat);
    let ls = lines_of(text.as_slice());
    proof {
        assert(ls.deep_view() == lines(stat@));
    }
    if ls.len() == 0 {
        return None;
    }
    proof {
        crate::text::lemma_char_vec_dv(ls@[0]);
        assert(ls.deep_view()[0] == ls@[0]@);
    }
    if !starts_with_str(ls[0].as_slice(), "cpu ") {
        return None;
    }
    proof {
        reveal_strlit("cpu ");
    }
    let rest = slice_vec(ls[0].as_slice(), 4, ls[0].len());
    assert(rest@ =~= ls@[0]@.skip(4));
    let ws = words_of(rest.as_slice());
    let ghost wd = ws.deep_view();
    let mut nums: Vec<u64> = Vec::new();
    let mut i: usize = 0;
    while i < ws.len()
        invariant
            i <= ws.len(),
            wd == ws.deep_view(),
            nums@ == parsed_u64s(wd.take(i as int)),
        decreases ws.len() - i,
    {
        proof {
            crate::text::lemma_char_vec_dv(ws@[i as int]);
            assert(wd.take(i as int + 1).drop_last() =~= wd.take(i as int));
        }
        if let Some(v) = parse_u64(ws[i].as_slice()) {
            nums.push(v);
        }
        i += 1;
    }
    assert(wd.take(ws.len() as int) =~= wd);
    Some(nums)
}

/// Whether `cpu_counters` can add up the counters of this `/proc/stat` text.
pub fn cpu_counters_fit_in(stat: &str) -> (r: bool)
    ensures
        r == cpu_counters_fit(stat@),
{
    let p = match cpu_fields_of(stat) {
        Some(p) => p,
        None => {
            return true;
        },
    };
    let mut sum: u64 = 0;
    let mut i: usize = 0;
    while i < p.len()
        invariant
            i <= p.len(),
            sum == counter_sum(p@.take(i as int)),
            cpu_fields(stat@) == Some(p@),
        decreases p.len() - i,
    {
        assert(p@.take(i as int + 1).drop_last() =~= p@.take(i as int));
        if sum > u64::MAX - p[i] {
            proof {
                let t = p@.take(i as int + 1);
                assert(t.last() == p@[i as int]);
                assert(counter_sum(t) == counter_sum(t.drop_last()) + t.last());
                lemma_sum_prefix(p@, i as int + 1);
                assert(counter_sum(p@) > u64::MAX);
                assert(cpu_fields(stat@) == Some(p@));
            }
            return false;
        }
        sum = sum + p[i];
        i += 1;
    }
    assert(p@.take(p.len() as int) =~= p@);
    true
}

proof fn lemma_sum_prefix(s: Seq<u64>, k: int)
    requires
        0 <= k <= s.len(),
    ensures
        counter_sum(s.take(k)) <= counter_sum(s),
    decreases s.len(),
{
    if k < s.len() {
        assert(s.drop_last().take(k) =~= s.take(k));
        lemma_sum_prefix(s.drop_last(), k);
    } else {
        assert(s.take(k) =~= s);
    }
}

/// `(busy, total)` CPU jiffies of the host from `/proc/stat`.
pub fn cpu_counters(stat: &str) -> (r: Option<(u64, u64)>)
    requires
        cpu_counters_fit(stat@),
    ensures
        r == spec_cpu_counters(stat@),
{
    let p = match cpu_fields_of(stat) {
        Some(p) => p,
        None => {
            return None;
        },
    };
    if p.len() < 4 {
        return None;
    }
    let mut sum: u64 = 0;
    let mut i: usize = 0;
    while i < p.len()
        invariant
            i <= p.len(),
            sum == counter_sum(p@.take(i as int)),
            counter_sum(p@) <= u64::MAX,
        decreases p.len() - i,
    {
        assert(p@.take(i as int + 1).drop_last() =~= p@.take(i as int));
        proof {
            lemma_sum_prefix(p@, i as int + 1);
        }
        sum = sum + p[i];
        i += 1;
    }
    assert(p@.take(p.len() as int) =~= p@);
    proof {
        lemma_sum_bounds(p@, 3);
        if p.len() > 4 {
            lemma_sum_two(p@, 3, 4);
        }
    }
    let idle: u64 = if p.len() > 4 {
        p[3] + p[4]
    } else {
        p[3]
    };
    let busy = if sum < idle {
        0
    } else {
        sum - idle
    };
    let total = if sum < 1 {
        1
    } else {
        sum
    };
    Some((busy, total))
}

/// `utime + stime` (saturating) of a process from `/proc/<pid>/stat`: the 12th and 13th
/// fields after the closing parenthesis of the command name.
pub open spec fn spec_proc_cpu_ticks(stat: Seq<char>) -> Option<u64> {
    let k = rfind(stat, seq![')']);
    if k < 0 {
        None
    } else {
        let parts = words(stat.skip(k + 2));
        if parts.len() < 13 {
            None
        } else {
            match (p64(parts[11]), p64(parts[12])) {
                (Some(u), Some(s)) => Some(sat_add(u, s)),
                _ => None,
            }
        }
    }
}

/// The text after `)` can be sliced two bytes on: a character (one byte) follows it.
pub open spec fn proc_stat_sliceable(stat: Seq<char>) -> bool {
    let k = rfind(stat, seq![')']);
    k < 0 || (k + 1 < stat.len() && (stat[k + 1] as u32) < 0x80)
}

/// Whether `proc_cpu_ticks` can slice this text after its last `)`.
pub fn proc_stat_sliceable_in(stat: &str) -> (r: bool)
    ensures
        r == proc_stat_sliceable(stat@),
{
    let text = chars_of(stat);
    let paren = vec![')'];
    assert(paren@ =~= seq![')']);
    match crate::text::rfind_vec(text.as_slice(), paren.as_slice()) {
        None => true,
        Some(k) => {
            let n = text.len();
            if n == 0 || k >= n - 1 {
                false
            } else {
                (text[k + 1] as u32) < 0x80
            }
        },
    }
}

/// CPU ticks of a process from its `/proc/<pid>/stat` text.
pub fn proc_cpu_ticks(stat: &str) -> (r: Option<u64>)
    requires
        proc_stat_sliceable(stat@),
    ensures
        r == spec_proc_cpu_ticks(stat@),
{
    let text = chars_of(stat);
    let paren = vec![')'];
    assert(paren@ =~= seq![')']);
    let k = match crate::text::rfind_vec(text.as_slice(), paren.as_slice()) {
        Some(k) => k,
        None => {
            return None;
        },
    };
    assert(k as int == rfind(stat@, seq![')']));
    assert(k + 1 < text.len());
    let rest = slice_vec(text.as_slice(), k + 2, text.len());
    assert(rest@ =~= stat@.skip(k + 2));
    let parts = words_of(rest.as_slice());
    if parts.len() < 13 {
        return None;
    }
    proof {
        crate::text::lemma_char_vec_dv(parts@[11]);
        crate::text::lemma_char_vec_dv(parts@[12]);
    }
    let u = match parse_u64(parts[11].as_slice()) {
        Some(u) => u,
        None => {
            return None;
        },
    };
    let s = match parse_u64(parts[12].as_slice()) {
        Some(s) => s,
        None => {
            return None;
        },
    };
    Some(u.saturating_add(s))
}

}
