use vstd::prelude::*;

verus! {

// ---------------------------------------------------------------------------
// Character classes
// ---------------------------------------------------------------------------

/// Unicode `White_Space`, the set that `char::is_whitespace` tests.
pub open spec fn is_ws(c: char) -> bool {
    let n = c as u32;
    ||| 9 <= n <= 13
    ||| n == 32
    ||| n == 0x85
    ||| n == 0xA0
    ||| n == 0x1680
    ||| 0x2000 <= n <= 0x200A
    ||| n == 0x2028
    ||| n == 0x2029
    ||| n == 0x202F
    ||| n == 0x205F
    ||| n == 0x3000
}

pub open spec fn is_digit(c: char) -> bool {
    '0' <= c && c <= '9'
}

pub open spec fn is_lower_alpha(c: char) -> bool {
    'a' <= c && c <= 'z'
}

pub open spec fn is_upper_alpha(c: char) -> bool {
    'A' <= c && c <= 'Z'
}

pub open spec fn is_alnum(c: char) -> bool {
    is_digit(c) || is_lower_alpha(c) || is_upper_alpha(c)
}

/// ASCII lower-casing of one character (`char::to_ascii_lowercase`).
pub open spec fn lower(c: char) -> char {
    if is_upper_alpha(c) {
        ((c as u32) + 32) as char
    } else {
        c
    }
}

/// ASCII upper-casing of one character (`char::to_ascii_uppercase`).
pub open spec fn upper(c: char) -> char {
    if is_lower_alpha(c) {
        ((c as u32) - 32) as char
    } else {
        c
    }
}

pub open spec fn lower_seq(s: Seq<char>) -> Seq<char> {
    s.map_values(|c: char| lower(c))
}

pub open spec fn upper_seq(s: Seq<char>) -> Seq<char> {
    s.map_values(|c: char| upper(c))
}

pub fn is_ws_char(c: char) -> (b: bool)
    ensures
        b == is_ws(c),
{
    let n = c as u32;
    (9 <= n && n <= 13) || n == 32 || n == 0x85 || n == 0xA0 || n == 0x1680 || (0x2000 <= n && n
        <= 0x200A) || n == 0x2028 || n == 0x2029 || n == 0x202F || n == 0x205F || n == 0x3000
}

pub fn is_digit_char(c: char) -> (b: bool)
    ensures
        b == is_digit(c),
{
    '0' <= c && c <= '9'
}

pub fn is_alnum_char(c: char) -> (b: bool)
    ensures
        b == is_alnum(c),
{
    ('0' <= c && c <= '9') || ('a' <= c && c <= 'z') || ('A' <= c && c <= 'Z')
}

pub fn lower_char(c: char) -> (r: char)
    ensures
        r == lower(c),
{
    if 'A' <= c && c <= 'Z' {
        let n = (c as u32) + 32;
        assert(n < 0xD800);
        char_of_ascii(n)
    } else {
        c
    }
}

pub fn upper_char(c: char) -> (r: char)
    ensures
        r == upper(c),
{
    if 'a' <= c && c <= 'z' {
        let n = (c as u32) - 32;
        char_of_ascii(n)
    } else {
        c
    }
}

/// The ASCII character with code `n`.
pub fn char_of_ascii(n: u32) -> (c: char)
    requires
        n < 128,
    ensures
        c as u32 == n,
        c == n as char,
{
    (n as u8) as char
}

// ---------------------------------------------------------------------------
// Conversions between `str` / `String` and character vectors
// ---------------------------------------------------------------------------

/// `String::from_utf8_lossy`: the text of `b`, each invalid UTF-8 sequence
/// replaced by U+FFFD.
pub uninterp spec fn utf8_lossy(b: Seq<u8>) -> Seq<char>;

/// `String::from_utf8_lossy`, made an owned `String`. Claimed: the text depends on the
/// bytes alone, and ASCII bytes decode one character each. Not stated: how other bytes
/// decode (multi-byte sequences, replacement of invalid ones).
#[verifier::external_body]
pub(crate) fn decode_lossy(b: &[u8]) -> (r: String)
    ensures
        r@ == utf8_lossy(b@),
        (forall|i: int| 0 <= i < b@.len() ==> b@[i] < 128) ==> r@ == Seq::new(
            b@.len(),
            |i: int| b@[i] as char,
        ),
{
    String::from_utf8_lossy(b).into_owned()
}

/// The text of UTF-16 code units, as `String::from_utf16_lossy` gives it: a high
/// surrogate followed by a low one is the character they encode; any other surrogate is
/// U+FFFD; every other unit is the character of that value.
pub open spec fn utf16_lossy(u: Seq<u16>) -> Seq<char>
    decreases u.len(),
{
    if u.len() == 0 {
        seq![]
    } else if 0xD800 <= u[0] < 0xDC00 && u.len() >= 2 && 0xDC00 <= u[1] < 0xE000 {
        seq![(0x10000 + (u[0] - 0xD800) * 0x400 + (u[1] - 0xDC00)) as char] + utf16_lossy(
            u.skip(2),
        )
    } else if 0xD800 <= u[0] < 0xE000 {
        seq!['\u{FFFD}'] + utf16_lossy(u.skip(1))
    } else {
        seq![u[0] as char] + utf16_lossy(u.skip(1))
    }
}

/// `char::from_u32`: the character of a Unicode scalar value; none for a surrogate or a
/// value above `0x10FFFF`.
#[verifier::external_body]
fn char_from_u32(n: u32) -> (r: Option<char>)
    ensures
        (n <= 0x10FFFF && !(0xD800 <= n <= 0xDFFF)) ==> r == Some(n as char),
        (n > 0x10FFFF || 0xD800 <= n <= 0xDFFF) ==> r is None,
{
    char::from_u32(n)
}

/// The text of UTF-16 code units, unpaired surrogates replaced (see `utf16_lossy`).
pub fn decode_utf16_lossy(units: &[u16]) -> (r: String)
    ensures
        r@ == utf16_lossy(units@),
{
    let mut out: Vec<char> = Vec::new();
    let mut i: usize = 0;
    assert(units@.skip(0) =~= units@);
    assert(out@ + utf16_lossy(units@) =~= utf16_lossy(units@));
    while i < units.len()
        invariant
            i <= units.len(),
            out@ + utf16_lossy(units@.skip(i as int)) == utf16_lossy(units@),
        decreases units.len() - i,
    {
        let u = units[i];
        let ghost rest = units@.skip(i as int);
        let ghost before = out@;
        assert(rest[0] == u);
        if 0xD800 <= u && u < 0xDC00 && i + 1 < units.len() && 0xDC00 <= units[i + 1]
            && units[i + 1] < 0xE000 {
            let lo = units[i + 1];
            assert(rest[1] == lo);
            assert(rest.skip(2) =~= units@.skip(i + 2));
            let n: u32 = 0x10000 + ((u - 0xD800) as u32) * 0x400 + ((lo - 0xDC00) as u32);
            match char_from_u32(n) {
                Some(c) => out.push(c),
                None => out.push('\u{FFFD}'),
            }
            assert(out@ == before.push(n as char));
            i += 2;
        } else {
            assert(rest.skip(1) =~= units@.skip(i + 1));
            if 0xD800 <= u && u < 0xE000 {
                out.push('\u{FFFD}');
            } else {
                match char_from_u32(u as u32) {
                    Some(c) => out.push(c),
                    None => out.push('\u{FFFD}'),
                }
                assert(out@ == before.push(u as char));
            }
            i += 1;
        }
        assert(out@ + utf16_lossy(units@.skip(i as int)) =~= before + utf16_lossy(rest));
    }
    assert(units@.skip(units.len() as int) =~= Seq::<u16>::empty());
    assert(out@ + utf16_lossy(Seq::<u16>::empty()) =~= out@);
    string_of(out.as_slice())
}

/// `String::push`: appends one character. Claimed: the string's characters are the old
/// ones and `c` after them.
#[verifier::external_body]
pub(crate) fn push_char(s: &mut String, c: char)
    ensures
        final(s)@ == old(s)@.push(c),
{
    s.push(c);
}

/// The characters of `s`, in order.
pub fn chars_of(s: &str) -> (v: Vec<char>)
    ensures
        v@ == s@,
{
    let mut v: Vec<char> = Vec::new();
    for c in it: s.chars()
        invariant
            v@ == it.seq().take(it.index() as int),
    {
        v.push(c);
    }
    v
}

/// A string holding exactly the characters of `v`.
pub fn string_of(v: &[char]) -> (s: String)
    ensures
        s@ == v@,
{
    let mut s = String::new();
    let mut i: usize = 0;
    while i < v.len()
        invariant
            i <= v.len(),
            s@ == v@.take(i as int),
        decreases v.len() - i,
    {
        push_char(&mut s, v[i]);
        assert(v@.take(i as int).push(v@[i as int]) =~= v@.take(i as int + 1));
        i += 1;
    }
    assert(v@.take(v.len() as int) =~= v@);
    s
}

/// Copies `src[lo..hi]` into a fresh vector.
pub fn slice_vec(src: &[char], lo: usize, hi: usize) -> (v: Vec<char>)
    requires
        lo <= hi <= src@.len(),
    ensures
        v@ == src@.subrange(lo as int, hi as int),
{
    let mut v: Vec<char> = Vec::new();
    let mut i = lo;
    while i < hi
        invariant
            lo <= i <= hi,
            hi <= src@.len(),
            v@ == src@.subrange(lo as int, i as int),
        decreases hi - i,
    {
        v.push(src[i]);
        assert(src@.subrange(lo as int, i as int).push(src@[i as int]) =~= src@.subrange(
            lo as int,
            i as int + 1,
        ));
        i += 1;
    }
    v
}

/// Appends all of `src` to `dst`.
pub fn append_chars(dst: &mut Vec<char>, src: &[char])
    ensures
        final(dst)@ == old(dst)@ + src@,
{
    let ghost d0 = dst@;
    let mut i: usize = 0;
    while i < src.len()
        invariant
            i <= src.len(),
            dst@ == d0 + src@.take(i as int),
        decreases src.len() - i,
    {
        dst.push(src[i]);
        assert(d0 + src@.take(i as int + 1) =~= (d0 + src@.take(i as int)).push(src@[i as int]));
        i += 1;
    }
    assert(src@.take(src.len() as int) =~= src@);
}

/// Appends the characters of a string slice.
pub fn append_str(dst: &mut Vec<char>, s: &str)
    ensures
        final(dst)@ == old(dst)@ + s@,
{
    let v = chars_of(s);
    append_chars(dst, v.as_slice());
}

/// Element-wise equality of two character slices.
pub fn chars_eq(a: &[char], b: &[char]) -> (r: bool)
    ensures
        r == (a@ == b@),
{
    if a.len() != b.len() {
        return false;
    }
    let mut i: usize = 0;
    while i < a.len()
        invariant
            i <= a.len(),
            a.len() == b.len(),
            forall|j: int| 0 <= j < i ==> a@[j] == b@[j],
        decreases a.len() - i,
    {
        if a[i] != b[i] {
            return false;
        }
        i += 1;
    }
    assert(a@ =~= b@);
    true
}

/// Equality of a character slice with a string slice.
pub fn eq_str(a: &[char], s: &str) -> (r: bool)
    ensures
        r == (a@ == s@),
{
    let v = chars_of(s);
    chars_eq(a, v.as_slice())
}

pub fn lower_vec(s: &[char]) -> (r: Vec<char>)
    ensures
        r@ == lower_seq(s@),
{
    let mut r: Vec<char> = Vec::new();
    let mut i: usize = 0;
    while i < s.len()
        invariant
            i <= s.len(),
            r@ == lower_seq(s@.take(i as int)),
        decreases s.len() - i,
    {
        r.push(lower_char(s[i]));
        assert(lower_seq(s@.take(i as int + 1)) =~= lower_seq(s@.take(i as int)).push(
            lower(s@[i as int]),
        ));
        i += 1;
    }
    assert(s@.take(s.len() as int) =~= s@);
    r
}

pub fn upper_vec(s: &[char]) -> (r: Vec<char>)
    ensures
        r@ == upper_seq(s@),
{
    let mut r: Vec<char> = Vec::new();
    let mut i: usize = 0;
    while i < s.len()
        invariant
            i <= s.len(),
            r@ == upper_seq(s@.take(i as int)),
        decreases s.len() - i,
    {
        r.push(upper_char(s[i]));
        assert(upper_seq(s@.take(i as int + 1)) =~= upper_seq(s@.take(i as int)).push(
            upper(s@[i as int]),
        ));
        i += 1;
    }
    assert(s@.take(s.len() as int) =~= s@);
    r
}

// ---------------------------------------------------------------------------
// Trimming
// ---------------------------------------------------------------------------

/// First index at or after `i` that does not hold whitespace (or the length).
pub open spec fn skip_ws(s: Seq<char>, i: int) -> int
    decreases s.len() - i,
{
    if i < 0 || i >= s.len() {
        if i < 0 {
            0
        } else {
            s.len() as int
        }
    } else if is_ws(s[i]) {
        skip_ws(s, i + 1)
    } else {
        i
    }
}

/// Largest end `k <= j` such that `s[k-1]` is not whitespace (or 0).
pub open spec fn back_ws(s: Seq<char>, j: int) -> int
    decreases j,
{
    if j <= 0 {
        0
    } else if j > s.len() {
        back_ws(s, s.len() as int)
    } else if is_ws(s[j - 1]) {
        back_ws(s, j - 1)
    } else {
        j
    }
}

/// `str::trim_start`.
pub open spec fn trim_start(s: Seq<char>) -> Seq<char> {
    s.skip(skip_ws(s, 0))
}

/// `str::trim_end`.
pub open spec fn trim_end(s: Seq<char>) -> Seq<char> {
    s.take(back_ws(s, s.len() as int))
}

/// `str::trim`.
pub open spec fn trim(s: Seq<char>) -> Seq<char> {
    trim_end(trim_start(s))
}

pub proof fn lemma_skip_ws_bounds(s: Seq<char>, i: int)
    requires
        0 <= i <= s.len(),
    ensures
        i <= skip_ws(s, i) <= s.len(),
        forall|k: int| i <= k < skip_ws(s, i) ==> is_ws(#[trigger] s[k]),
        skip_ws(s, i) < s.len() ==> !is_ws(s[skip_ws(s, i)]),
    decreases s.len() - i,
{
    if i < s.len() && is_ws(s[i]) {
        lemma_skip_ws_bounds(s, i + 1);
    }
}

pub proof fn lemma_back_ws_bounds(s: Seq<char>, j: int)
    requires
        0 <= j <= s.len(),
    ensures
        0 <= back_ws(s, j) <= j,
        forall|k: int| back_ws(s, j) <= k < j ==> is_ws(#[trigger] s[k]),
        back_ws(s, j) > 0 ==> !is_ws(s[back_ws(s, j) - 1]),
    decreases j,
{
    if j > 0 && is_ws(s[j - 1]) {
        lemma_back_ws_bounds(s, j - 1);
    }
}

/// Bounds `(lo, hi)` such that `s[lo..hi]` is `trim(s)`.
pub fn trim_bounds(s: &[char]) -> (r: (usize, usize))
    ensures
        r.0 <= r.1 <= s@.len(),
        s@.subrange(r.0 as int, r.1 as int) == trim(s@),
        r.0 as int == skip_ws(s@, 0),
{
    let mut lo: usize = 0;
    while lo < s.len() && is_ws_char(s[lo])
        invariant
            lo <= s.len(),
            skip_ws(s@, lo as int) == skip_ws(s@, 0),
        decreases s.len() - lo,
    {
        lo += 1;
    }
    let ghost t = s@.skip(lo as int);
    assert(trim_start(s@) == t);
    let mut hi: usize = s.len();
    while hi > lo && is_ws_char(s[hi - 1])
        invariant
            lo <= hi <= s.len(),
            t == s@.skip(lo as int),
            back_ws(t, (hi - lo) as int) == back_ws(t, t.len() as int),
        decreases hi,
    {
        assert(t[(hi - lo) - 1] == s@[hi - 1]);
        hi -= 1;
    }
    if hi > lo {
        assert(t[(hi - lo) - 1] == s@[hi - 1]);
    }
    assert(back_ws(t, (hi - lo) as int) == (hi - lo) as int);
    assert(s@.subrange(lo as int, hi as int) =~= t.take((hi - lo) as int));
    (lo, hi)
}

/// `str::trim`, on characters.
pub fn trim_vec(s: &[char]) -> (r: Vec<char>)
    ensures
        r@ == trim(s@),
{
    let (lo, hi) = trim_bounds(s);
    slice_vec(s, lo, hi)
}

/// `str::trim_start`, on characters.
pub fn trim_start_vec(s: &[char]) -> (r: Vec<char>)
    ensures
        r@ == trim_start(s@),
{
    let (lo, _) = trim_bounds(s);
    slice_vec(s, lo, s.len())
}

/// `str::trim_end`, on characters.
pub fn trim_end_vec(s: &[char]) -> (r: Vec<char>)
    ensures
        r@ == trim_end(s@),
{
    let mut hi: usize = s.len();
    while hi > 0 && is_ws_char(s[hi - 1])
        invariant
            hi <= s.len(),
            back_ws(s@, hi as int) == back_ws(s@, s@.len() as int),
        decreases hi,
    {
        hi -= 1;
    }
    slice_vec(s, 0, hi)
}

// ---------------------------------------------------------------------------
// Prefixes, suffixes, search
// ---------------------------------------------------------------------------

pub open spec fn starts_with(s: Seq<char>, p: Seq<char>) -> bool {
    p.len() <= s.len() && s.take(p.len() as int) == p
}

pub open spec fn ends_with(s: Seq<char>, p: Seq<char>) -> bool {
    p.len() <= s.len() && s.skip(s.len() - p.len()) == p
}

pub open spec fn occurs_at(s: Seq<char>, p: Seq<char>, i: int) -> bool {
    0 <= i && i + p.len() <= s.len() && s.subrange(i, i + p.len()) == p
}

/// `str::contains` with a string pattern.
pub open spec fn contains(s: Seq<char>, p: Seq<char>) -> bool {
    exists|i: int| occurs_at(s, p, i)
}

/// First index `>= i` where `p` occurs in `s`, or -1.
pub open spec fn find_from(s: Seq<char>, p: Seq<char>, i: int) -> int
    decreases s.len() + 1 - i,
{
    if i < 0 || i + p.len() > s.len() {
        -1
    } else if occurs_at(s, p, i) {
        i
    } else {
        find_from(s, p, i + 1)
    }
}

/// Largest index `<= j` where `p` occurs in `s`, or -1.
pub open spec fn rfind_to(s: Seq<char>, p: Seq<char>, j: int) -> int
    decreases j + 1,
{
    if j < 0 {
        -1
    } else if occurs_at(s, p, j) {
        j
    } else {
        rfind_to(s, p, j - 1)
    }
}

/// `str::find`.
pub open spec fn find(s: Seq<char>, p: Seq<char>) -> int {
    find_from(s, p, 0)
}

/// `str::rfind`.
pub open spec fn rfind(s: Seq<char>, p: Seq<char>) -> int {
    rfind_to(s, p, s.len() - p.len())
}

pub proof fn lemma_find_from(s: Seq<char>, p: Seq<char>, i: int)
    requires
        0 <= i,
    ensures
        find_from(s, p, i) == -1 || (i <= find_from(s, p, i) && occurs_at(
            s,
            p,
            find_from(s, p, i),
        )),
        forall|k: int|
            i <= k && (find_from(s, p, i) == -1 || k < find_from(s, p, i)) ==> !occurs_at(
                s,
                p,
                k,
            ),
    decreases s.len() + 1 - i,
{
    if i + p.len() > s.len() {
    } else if occurs_at(s, p, i) {
    } else {
        lemma_find_from(s, p, i + 1);
    }
}

pub proof fn lemma_rfind_to(s: Seq<char>, p: Seq<char>, j: int)
    ensures
        rfind_to(s, p, j) == -1 || (rfind_to(s, p, j) <= j && occurs_at(
            s,
            p,
            rfind_to(s, p, j),
        )),
        forall|k: int| rfind_to(s, p, j) < k <= j ==> !occurs_at(s, p, k),
    decreases j + 1,
{
    if j >= 0 && !occurs_at(s, p, j) {
        lemma_rfind_to(s, p, j - 1);
    }
}

pub proof fn lemma_contains_find(s: Seq<char>, p: Seq<char>)
    ensures
        contains(s, p) <==> find(s, p) >= 0,
{
    lemma_find_from(s, p, 0);
    if contains(s, p) {
        let k = choose|k: int| occurs_at(s, p, k);
        assert(occurs_at(s, p, k));
    }
}

/// Does `p` occur in `s` at index `i`?
pub fn matches_at(s: &[char], p: &[char], i: usize) -> (r: bool)
    ensures
        r == occurs_at(s@, p@, i as int),
{
    if i > s.len() || p.len() > s.len() - i {
        return false;
    }
    let mut k: usize = 0;
    while k < p.len()
        invariant
            k <= p.len(),
            i + p.len() <= s.len(),
            forall|j: int| 0 <= j < k ==> s@[i + j] == p@[j],
        decreases p.len() - k,
    {
        if s[i + k] != p[k] {
            assert(s@.subrange(i as int, i + p.len())[k as int] != p@[k as int]);
            return false;
        }
        k += 1;
    }
    assert(s@.subrange(i as int, i + p.len()) =~= p@);
    true
}

/// First occurrence of `p` in `s` at or after `from`.
pub fn find_vec_from(s: &[char], p: &[char], from: usize) -> (r: Option<usize>)
    ensures
        match r {
            Some(i) => i as int == find_from(s@, p@, from as int),
            None => find_from(s@, p@, from as int) == -1,
        },
{
    if from > s.len() || p.len() > s.len() - from {
        return None;
    }
    let last = s.len() - p.len();
    let mut i = from;
    loop
        invariant
            from <= i <= last,
            last + p.len() == s.len(),
            find_from(s@, p@, i as int) == find_from(s@, p@, from as int),
        decreases last - i,
    {
        if matches_at(s, p, i) {
            return Some(i);
        }
        if i == last {
            assert(find_from(s@, p@, i + 1) == -1);
            return None;
        }
        i += 1;
    }
}

/// `str::find`.
pub fn find_vec(s: &[char], p: &[char]) -> (r: Option<usize>)
    ensures
        match r {
            Some(i) => i as int == find(s@, p@),
            None => find(s@, p@) == -1,
        },
{
    find_vec_from(s, p, 0)
}

/// `str::rfind`.
pub fn rfind_vec(s: &[char], p: &[char]) -> (r: Option<usize>)
    ensures
        match r {
            Some(i) => i as int == rfind(s@, p@),
            None => rfind(s@, p@) == -1,
        },
{
    if p.len() > s.len() {
        return None;
    }
    let mut j: usize = s.len() - p.len();
    loop
        invariant
            j <= s.len() - p.len(),
            p.len() <= s.len(),
            rfind_to(s@, p@, j as int) == rfind(s@, p@),
        decreases j,
    {
        if matches_at(s, p, j) {
            return Some(j);
        }
        if j == 0 {
            assert(rfind_to(s@, p@, -1) == -1);
            return None;
        }
        j -= 1;
    }
}

/// `str::contains`.
pub fn contains_vec(s: &[char], p: &[char]) -> (r: bool)
    ensures
        r == contains(s@, p@),
{
    proof {
        lemma_contains_find(s@, p@);
    }
    find_vec(s, p).is_some()
}

/// `str::contains` with a string slice pattern.
pub fn contains_str(s: &[char], p: &str) -> (r: bool)
    ensures
        r == contains(s@, p@),
{
    let pv = chars_of(p);
    contains_vec(s, pv.as_slice())
}

/// `str::starts_with`.
pub fn starts_with_vec(s: &[char], p: &[char]) -> (r: bool)
    ensures
        r == starts_with(s@, p@),
{
    let r = matches_at(s, p, 0);
    proof {
        if p@.len() <= s@.len() {
            assert(s@.subrange(0, p@.len() as int) =~= s@.take(p@.len() as int));
        }
    }
    r
}

/// `str::starts_with` with a string slice pattern.
pub fn starts_with_str(s: &[char], p: &str) -> (r: bool)
    ensures
        r == starts_with(s@, p@),
{
    let pv = chars_of(p);
    starts_with_vec(s, pv.as_slice())
}

/// `str::ends_with`.
pub fn ends_with_vec(s: &[char], p: &[char]) -> (r: bool)
    ensures
        r == ends_with(s@, p@),
{
    if p.len() > s.len() {
        return false;
    }
    let r = matches_at(s, p, s.len() - p.len());
    assert(s@.subrange(s@.len() - p@.len(), s@.len() as int) =~= s@.skip(s@.len() - p@.len()));
    r
}

/// `str::ends_with` with a string slice pattern.
pub fn ends_with_str(s: &[char], p: &str) -> (r: bool)
    ensures
        r == ends_with(s@, p@),
{
    let pv = chars_of(p);
    ends_with_vec(s, pv.as_slice())
}

/// Is `c` one of the characters of `s`?
pub fn has_char(s: &[char], c: char) -> (r: bool)
    ensures
        r == s@.contains(c),
{
    let mut i: usize = 0;
    while i < s.len()
        invariant
            i <= s.len(),
            forall|j: int| 0 <= j < i ==> s@[j] != c,
        decreases s.len() - i,
    {
        if s[i] == c {
            assert(s@[i as int] == c);
            return true;
        }
        i += 1;
    }
    false
}

/// Deep view of a vector of character vectors.
pub open spec fn dv(a: Seq<Vec<char>>) -> Seq<Seq<char>> {
    Seq::new(a.len(), |i: int| a[i].deep_view())
}

pub proof fn lemma_char_vec_dv(v: Vec<char>)
    ensures
        v.deep_view() == v@,
{
    assert(v.deep_view() =~= v@);
}

pub proof fn lemma_dv_push(a: Seq<Vec<char>>, x: Vec<char>, b: Seq<Vec<char>>)
    requires
        b == a.push(x),
    ensures
        dv(b) == dv(a).push(x@),
{
    lemma_char_vec_dv(x);
    assert(dv(b) =~= dv(a).push(x@));
}

/// The trimmed, non-blank entries of a list, in order.
pub open spec fn trimmed_nonblank(raw: Seq<Seq<char>>) -> Seq<Seq<char>>
    decreases raw.len(),
{
    if raw.len() == 0 {
        seq![]
    } else {
        let k = trimmed_nonblank(raw.drop_last());
        if trim(raw.last()).len() > 0 {
            k.push(trim(raw.last()))
        } else {
            k
        }
    }
}

/// Push a piece onto a list of pieces.
pub fn push_piece(out: &mut Vec<Vec<char>>, x: Vec<char>)
    ensures
        final(out).deep_view() == old(out).deep_view().push(x@),
{
    let ghost o0 = out@;
    let ghost xg = x;
    out.push(x);
    proof {
        lemma_dv_push(o0, xg, out@);
        assert(out.deep_view() =~= dv(out@));
        assert(old(out).deep_view() =~= dv(o0));
    }
}

pub proof fn lemma_dv_empty(a: Seq<Vec<char>>)
    requires
        a.len() == 0,
    ensures
        dv(a) == Seq::<Seq<char>>::empty(),
{
    assert(dv(a) =~= Seq::<Seq<char>>::empty());
}

// ---------------------------------------------------------------------------
// Splitting
// ---------------------------------------------------------------------------

/// `str::split` on a one-character separator.
pub open spec fn split_char(s: Seq<char>, c: char) -> Seq<Seq<char>>
    decreases s.len(),
{
    let k = find(s, seq![c]);
    if k < 0 {
        seq![s]
    } else {
        proof {
            lemma_find_in_range(s, seq![c]);
        }
        seq![s.take(k)] + split_char(s.skip(k + 1), c)
    }
}

pub proof fn lemma_find_in_range(s: Seq<char>, p: Seq<char>)
    ensures
        find(s, p) >= 0 ==> find(s, p) + p.len() <= s.len(),
{
    lemma_find_from(s, p, 0);
}

/// `s.split(c)`.
pub fn split_on(s: &[char], c: char) -> (r: Vec<Vec<char>>)
    ensures
        r.deep_view() == split_char(s@, c),
{
    let sep = vec![c];
    let mut out: Vec<Vec<char>> = Vec::new();
    let mut start: usize = 0;
    proof {
        lemma_dv_empty(out@);
        assert(s@.skip(0) =~= s@);
    }
    loop
        invariant
            start <= s@.len(),
            sep@ == seq![c],
            split_char(s@, c) == dv(out@) + split_char(s@.skip(start as int), c),
        decreases s@.len() - start,
    {
        let ghost rest = s@.skip(start as int);
        let k = find_vec_from(s, sep.as_slice(), start);
        proof {
            lemma_find_from(s@, seq![c], start as int);
            lemma_find_from(rest, seq![c], 0);
            lemma_find_shift(s@, seq![c], start as int);
        }
        match k {
            None => {
                let piece = slice_vec(s, start, s.len());
                assert(piece@ =~= rest);
                let ghost od = dv(out@);
        let ghost oa = out@;
                let ghost pc = piece;
                out.push(piece);
                proof { lemma_dv_push(oa, pc, out@); }
                assert(dv(out@) =~= od.push(rest));
                assert(split_char(rest, c) == seq![rest]);
                assert(od + seq![rest] =~= od.push(rest));
                return out;
            },
            Some(i) => {
                assert(occurs_at(s@, seq![c], i as int));
                assert(seq![c].len() == 1);
                assert(i + 1 <= s@.len());
                assert(i < s.len());
                let piece = slice_vec(s, start, i);
                let ghost od = dv(out@);
        let ghost oa = out@;
                let ghost pc = piece;
                out.push(piece);
                proof { lemma_dv_push(oa, pc, out@); }
                proof {
                    assert(find(rest, seq![c]) == i - start);
                    assert(rest.take(i - start) =~= piece@);
                    assert(rest.skip(i - start + 1) =~= s@.skip(i + 1));
                    assert(dv(out@) =~= od.push(piece@));
                    assert(split_char(rest, c) == seq![piece@] + split_char(s@.skip(i + 1), c));
                    assert(od + (seq![piece@] + split_char(s@.skip(i + 1), c)) =~= od.push(piece@)
                        + split_char(s@.skip(i + 1), c));
                }
                start = i + 1;
            },
        }
    }
}

/// Searching a suffix finds the same occurrence, shifted.
pub proof fn lemma_find_shift(s: Seq<char>, p: Seq<char>, start: int)
    requires
        0 <= start <= s.len(),
    ensures
        find_from(s, p, start) == -1 <==> find(s.skip(start), p) == -1,
        find_from(s, p, start) != -1 ==> find(s.skip(start), p) == find_from(s, p, start) - start,
{
    let t = s.skip(start);
    lemma_find_shift_from(s, p, start, start);
}

proof fn lemma_find_shift_from(s: Seq<char>, p: Seq<char>, start: int, i: int)
    requires
        0 <= start <= i,
        start <= s.len(),
    ensures
        (find_from(s, p, i) == -1) == (find_from(s.skip(start), p, i - start) == -1),
        find_from(s, p, i) != -1 ==> find_from(s.skip(start), p, i - start) == find_from(s, p, i)
            - start,
    decreases s.len() + 1 - i,
{
    let t = s.skip(start);
    if i + p.len() > s.len() {
    } else {
        assert(occurs_at(s, p, i) == occurs_at(t, p, i - start)) by {
            if i + p.len() <= s.len() {
                assert(s.subrange(i, i + p.len()) =~= t.subrange(i - start, i - start + p.len()));
            }
        }
        if !occurs_at(s, p, i) {
            lemma_find_shift_from(s, p, start, i + 1);
        }
    }
}

/// `str::split_whitespace`.
pub open spec fn words(s: Seq<char>) -> Seq<Seq<char>>
    decreases s.len(),
{
    let t = trim_start(s);
    if t.len() == 0 {
        seq![]
    } else {
        let k = first_ws(t, 0);
        proof {
            lemma_skip_ws_bounds(s, 0);
            lemma_first_ws_bounds(t, 0);
        }
        seq![t.take(k)] + words(t.skip(k))
    }
}

/// First whitespace index at or after `i`, or the length.
pub open spec fn first_ws(s: Seq<char>, i: int) -> int
    decreases s.len() - i,
{
    if i < 0 || i >= s.len() {
        if i < 0 {
            0
        } else {
            s.len() as int
        }
    } else if is_ws(s[i]) {
        i
    } else {
        first_ws(s, i + 1)
    }
}

pub proof fn lemma_first_ws_bounds(s: Seq<char>, i: int)
    requires
        0 <= i <= s.len(),
    ensures
        i <= first_ws(s, i) <= s.len(),
        forall|k: int| i <= k < first_ws(s, i) ==> !is_ws(#[trigger] s[k]),
        first_ws(s, i) < s.len() ==> is_ws(s[first_ws(s, i)]),
    decreases s.len() - i,
{
    if i < s.len() && !is_ws(s[i]) {
        lemma_first_ws_bounds(s, i + 1);
    }
}

proof fn lemma_skip_ws_shift(s: Seq<char>, start: int, i: int)
    requires
        0 <= start <= i <= s.len(),
    ensures
        skip_ws(s, i) - start == skip_ws(s.skip(start), i - start),
    decreases s.len() - i,
{
    if i < s.len() && is_ws(s[i]) {
        lemma_skip_ws_shift(s, start, i + 1);
    }
}

proof fn lemma_first_ws_shift(s: Seq<char>, start: int, i: int)
    requires
        0 <= start <= i <= s.len(),
    ensures
        first_ws(s, i) - start == first_ws(s.skip(start), i - start),
    decreases s.len() - i,
{
    if i < s.len() && !is_ws(s[i]) {
        lemma_first_ws_shift(s, start, i + 1);
    }
}

/// `s.split_whitespace()`.
pub fn words_of(s: &[char]) -> (r: Vec<Vec<char>>)
    ensures
        r.deep_view() == words(s@),
{
    let mut out: Vec<Vec<char>> = Vec::new();
    let mut i: usize = 0;
    proof {
        lemma_dv_empty(out@);
        assert(s@.skip(0) =~= s@);
    }
    loop
        invariant
            i <= s@.len(),
            words(s@) == dv(out@) + words(s@.skip(i as int)),
        decreases s@.len() - i,
    {
        let ghost rest = s@.skip(i as int);
        let mut j = i;
        while j < s.len() && is_ws_char(s[j])
            invariant
                i <= j <= s.len(),
                skip_ws(s@, j as int) == skip_ws(s@, i as int),
            decreases s.len() - j,
        {
            j += 1;
        }
        proof {
            lemma_skip_ws_shift(s@, i as int, i as int);
            assert(skip_ws(s@, j as int) == j as int);
            assert(trim_start(rest) =~= s@.skip(j as int));
        }
        if j == s.len() {
            assert(words(rest) == Seq::<Seq<char>>::empty());
            assert(dv(out@) + words(rest) =~= dv(out@));
            return out;
        }
        let mut k = j;
        while k < s.len() && !is_ws_char(s[k])
            invariant
                j <= k <= s.len(),
                first_ws(s@, k as int) == first_ws(s@, j as int),
            decreases s.len() - k,
        {
            k += 1;
        }
        let piece = slice_vec(s, j, k);
        let ghost od = dv(out@);
        let ghost oa = out@;
        let ghost pc = piece;
                out.push(piece);
                proof { lemma_dv_push(oa, pc, out@); }
        proof {
            let t = s@.skip(j as int);
            lemma_first_ws_shift(s@, j as int, j as int);
            assert(first_ws(s@, k as int) == k as int);
            assert(first_ws(t, 0) == k - j);
            assert(t.take(k - j) =~= piece@);
            assert(t.skip(k - j) =~= s@.skip(k as int));
            assert(words(rest) == seq![piece@] + words(s@.skip(k as int)));
            assert(dv(out@) =~= od.push(piece@));
            assert(od + (seq![piece@] + words(s@.skip(k as int))) =~= od.push(piece@) + words(
                s@.skip(k as int),
            ));
        }
        i = k;
    }
}

/// Strips one trailing `'\r'`.
pub open spec fn strip_cr(s: Seq<char>) -> Seq<char> {
    if s.len() > 0 && s.last() == '\r' {
        s.drop_last()
    } else {
        s
    }
}

/// `str::lines`: split on `'\n'`, drop a `'\r'` that precedes a `'\n'`,
/// and no empty line after a final newline.
pub open spec fn lines(s: Seq<char>) -> Seq<Seq<char>>
    decreases s.len(),
{
    if s.len() == 0 {
        seq![]
    } else {
        let k = find(s, seq!['\n']);
        if k < 0 {
            seq![s]
        } else {
            proof {
                lemma_find_in_range(s, seq!['\n']);
            }
            seq![strip_cr(s.take(k))] + lines(s.skip(k + 1))
        }
    }
}

/// `s.lines()`.
pub fn lines_of(s: &[char]) -> (r: Vec<Vec<char>>)
    ensures
        r.deep_view() == lines(s@),
{
    let sep = vec!['\n'];
    let mut out: Vec<Vec<char>> = Vec::new();
    let mut start: usize = 0;
    proof {
        lemma_dv_empty(out@);
        assert(s@.skip(0) =~= s@);
    }
    loop
        invariant
            start <= s@.len(),
            sep@ == seq!['\n'],
            lines(s@) == dv(out@) + lines(s@.skip(start as int)),
        decreases s@.len() - start,
    {
        let ghost rest = s@.skip(start as int);
        if start == s.len() {
            assert(lines(rest) == Seq::<Seq<char>>::empty());
            assert(dv(out@) + lines(rest) =~= dv(out@));
            return out;
        }
        let k = find_vec_from(s, sep.as_slice(), start);
        proof {
            lemma_find_from(s@, seq!['\n'], start as int);
            lemma_find_shift(s@, seq!['\n'], start as int);
        }
        let ghost od = dv(out@);
        let ghost oa = out@;
        match k {
            None => {
                let piece = slice_vec(s, start, s.len());
                assert(piece@ =~= rest);
                let ghost pc = piece;
                out.push(piece);
                proof { lemma_dv_push(oa, pc, out@); }
                assert(dv(out@) =~= od.push(rest));
                assert(lines(rest) == seq![rest]);
                assert(od + seq![rest] =~= od.push(rest));
                return out;
            },
            Some(i) => {
                let mut e = i;
                if e > start && s[e - 1] == '\r' {
                    e = e - 1;
                }
                let piece = slice_vec(s, start, e);
                let ghost pc = piece;
                out.push(piece);
                proof { lemma_dv_push(oa, pc, out@); }
                proof {
                    assert(find(rest, seq!['\n']) == i - start);
                    assert(strip_cr(rest.take(i - start)) =~= piece@);
                    assert(rest.skip(i - start + 1) =~= s@.skip(i + 1));
                    assert(dv(out@) =~= od.push(piece@));
                    assert(lines(rest) == seq![piece@] + lines(s@.skip(i + 1)));
                    assert(od + (seq![piece@] + lines(s@.skip(i + 1))) =~= od.push(piece@) + lines(
                        s@.skip(i + 1),
                    ));
                }
                start = i + 1;
            },
        }
    }
}

/// Concatenation of `parts` with `sep` between consecutive parts (`join`).
pub open spec fn join(parts: Seq<Seq<char>>, sep: Seq<char>) -> Seq<char>
    decreases parts.len(),
{
    if parts.len() == 0 {
        seq![]
    } else if parts.len() == 1 {
        parts[0]
    } else {
        join(parts.drop_last(), sep) + sep + parts.last()
    }
}

/// A word of `words`: non-empty, with no whitespace.
pub open spec fn is_word(w: Seq<char>) -> bool {
    w.len() > 0 && forall|k: int| 0 <= k < w.len() ==> !is_ws(#[trigger] w[k])
}

/// Every item `words` gives is a word.
pub proof fn lemma_words_are_words(s: Seq<char>)
    ensures
        forall|i: int| 0 <= i < words(s).len() ==> is_word(#[trigger] words(s)[i]),
    decreases s.len(),
{
    lemma_skip_ws_bounds(s, 0);
    let t = trim_start(s);
    if t.len() > 0 {
        assert(t[0] == s[skip_ws(s, 0)]);
        lemma_first_ws_bounds(t, 0);
        let k = first_ws(t, 0);
        assert(k > 0);
        lemma_words_are_words(t.skip(k));
        let w = words(s);
        assert(w == seq![t.take(k)] + words(t.skip(k)));
        assert forall|i: int| 0 <= i < w.len() implies is_word(#[trigger] w[i]) by {
            if i > 0 {
                assert(w[i] == words(t.skip(k))[i - 1]);
            }
        }
    }
}

/// A join of two or more parts is the first part, the separator and the join of the rest.
pub proof fn lemma_join_front(parts: Seq<Seq<char>>, sep: Seq<char>)
    requires
        parts.len() >= 2,
    ensures
        join(parts, sep) == parts[0] + sep + join(parts.drop_first(), sep),
    decreases parts.len(),
{
    let dl = parts.drop_last();
    let df = parts.drop_first();
    if parts.len() > 2 {
        lemma_join_front(dl, sep);
        assert(dl.drop_first() =~= df.drop_last());
        assert(df.last() == parts.last());
        assert(dl[0] == parts[0]);
        assert(join(df, sep) == join(df.drop_last(), sep) + sep + df.last());
        assert(join(parts, sep) == join(dl, sep) + sep + parts.last());
        assert(join(parts, sep) =~= parts[0] + sep + join(df, sep));
    } else {
        assert(dl =~= seq![parts[0]]);
        assert(df =~= seq![parts[1]]);
        assert(join(dl, sep) == parts[0]);
        assert(join(df, sep) == parts[1]);
        assert(join(parts, sep) == join(dl, sep) + sep + parts.last());
    }
}

/// Words joined by single spaces split back into the same words.
pub proof fn lemma_words_of_join(parts: Seq<Seq<char>>)
    requires
        forall|i: int| 0 <= i < parts.len() ==> is_word(#[trigger] parts[i]),
    ensures
        words(join(parts, " "@)) == parts,
    decreases parts.len(),
{
    reveal_strlit(" ");
    let sp = " "@;
    assert(is_ws(' '));
    if parts.len() == 0 {
        assert(words(Seq::<char>::empty()) =~= Seq::<Seq<char>>::empty());
    } else {
        let p0 = parts[0];
        assert(is_word(p0));
        let (s, tail) = if parts.len() == 1 {
            (p0, Seq::<char>::empty())
        } else {
            lemma_join_front(parts, sp);
            (p0 + sp + join(parts.drop_first(), sp), sp + join(parts.drop_first(), sp))
        };
        assert(s == join(parts, sp));
        assert(skip_ws(s, 0) == 0);
        assert(trim_start(s) =~= s);
        lemma_first_ws_bounds(s, 0);
        let k = first_ws(s, 0);
        if k < p0.len() {
            assert(s[k] == p0[k]);
        }
        if parts.len() > 1 {
            assert(s[p0.len() as int] == ' ');
        }
        assert(k == p0.len());
        assert(s.take(k) =~= p0);
        assert(s.skip(k) =~= tail);
        assert(words(s) == seq![p0] + words(tail));
        if parts.len() == 1 {
            assert(words(Seq::<char>::empty()) =~= Seq::<Seq<char>>::empty());
            assert(words(s) =~= parts);
        } else {
            let rest = parts.drop_first();
            let j = join(rest, sp);
            assert forall|i: int| 0 <= i < rest.len() implies is_word(#[trigger] rest[i]) by {
                assert(rest[i] == parts[i + 1]);
            }
            lemma_words_of_join(rest);
            if rest.len() >= 2 {
                lemma_join_front(rest, sp);
            }
            assert(is_word(rest[0]));
            assert(j[0] == rest[0][0]);
            assert(!is_ws(j[0]));
            assert(tail[0] == ' ');
            assert(tail[1] == j[0]);
            assert(skip_ws(tail, 1) == 1);
            assert(skip_ws(tail, 0) == 1);
            assert(skip_ws(j, 0) == 0);
            assert(trim_start(tail) =~= j);
            assert(trim_start(j) =~= j);
            assert(words(tail) == words(j));
            assert(words(s) =~= parts);
        }
    }
}

/// `parts.join(sep)`.
pub fn join_vec(parts: &Vec<Vec<char>>, sep: &[char]) -> (r: Vec<char>)
    ensures
        r@ == join(parts.deep_view(), sep@),
{
    let mut out: Vec<char> = Vec::new();
    let mut i: usize = 0;
    while i < parts.len()
        invariant
            i <= parts.len(),
            out@ == join(parts.deep_view().take(i as int), sep@),
        decreases parts.len() - i,
    {
        let ghost pre = parts.deep_view().take(i as int);
        if i > 0 {
            append_chars(&mut out, sep);
        }
        append_chars(&mut out, parts[i].as_slice());
        proof {
            let nxt = parts.deep_view().take(i as int + 1);
            assert(nxt.drop_last() =~= pre);
            assert(nxt.last() == parts[i as int]@);
            if i == 0 {
                assert(nxt.len() == 1);
            }
        }
        i += 1;
    }
    assert(parts.deep_view().take(parts.len() as int) =~= parts.deep_view());
    out
}

// ---------------------------------------------------------------------------
// Numbers
// ---------------------------------------------------------------------------

pub open spec fn digit_char(d: nat) -> char {
    ((d % 10) + 48) as char
}

/// Decimal rendering of a natural number (`u64::to_string`).
pub open spec fn dec(n: nat) -> Seq<char>
    decreases n,
{
    if n < 10 {
        seq![digit_char(n)]
    } else {
        dec(n / 10).push(digit_char(n % 10))
    }
}

/// `n.to_string()` for any unsigned integer up to `u64`.
pub fn dec_vec(n: u64) -> (r: Vec<char>)
    ensures
        r@ == dec(n as nat),
    decreases n,
{
    let d = (n % 10) as u32;
    let c = char_of_ascii(d + 48);
    if n < 10 {
        vec![c]
    } else {
        let mut r = dec_vec(n / 10);
        r.push(c);
        r
    }
}

/// `n.to_string()`.
pub fn dec_string(n: u64) -> (r: String)
    ensures
        r@ == dec(n as nat),
{
    let v = dec_vec(n);
    string_of(v.as_slice())
}

/// Value of a run of decimal digits.
pub open spec fn digits_value(s: Seq<char>) -> nat
    decreases s.len(),
{
    if s.len() == 0 {
        0
    } else {
        digits_value(s.drop_last()) * 10 + ((s.last() as nat) - 48) as nat
    }
}

pub open spec fn all_digits(s: Seq<char>) -> bool {
    forall|i: int| 0 <= i < s.len() ==> is_digit(#[trigger] s[i])
}

/// The digits of an unsigned number: `s` without one leading `'+'`.
pub open spec fn unsigned_body(s: Seq<char>) -> Seq<char> {
    if s.len() > 0 && s[0] == '+' {
        s.drop_first()
    } else {
        s
    }
}

/// `str::parse::<uN>()` for an unsigned type whose largest value is `max`:
/// an optional `'+'`, then one or more ASCII digits, with no overflow.
pub open spec fn parse_unsigned(s: Seq<char>, max: nat) -> Option<nat> {
    let body = unsigned_body(s);
    if body.len() == 0 || !all_digits(body) || digits_value(body) > max {
        None
    } else {
        Some(digits_value(body))
    }
}

proof fn lemma_digits_value_mono(s: Seq<char>, i: int)
    requires
        0 <= i <= s.len(),
        all_digits(s),
    ensures
        digits_value(s.take(i)) <= digits_value(s),
    decreases s.len() - i,
{
    if i < s.len() {
        lemma_digits_value_mono(s, i + 1);
        let t = s.take(i + 1);
        assert(t.drop_last() =~= s.take(i));
        assert(is_digit(s[i]));
    } else {
        assert(s.take(i) =~= s);
    }
}

/// `str::parse::<uN>()` where `max` is the type's largest value.
pub fn parse_unsigned_vec(s: &[char], max: u64) -> (r: Option<u64>)
    ensures
        match r {
            Some(v) => parse_unsigned(s@, max as nat) == Some(v as nat),
            None => parse_unsigned(s@, max as nat) is None,
        },
{
    let start: usize = if s.len() > 0 && s[0] == '+' {
        1
    } else {
        0
    };
    let ghost body = s@.skip(start as int);
    assert(body =~= unsigned_body(s@));
    if start == s.len() {
        return None;
    }
    let mut i = start;
    while i < s.len()
        invariant
            start <= i <= s.len(),
            body == s@.skip(start as int),
            body == unsigned_body(s@),
            forall|j: int| start <= j < i ==> is_digit(#[trigger] s@[j]),
        decreases s.len() - i,
    {
        if !is_digit_char(s[i]) {
            assert(body[i - start] == s@[i as int]);
            assert(!is_digit(body[i - start]));
            assert(!all_digits(body));
            return None;
        }
        i += 1;
    }
    assert(all_digits(body)) by {
        assert forall|j: int| 0 <= j < body.len() implies is_digit(#[trigger] body[j]) by {
            assert(body[j] == s@[j + start]);
        }
    }
    let mut acc: u64 = 0;
    let mut i = start;
    while i < s.len()
        invariant
            start <= i <= s.len(),
            body == s@.skip(start as int),
            body == unsigned_body(s@),
            all_digits(body),
            acc as nat == digits_value(body.take(i - start)),
            acc <= max,
        decreases s.len() - i,
    {
        proof {
            assert(body[i - start] == s@[i as int]);
            assert(is_digit(body[i - start]));
        }
        let d = ((s[i] as u32) - 48) as u64;
        proof {
            let t = body.take(i - start + 1);
            assert(t.drop_last() =~= body.take(i - start));
            assert(t.last() == s@[i as int]);
            assert(digits_value(t) == acc * 10 + d);
        }
        if d > max {
            proof {
                lemma_digits_value_mono(body, i - start + 1);
            }
            return None;
        }
        if acc > (max - d) / 10 {
            proof {
                assert(acc * 10 + d > max) by (nonlinear_arith)
                    requires
                        acc > (max - d) / 10,
                        d <= max,
                ;
                lemma_digits_value_mono(body, i - start + 1);
            }
            return None;
        }
        assert(acc * 10 + d <= max) by (nonlinear_arith)
            requires
                acc <= (max - d) / 10,
                d <= max,
        ;
        acc = acc * 10 + d;
        i += 1;
    }
    assert(body.take(body.len() as int) =~= body);
    Some(acc)
}

// ---------------------------------------------------------------------------
// Order
// ---------------------------------------------------------------------------

/// Lexicographic order by code point, which is the byte order of `String`'s UTF-8
/// (`Ord for str`).
pub open spec fn seq_lt(a: Seq<char>, b: Seq<char>) -> bool
    decreases a.len(),
{
    if a.len() == 0 {
        b.len() > 0
    } else if b.len() == 0 {
        false
    } else if a[0] != b[0] {
        a[0] < b[0]
    } else {
        seq_lt(a.drop_first(), b.drop_first())
    }
}

pub proof fn lemma_seq_lt_irrefl(a: Seq<char>)
    ensures
        !seq_lt(a, a),
    decreases a.len(),
{
    if a.len() > 0 {
        lemma_seq_lt_irrefl(a.drop_first());
    }
}

pub proof fn lemma_seq_lt_total(a: Seq<char>, b: Seq<char>)
    ensures
        seq_lt(a, b) || seq_lt(b, a) || a == b,
    decreases a.len(),
{
    if a.len() > 0 && b.len() > 0 && a[0] == b[0] {
        lemma_seq_lt_total(a.drop_first(), b.drop_first());
        if a.drop_first() == b.drop_first() {
            assert forall|k: int| 0 <= k < a.len() implies a[k] == b[k] by {
                if k > 0 {
                    assert(a[k] == a.drop_first()[k - 1]);
                    assert(b[k] == b.drop_first()[k - 1]);
                }
            }
            assert(a =~= b);
        }
    } else if a.len() == 0 && b.len() == 0 {
        assert(a =~= b);
    }
}

pub proof fn lemma_seq_lt_trans(a: Seq<char>, b: Seq<char>, c: Seq<char>)
    requires
        seq_lt(a, b),
        seq_lt(b, c),
    ensures
        seq_lt(a, c),
    decreases a.len(),
{
    if a.len() > 0 && b.len() > 0 && c.len() > 0 && a[0] == b[0] && b[0] == c[0] {
        lemma_seq_lt_trans(a.drop_first(), b.drop_first(), c.drop_first());
    }
}

/// `a < b` on strings.
pub fn chars_lt(a: &[char], b: &[char]) -> (r: bool)
    ensures
        r == seq_lt(a@, b@),
{
    let mut i: usize = 0;
    assert(a@.skip(0) =~= a@ && b@.skip(0) =~= b@);
    while i < a.len() && i < b.len()
        invariant
            i <= a.len(),
            i <= b.len(),
            a@.take(i as int) == b@.take(i as int),
            seq_lt(a@, b@) == seq_lt(a@.skip(i as int), b@.skip(i as int)),
        decreases a.len() - i,
    {
        proof {
            assert(a@.skip(i as int)[0] == a@[i as int]);
            assert(b@.skip(i as int)[0] == b@[i as int]);
            assert(a@.skip(i as int).drop_first() =~= a@.skip(i as int + 1));
            assert(b@.skip(i as int).drop_first() =~= b@.skip(i as int + 1));
        }
        if a[i] != b[i] {
            return a[i] < b[i];
        }
        assert(a@.take(i as int + 1) =~= a@.take(i as int).push(a@[i as int]));
        assert(b@.take(i as int + 1) =~= b@.take(i as int).push(b@[i as int]));
        i += 1;
    }
    i < b.len()
}

// ---------------------------------------------------------------------------
// Facts about decimals and single-character splits
// ---------------------------------------------------------------------------

/// A decimal rendering is a non-empty run of digits whose value is the number.
pub proof fn lemma_dec(n: nat)
    ensures
        dec(n).len() > 0,
        all_digits(dec(n)),
        digits_value(dec(n)) == n,
    decreases n,
{
    assert(digit_char(n % 10) as nat == n % 10 + 48);
    if n < 10 {
        assert(dec(n).drop_last() =~= Seq::<char>::empty());
        assert(dec(n).last() == digit_char(n % 10));
        assert(digits_value(Seq::<char>::empty()) == 0);
        assert(digits_value(dec(n)) == digits_value(dec(n).drop_last()) * 10 + n % 10);
    }
    if n >= 10 {
        lemma_dec(n / 10);
        let d = dec(n / 10);
        assert(dec(n).drop_last() =~= d);
        assert(dec(n).last() == digit_char(n % 10));
        assert forall|i: int| 0 <= i < dec(n).len() implies is_digit(#[trigger] dec(n)[i]) by {
            if i < d.len() {
                assert(dec(n)[i] == d[i]);
            }
        }
        vstd::arithmetic::div_mod::lemma_fundamental_div_mod(n as int, 10);
        assert(digits_value(dec(n)) == digits_value(d) * 10 + n % 10);
    }
}

/// Parsing a decimal rendering gives the number back.
pub proof fn lemma_parse_dec(n: nat, max: nat)
    requires
        n <= max,
    ensures
        parse_unsigned(dec(n), max) == Some(n),
{
    lemma_dec(n);
    assert(is_digit(dec(n)[0]));
    assert(unsigned_body(dec(n)) == dec(n));
}

/// The first `c` in `s`, found by `find`.
pub proof fn lemma_find_char(s: Seq<char>, c: char)
    ensures
        find(s, seq![c]) == -1 ==> forall|j: int| 0 <= j < s.len() ==> s[j] != c,
        find(s, seq![c]) != -1 ==> 0 <= find(s, seq![c]) < s.len() && s[find(s, seq![c])] == c
            && forall|j: int| 0 <= j < find(s, seq![c]) ==> s[j] != c,
{
    lemma_find_from(s, seq![c], 0);
    let k = find(s, seq![c]);
    assert forall|j: int| 0 <= j < s.len() && (k == -1 || j < k) implies s[j] != c by {
        if s[j] == c {
            assert(s.subrange(j, j + 1) =~= seq![c]);
            assert(occurs_at(s, seq![c], j));
        }
    }
    if k != -1 {
        assert(s.subrange(k, k + 1) =~= seq![c]);
        assert(s.subrange(k, k + 1)[0] == s[k]);
    }
}

/// Splitting on a character the text lacks gives the text.
pub proof fn lemma_split_none(a: Seq<char>, c: char)
    requires
        forall|j: int| 0 <= j < a.len() ==> a[j] != c,
    ensures
        split_char(a, c) == seq![a],
{
    lemma_find_char(a, c);
}

/// Splitting `a c b`, where `a` lacks `c`, gives `a` then the pieces of `b`.
pub proof fn lemma_split_cons(a: Seq<char>, b: Seq<char>, c: char)
    requires
        forall|j: int| 0 <= j < a.len() ==> a[j] != c,
    ensures
        split_char(a + seq![c] + b, c) == seq![a] + split_char(b, c),
{
    let s = a + seq![c] + b;
    lemma_find_char(s, c);
    let k = find(s, seq![c]);
    if k == -1 {
        assert(s[a.len() as int] == c);
    } else {
        if k < a.len() {
            assert(s[k] == a[k]);
        }
        if k > a.len() {
            assert(s[a.len() as int] == c);
        }
        assert(k == a.len());
        assert(s.take(k) =~= a);
        assert(s.skip(k + 1) =~= b);
    }
}

/// Digits are never `c` when `c` is not a digit.
pub proof fn lemma_dec_lacks(n: nat, c: char)
    requires
        !is_digit(c),
    ensures
        forall|j: int| 0 <= j < dec(n).len() ==> dec(n)[j] != c,
{
    lemma_dec(n);
    assert forall|j: int| 0 <= j < dec(n).len() implies dec(n)[j] != c by {
        assert(is_digit(dec(n)[j]));
    }
}

/// Text with no whitespace at either end is its own trim.
pub proof fn lemma_trim_id(s: Seq<char>)
    requires
        s.len() > 0,
        !is_ws(s[0]),
        !is_ws(s.last()),
    ensures
        trim(s) == s,
{
    assert(skip_ws(s, 0) == 0);
    assert(s.skip(0) =~= s);
    assert(back_ws(s, s.len() as int) == s.len());
    assert(s.take(s.len() as int) =~= s);
}

} // verus!
