//! Memory counters read from a status text of `Key:   value kB` lines: a one-time
//! index of the lines that hold the required keys, then cheap re-reads that jump
//! straight to those lines.
use vstd::prelude::*;
use vstd::string::is_ascii;
use crate::text::{
    LineCursor, find_from, find_in_range, lines_of, parse_usize, parse_usize_range,
};

verus! {

pub const COLON: u8 = 58;

pub const SPACE: u8 = 32;

/// Width of the unit that follows each value (" kB" ends in two letters, and the
/// numeric field stops three bytes before the end of the line).
pub const SUFFIX_LEN: usize = 3;

/// Capacity reserved for a read buffer, enough for a whole status text in practice.
pub const INITIAL_BUF_SIZE: usize = 2048;

/// Number of required keys.
pub const KEY_COUNT: usize = 5;

/// The keys that a source must hold, in the order in which they are looked up.
#[derive(Clone, Copy, Debug, PartialEq, Eq, Structural)]
pub enum RequiredKey {
    MemTotal,
    MemFree,
    Buffers,
    Cached,
    SReclaimable,
}

/// The required key at position `i` of the lookup order.
pub open spec fn key_at(i: int) -> RequiredKey {
    if i == 0 {
        RequiredKey::MemTotal
    } else if i == 1 {
        RequiredKey::MemFree
    } else if i == 2 {
        RequiredKey::Buffers
    } else if i == 3 {
        RequiredKey::Cached
    } else {
        RequiredKey::SReclaimable
    }
}

pub open spec fn ascii_bytes(s: Seq<char>) -> Seq<u8> {
    s.map_values(|c: char| c as u8)
}

impl RequiredKey {
    pub open spec fn spec_name(self) -> Seq<char> {
        match self {
            RequiredKey::MemTotal => "MemTotal"@,
            RequiredKey::MemFree => "MemFree"@,
            RequiredKey::Buffers => "Buffers"@,
            RequiredKey::Cached => "Cached"@,
            RequiredKey::SReclaimable => "SReclaimable"@,
        }
    }

    /// The key as it is written before the colon of its line.
    pub open spec fn name_bytes(self) -> Seq<u8> {
        ascii_bytes(self.spec_name())
    }

    /// The key's name.
    pub fn name(&self) -> (r: &'static str)
        ensures
            r@ == self.spec_name(),
            is_ascii(r),
    {
        match self {
            RequiredKey::MemTotal => {
                proof {
                    reveal_strlit("MemTotal");
                }
                "MemTotal"
            },
            RequiredKey::MemFree => {
                proof {
                    reveal_strlit("MemFree");
                }
                "MemFree"
            },
            RequiredKey::Buffers => {
                proof {
                    reveal_strlit("Buffers");
                }
                "Buffers"
            },
            RequiredKey::Cached => {
                proof {
                    reveal_strlit("Cached");
                }
                "Cached"
            },
            RequiredKey::SReclaimable => {
                proof {
                    reveal_strlit("SReclaimable");
                }
                "SReclaimable"
            },
        }
    }

    fn name_as_bytes(&self) -> (r: &'static [u8])
        ensures
            r@ == self.name_bytes(),
    {
        let s = self.name();
        proof {
            broadcast use vstd::string::is_ascii_spec_bytes;

        }
        let b = s.as_bytes();
        assert(b@ =~= self.name_bytes());
        b
    }

    /// The key at position `i` of the lookup order.
    pub fn from_index(i: usize) -> (r: RequiredKey)
        requires
            i < KEY_COUNT,
        ensures
            r == key_at(i as int),
    {
        if i == 0 {
            RequiredKey::MemTotal
        } else if i == 1 {
            RequiredKey::MemFree
        } else if i == 2 {
            RequiredKey::Buffers
        } else if i == 3 {
            RequiredKey::Cached
        } else {
            RequiredKey::SReclaimable
        }
    }
}

pub proof fn lemma_names_distinct(a: RequiredKey, b: RequiredKey)
    requires
        a != b,
    ensures
        a.name_bytes() != b.name_bytes(),
{
    reveal_strlit("MemTotal");
    reveal_strlit("MemFree");
    reveal_strlit("Buffers");
    reveal_strlit("Cached");
    reveal_strlit("SReclaimable");
    assert(a.name_bytes().len() == a.spec_name().len());
    assert(b.name_bytes().len() == b.spec_name().len());
    if a.spec_name().len() == b.spec_name().len() {
        assert(a.name_bytes()[0] == a.spec_name()[0] as u8);
        assert(b.name_bytes()[0] == b.spec_name()[0] as u8);
    }
}

/// Ways in which a line breaks the `Key: value unit` layout.
#[derive(Clone, Copy, Debug, PartialEq, Eq, Structural)]
pub enum FormatErr {
    /// A line names a required key but has no colon after it.
    MissingColon,
    /// The line is shorter than the unit suffix, or the suffix does not start at a
    /// character boundary.
    LineTooShort,
    /// No whitespace precedes the numeric field.
    NoWhitespace,
}

/// Why a source could not be indexed or polled.
#[derive(Clone, Copy, Debug, PartialEq, Eq, Structural)]
pub enum MemErr {
    /// A line does not have the expected layout.
    UnexpectedFormat(FormatErr),
    /// A required key is not where it is expected: absent from the source when the
    /// index is built, or no longer on its indexed line when it is read.
    MissingValue(RequiredKey),
    /// The source has fewer lines than the index expects.
    LineCountChanged,
    /// The numeric field is not an unsigned integer that fits a `usize`.
    ParseMemoryValue,
}

impl FormatErr {
    pub open spec fn spec_message(self) -> Seq<char> {
        match self {
            FormatErr::MissingColon => "missing colon (:)"@,
            FormatErr::LineTooShort => "line is too short"@,
            FormatErr::NoWhitespace => "line doesn't contain any whitespace"@,
        }
    }

    /// A short description of the fault.
    pub fn message(&self) -> (r: &'static str)
        ensures
            r@ == self.spec_message(),
    {
        match self {
            FormatErr::MissingColon => "missing colon (:)",
            FormatErr::LineTooShort => "line is too short",
            FormatErr::NoWhitespace => "line doesn't contain any whitespace",
        }
    }
}

/// A whitespace character of one byte: tab, line feed, vertical tab, form feed,
/// carriage return, space.
pub open spec fn is_ascii_space(b: u8) -> bool {
    b == SPACE || (9 <= b <= 13)
}

/// The UTF-8 encoding of a two-byte whitespace character: U+0085 or U+00A0.
pub open spec fn is_space2(a: u8, b: u8) -> bool {
    a == 0xC2 && (b == 0x85 || b == 0xA0)
}

/// The UTF-8 encoding of a three-byte whitespace character: U+1680, U+2000 to U+200A,
/// U+2028, U+2029, U+202F, U+205F or U+3000.
pub open spec fn is_space3(a: u8, b: u8, c: u8) -> bool {
    ||| a == 0xE1 && b == 0x9A && c == 0x80
    ||| a == 0xE2 && b == 0x80 && ((0x80 <= c <= 0x8A) || c == 0xA8 || c == 0xA9 || c == 0xAF)
    ||| a == 0xE2 && b == 0x81 && c == 0x9F
    ||| a == 0xE3 && b == 0x80 && c == 0x80
}

/// Whether the bytes of `l` just before position `j` encode a whitespace character
/// (the White_Space characters of Unicode, which `char::is_whitespace` accepts).
pub open spec fn space_ends_at(l: Seq<u8>, j: int) -> bool {
    ||| 1 <= j <= l.len() && is_ascii_space(l[j - 1])
    ||| 2 <= j <= l.len() && is_space2(l[j - 2], l[j - 1])
    ||| 3 <= j <= l.len() && is_space3(l[j - 3], l[j - 2], l[j - 1])
}

/// The position just after the last whitespace character that ends at or before `end`,
/// or -1 when there is none.
pub open spec fn last_space_end(l: Seq<u8>, end: int) -> int
    decreases end,
{
    if end <= 0 {
        -1
    } else if space_ends_at(l, end) {
        end
    } else {
        last_space_end(l, end - 1)
    }
}

/// A UTF-8 continuation byte: no character starts there.
pub open spec fn is_continuation(b: u8) -> bool {
    0x80 <= b <= 0xBF
}

/// The value of a line `Key: value unit`: the unsigned integer between the last
/// whitespace character before the unit suffix and the suffix itself. The suffix must
/// start at a character boundary.
pub open spec fn value_of_line(l: Seq<u8>) -> Result<usize, MemErr> {
    if l.len() < SUFFIX_LEN || is_continuation(l[l.len() - SUFFIX_LEN]) {
        Err(MemErr::UnexpectedFormat(FormatErr::LineTooShort))
    } else {
        let end = l.len() - SUFFIX_LEN;
        let w = last_space_end(l, end);
        if w < 0 {
            Err(MemErr::UnexpectedFormat(FormatErr::NoWhitespace))
        } else {
            match parse_usize(l.subrange(w, end)) {
                Some(v) => Ok(v),
                None => Err(MemErr::ParseMemoryValue),
            }
        }
    }
}

/// The key token of a line: what stands before its first colon, or the whole line
/// when it has none.
pub open spec fn line_key(line: Seq<u8>) -> Seq<u8> {
    line.subrange(0, find_from(line, COLON, 0))
}

/// The key of a line: what stands before its first colon, if it has one.
pub open spec fn key_of(line: Seq<u8>) -> Option<Seq<u8>> {
    let c = find_from(line, COLON, 0);
    if c < line.len() {
        Some(line.subrange(0, c))
    } else {
        None
    }
}

/// Whether a whitespace character of the line `s[a..b]` ends at `a + j`.
fn space_ends_at_exec(s: &[u8], a: usize, b: usize, j: usize) -> (r: bool)
    requires
        a <= b <= s@.len(),
        j <= b - a,
    ensures
        r == space_ends_at(s@.subrange(a as int, b as int), j as int),
{
    let ghost l = s@.subrange(a as int, b as int);
    let p = a + j;
    if j >= 1 {
        assert(l[j - 1] == s@[p - 1]);
    }
    if j >= 2 {
        assert(l[j - 2] == s@[p - 2]);
    }
    if j >= 3 {
        assert(l[j - 3] == s@[p - 3]);
    }
    let one = j >= 1 && (s[p - 1] == SPACE || (9 <= s[p - 1] && s[p - 1] <= 13));
    let two = j >= 2 && s[p - 2] == 0xC2 && (s[p - 1] == 0x85 || s[p - 1] == 0xA0);
    let three = if j >= 3 {
        let x = s[p - 3];
        let y = s[p - 2];
        let z = s[p - 1];
        (x == 0xE1 && y == 0x9A && z == 0x80) || (x == 0xE2 && y == 0x80 && ((0x80 <= z
            && z <= 0x8A) || z == 0xA8 || z == 0xA9 || z == 0xAF)) || (x == 0xE2 && y == 0x81
            && z == 0x9F) || (x == 0xE3 && y == 0x80 && z == 0x80)
    } else {
        false
    };
    one || two || three
}

/// Extracts the value of the line `s[a..b]`.
fn value_in_range(s: &[u8], a: usize, b: usize) -> (r: Result<usize, MemErr>)
    requires
        a <= b <= s@.len(),
    ensures
        r == value_of_line(s@.subrange(a as int, b as int)),
{
    let ghost l = s@.subrange(a as int, b as int);
    if b - a < SUFFIX_LEN {
        return Err(MemErr::UnexpectedFormat(FormatErr::LineTooShort));
    }
    let end: usize = b - SUFFIX_LEN;
    assert(l[end - a] == s@[end as int]);
    if 0x80 <= s[end] && s[end] <= 0xBF {
        return Err(MemErr::UnexpectedFormat(FormatErr::LineTooShort));
    }
    let mut j: usize = end - a;
    while j > 0 && !space_ends_at_exec(s, a, b, j)
        invariant
            j <= end - a,
            a <= end,
            end + SUFFIX_LEN == b,
            b <= s@.len(),
            l == s@.subrange(a as int, b as int),
            last_space_end(l, (end - a) as int) == last_space_end(l, j as int),
        decreases j,
    {
        j = j - 1;
    }
    if j == 0 {
        return Err(MemErr::UnexpectedFormat(FormatErr::NoWhitespace));
    }
    assert(l.subrange(j as int, end - a) =~= s@.subrange(a + j, end as int));
    match parse_usize_range(s, a + j, end) {
        Some(v) => Ok(v),
        None => Err(MemErr::ParseMemoryValue),
    }
}

/// Extracts the value of a line `Key: value unit`.
pub fn parse_kb_value_from_line(line: &[u8]) -> (r: Result<usize, MemErr>)
    ensures
        r == value_of_line(line@),
{
    assert(line@.subrange(0, line@.len() as int) =~= line@);
    value_in_range(line, 0, line.len())
}

/// Finds the colon that ends the key of the line `s[a..b]`.
fn key_end(s: &[u8], a: usize, b: usize) -> (r: Option<usize>)
    requires
        a <= b <= s@.len(),
    ensures
        match r {
            Some(c) => a <= c < b && key_of(s@.subrange(a as int, b as int)) == Some(
                s@.subrange(a as int, c as int),
            ),
            None => key_of(s@.subrange(a as int, b as int)) is None,
        },
{
    let i = find_in_range(s, a, b, COLON);
    if i == b {
        None
    } else {
        assert(s@.subrange(a as int, b as int).subrange(0, i - a) =~= s@.subrange(
            a as int,
            i as int,
        ));
        Some(i)
    }
}

/// The line `line` carries the key `k`.
pub open spec fn has_key(line: Seq<u8>, k: RequiredKey) -> bool {
    line_key(line) == k.name_bytes()
}

/// Index of the first line at or after `from` whose key is `k`, or `ls.len()` when
/// there is none.
pub open spec fn first_line_of(ls: Seq<Seq<u8>>, k: RequiredKey, from: int) -> int
    decreases ls.len() - from,
{
    if 0 <= from < ls.len() {
        if has_key(ls[from], k) {
            from
        } else {
            first_line_of(ls, k, from + 1)
        }
    } else {
        ls.len() as int
    }
}

/// The zero-based line on which key `k` first appears, or `ls.len()` when it is absent.
pub open spec fn key_line(ls: Seq<Seq<u8>>, k: RequiredKey) -> int {
    first_line_of(ls, k, 0)
}

proof fn lemma_first_line_at(ls: Seq<Seq<u8>>, k: RequiredKey, from: int, i: int)
    requires
        0 <= from <= i <= ls.len(),
        forall|j: int| from <= j < i ==> !has_key(#[trigger] ls[j], k),
        i == ls.len() || has_key(ls[i], k),
    ensures
        first_line_of(ls, k, from) == i,
    decreases i - from,
{
    if from < i {
        lemma_first_line_at(ls, k, from + 1, i);
    }
}

proof fn lemma_first_line_found(ls: Seq<Seq<u8>>, k: RequiredKey, from: int)
    requires
        0 <= from <= ls.len(),
    ensures
        from <= first_line_of(ls, k, from) <= ls.len(),
        first_line_of(ls, k, from) < ls.len() ==> has_key(ls[first_line_of(ls, k, from)], k),
    decreases ls.len() - from,
{
    if from < ls.len() && !has_key(ls[from], k) {
        lemma_first_line_found(ls, k, from + 1);
    }
}

pub open spec fn starts_with(l: Seq<u8>, p: Seq<u8>) -> bool {
    p.len() <= l.len() && l.subrange(0, p.len() as int) == p
}

/// The line begins with the name of a required key.
pub open spec fn starts_with_required(l: Seq<u8>) -> bool {
    exists|m: int| 0 <= m < KEY_COUNT && #[trigger] starts_with(l, key_at(m).name_bytes())
}

/// A line that names a required key but has no colon after it.
pub open spec fn malformed_key_line(l: Seq<u8>) -> bool {
    key_of(l) is None && starts_with_required(l)
}

/// No line of `ls` names a required key without a colon.
pub open spec fn no_malformed(ls: Seq<Seq<u8>>) -> bool {
    forall|i: int| 0 <= i < ls.len() ==> !#[trigger] malformed_key_line(ls[i])
}

/// The first required key, from position `j` of the lookup order on, that no line of
/// `ls` carries.
pub open spec fn first_missing(ls: Seq<Seq<u8>>, j: int) -> Option<RequiredKey>
    decreases KEY_COUNT - j,
{
    if j < 0 || j >= KEY_COUNT {
        None
    } else if key_line(ls, key_at(j)) >= ls.len() {
        Some(key_at(j))
    } else {
        first_missing(ls, j + 1)
    }
}

/// Whether a source with lines `ls` can be indexed, and if not, why.
pub open spec fn index_outcome(ls: Seq<Seq<u8>>) -> Result<(), MemErr> {
    if !no_malformed(ls) {
        Err(MemErr::UnexpectedFormat(FormatErr::MissingColon))
    } else {
        match first_missing(ls, 0) {
            Some(k) => Err(MemErr::MissingValue(k)),
            None => Ok(()),
        }
    }
}

pub open spec fn key_listed(entries: Seq<(usize, RequiredKey)>, k: RequiredKey) -> bool {
    exists|i: int| 0 <= i < entries.len() && (#[trigger] entries[i]).1 == k
}

/// Line numbers strictly increase along `entries`.
pub open spec fn strictly_sorted(entries: Seq<(usize, RequiredKey)>) -> bool {
    forall|i: int, j: int|
        0 <= i < j < entries.len() ==> (#[trigger] entries[i]).0 < (#[trigger] entries[j]).0
}

/// A line index: one entry per required key, in increasing line order.
pub open spec fn lookup_ok(entries: Seq<(usize, RequiredKey)>) -> bool {
    &&& entries.len() == KEY_COUNT
    &&& strictly_sorted(entries)
    &&& forall|k: RequiredKey| #[trigger] key_listed(entries, k)
}

/// `entries` is the line index of a source with lines `ls`: each required key with the
/// line on which it first appears.
pub open spec fn indexes(entries: Seq<(usize, RequiredKey)>, ls: Seq<Seq<u8>>) -> bool {
    &&& lookup_ok(entries)
    &&& forall|i: int|
        0 <= i < entries.len() ==> (#[trigger] entries[i]).0 == key_line(ls, entries[i].1)
            && entries[i].0 < ls.len()
}

/// The byte ranges of the key tokens of all lines of `s`; fails on a line that names a
/// required key without a colon.
fn collect_keys(s: &[u8]) -> (r: Result<Vec<(usize, usize)>, MemErr>)
    ensures
        match r {
            Ok(ks) => {
                &&& no_malformed(lines_of(s@))
                &&& ks@.len() == lines_of(s@).len()
                &&& forall|i: int|
                    0 <= i < ks@.len() ==> (#[trigger] ks@[i]).0 <= ks@[i].1 <= s@.len()
                        && line_key(lines_of(s@)[i]) == s@.subrange(ks@[i].0 as int, ks@[i].1 as int)
            },
            Err(e) => e == MemErr::UnexpectedFormat(FormatErr::MissingColon) && !no_malformed(
                lines_of(s@),
            ),
        },
{
    let ghost ls = lines_of(s@);
    let mut cur = LineCursor::new();
    proof {
        cur.lemma_new_wf(s@);
    }
    let mut ks: Vec<(usize, usize)> = Vec::new();
    loop
        invariant
            cur.wf(s@),
            ls == lines_of(s@),
            ks@.len() == cur.consumed,
            forall|i: int|
                0 <= i < ks@.len() ==> (#[trigger] ks@[i]).0 <= ks@[i].1 <= s@.len()
                    && line_key(ls[i]) == s@.subrange(ks@[i].0 as int, ks@[i].1 as int)
                    && !malformed_key_line(ls[i]),
        decreases ls.len() - cur.consumed,
    {
        let ghost i = cur.consumed as int;
        match cur.next_line(s) {
            None => {
                assert(no_malformed(ls)) by {
                    assert forall|j: int| 0 <= j < ls.len() implies !#[trigger] malformed_key_line(ls[j]) by {
                        assert(ks@[j].0 <= ks@[j].1);
                    }
                }
                return Ok(ks);
            },
            Some((a, b)) => {
                let c = find_in_range(s, a, b, COLON);
                assert(ls[i].subrange(0, c - a) =~= s@.subrange(a as int, c as int));
                if c == b && starts_with_required_key(s, a, b) {
                    assert(key_of(ls[i]) is None);
                    assert(malformed_key_line(ls[i]));
                    return Err(MemErr::UnexpectedFormat(FormatErr::MissingColon));
                }
                ks.push((a, c));
            },
        }
    }
}

/// Whether the line `s[a..b]` begins with the name of a required key.
fn starts_with_required_key(s: &[u8], a: usize, b: usize) -> (r: bool)
    requires
        a <= b <= s@.len(),
    ensures
        r == starts_with_required(s@.subrange(a as int, b as int)),
{
    let ghost l = s@.subrange(a as int, b as int);
    let mut i: usize = 0;
    while i < KEY_COUNT
        invariant
            i <= KEY_COUNT,
            a <= b <= s@.len(),
            l == s@.subrange(a as int, b as int),
            forall|m: int| 0 <= m < i ==> !#[trigger] starts_with(l, key_at(m).name_bytes()),
        decreases KEY_COUNT - i,
    {
        let name = RequiredKey::from_index(i).name_as_bytes();
        if name.len() <= b - a {
            assert(l.subrange(0, name@.len() as int) =~= s@.subrange(
                a as int,
                a + name@.len(),
            ));
            if range_eq(s, a, a + name.len(), name) {
                assert(starts_with(l, key_at(i as int).name_bytes()));
                return true;
            }
        }
        i = i + 1;
    }
    false
}

/// Whether the bytes `s[a..c]` are those of `t`.
fn range_eq(s: &[u8], a: usize, c: usize, t: &[u8]) -> (r: bool)
    requires
        a <= c <= s@.len(),
    ensures
        r == (s@.subrange(a as int, c as int) == t@),
{
    if c - a != t.len() {
        return false;
    }
    let mut i: usize = 0;
    while i < t.len()
        invariant
            i <= t@.len(),
            c - a == t@.len(),
            a <= c <= s@.len(),
            forall|j: int| 0 <= j < i ==> s@[a + j] == t@[j],
        decreases t@.len() - i,
    {
        if s[a + i] != t[i] {
            assert(s@.subrange(a as int, c as int)[i as int] != t@[i as int]);
            return false;
        }
        i = i + 1;
    }
    assert(s@.subrange(a as int, c as int) =~= t@);
    true
}

/// The line on which key `k` first appears, from the key ranges that `collect_keys` gave.
fn find_key_line(s: &[u8], ks: &Vec<(usize, usize)>, k: RequiredKey) -> (r: usize)
    requires
        ks@.len() == lines_of(s@).len(),
        forall|i: int|
            0 <= i < ks@.len() ==> (#[trigger] ks@[i]).0 <= ks@[i].1 <= s@.len()
                && line_key(lines_of(s@)[i]) == s@.subrange(ks@[i].0 as int, ks@[i].1 as int),
    ensures
        r == key_line(lines_of(s@), k),
        r <= ks@.len(),
        r < ks@.len() ==> has_key(lines_of(s@)[r as int], k),
{
    let ghost ls = lines_of(s@);
    let name = k.name_as_bytes();
    let mut i: usize = 0;
    while i < ks.len()
        invariant
            i <= ks@.len(),
            ks@.len() == ls.len(),
            ls == lines_of(s@),
            name@ == k.name_bytes(),
            forall|j: int| 0 <= j < i ==> !has_key(#[trigger] ls[j], k),
            forall|j: int|
                0 <= j < ks@.len() ==> (#[trigger] ks@[j]).0 <= ks@[j].1 <= s@.len()
                    && line_key(ls[j]) == s@.subrange(ks@[j].0 as int, ks@[j].1 as int),
        decreases ks@.len() - i,
    {
        let (a, c) = ks[i];
        assert(ks@[i as int] == (a, c));
        if range_eq(s, a, c, name) {
            proof {
                lemma_first_line_at(ls, k, 0, i as int);
            }
            return i;
        }
        i = i + 1;
    }
    proof {
        lemma_first_line_at(ls, k, 0, i as int);
    }
    i
}

/// Inserts `(p, k)` into `entries` where its line number keeps them in increasing order.
fn insert_sorted(entries: &mut Vec<(usize, RequiredKey)>, p: usize, k: RequiredKey) -> (idx: usize)
    requires
        strictly_sorted(old(entries)@),
        forall|i: int| 0 <= i < old(entries)@.len() ==> (#[trigger] old(entries)@[i]).0 != p,
    ensures
        idx <= old(entries)@.len(),
        final(entries)@ == old(entries)@.insert(idx as int, (p, k)),
        strictly_sorted(final(entries)@),
{
    let mut idx: usize = 0;
    while idx < entries.len() && entries[idx].0 < p
        invariant
            idx <= entries@.len(),
            forall|i: int| 0 <= i < idx ==> (#[trigger] entries@[i]).0 < p,
        decreases entries@.len() - idx,
    {
        idx = idx + 1;
    }
    let ghost before = entries@;
    entries.insert(idx, (p, k));
    proof {
        before.insert_ensures(idx as int, (p, k));
        assert forall|i: int, j: int|
            0 <= i < j < entries@.len() implies (#[trigger] entries@[i]).0 < (
            #[trigger] entries@[j]).0 by {
            if idx < before.len() {
                assert(before[idx as int].0 > p);
            }
            if j > idx && idx < before.len() {
                assert(before[j - 1].0 >= before[idx as int].0);
            }
        }
    }
    idx
}

/// Builds the line index of the source held in `buf`, and drains `buf`.
pub fn build_lookup_table(buf: &mut Vec<u8>) -> (r: Result<Vec<(usize, RequiredKey)>, MemErr>)
    ensures
        final(buf)@.len() == 0,
        match r {
            Ok(entries) => index_outcome(lines_of(old(buf)@)) == Ok::<(), MemErr>(())
                && indexes(entries@, lines_of(old(buf)@)),
            Err(e) => index_outcome(lines_of(old(buf)@)) == Err::<(), MemErr>(e),
        },
{
    let ghost ls = lines_of(buf@);
    let ks = match collect_keys(buf.as_slice()) {
        Ok(ks) => ks,
        Err(e) => {
            buf.clear();
            return Err(e);
        },
    };
    let mut lookup: Vec<(usize, RequiredKey)> = Vec::new();
    let mut j: usize = 0;
    while j < KEY_COUNT
        invariant
            j <= KEY_COUNT,
            buf@ == old(buf)@,
            ls == lines_of(buf@),
            no_malformed(ls),
            ks@.len() == ls.len(),
            forall|i: int|
                0 <= i < ks@.len() ==> (#[trigger] ks@[i]).0 <= ks@[i].1 <= buf@.len()
                    && line_key(ls[i]) == buf@.subrange(ks@[i].0 as int, ks@[i].1 as int),
            first_missing(ls, 0) == first_missing(ls, j as int),
            lookup@.len() == j,
            strictly_sorted(lookup@),
            forall|m: int| 0 <= m < j ==> #[trigger] key_listed(lookup@, key_at(m)),
            forall|i: int|
                0 <= i < lookup@.len() ==> (#[trigger] lookup@[i]).0 == key_line(ls, lookup@[i].1)
                    && lookup@[i].0 < ls.len() && exists|m: int| 0 <= m < j && lookup@[i].1 == key_at(m),
        decreases KEY_COUNT - j,
    {
        let k = RequiredKey::from_index(j);
        let p = find_key_line(buf.as_slice(), &ks, k);
        if p == ks.len() {
            buf.clear();
            return Err(MemErr::MissingValue(k));
        }
        proof {
            assert forall|i: int| 0 <= i < lookup@.len() implies (#[trigger] lookup@[i]).0 != p by {
                let m = choose|m: int| 0 <= m < j && lookup@[i].1 == key_at(m);
                let q = lookup@[i].0 as int;
                let kq = lookup@[i].1;
                assert(kq != k);
                lemma_names_distinct(kq, k);
                if q == p {
                    lemma_first_line_found(ls, kq, 0);
                }
            }
        }
        let ghost before = lookup@;
        let idx = insert_sorted(&mut lookup, p, k);
        proof {
            before.insert_ensures(idx as int, (p, k));
            assert forall|m: int| 0 <= m <= j implies #[trigger] key_listed(lookup@, key_at(m)) by {
                if m < j {
                    assert(key_listed(before, key_at(m)));
                    let w = choose|w: int| 0 <= w < before.len() && (#[trigger] before[w]).1 == key_at(m);
                    if w < idx {
                        assert(lookup@[w] == before[w]);
                    } else {
                        assert(lookup@[w + 1] == before[w]);
                    }
                } else {
                    assert(lookup@[idx as int] == (p, k));
                }
            }
            assert forall|i: int| 0 <= i < lookup@.len() implies (#[trigger] lookup@[i]).0 == key_line(
                ls,
                lookup@[i].1,
            ) && lookup@[i].0 < ls.len() && exists|m: int| 0 <= m < j + 1 && lookup@[i].1 == key_at(m) by {
                if i < idx {
                    assert(lookup@[i] == before[i]);
                } else if i > idx {
                    assert(lookup@[i] == before[i - 1]);
                } else {
                    assert(lookup@[i].1 == key_at(j as int));
                }
            }
        }
        j = j + 1;
    }
    proof {
        assert forall|k: RequiredKey| #[trigger] key_listed(lookup@, k) by {
            match k {
                RequiredKey::MemTotal => assert(key_listed(lookup@, key_at(0))),
                RequiredKey::MemFree => assert(key_listed(lookup@, key_at(1))),
                RequiredKey::Buffers => assert(key_listed(lookup@, key_at(2))),
                RequiredKey::Cached => assert(key_listed(lookup@, key_at(3))),
                RequiredKey::SReclaimable => assert(key_listed(lookup@, key_at(4))),
            }
        }
    }
    buf.clear();
    Ok(lookup)
}

/// The latest value read for each required key.
#[derive(Clone, Copy, Debug, PartialEq, Eq, Structural)]
pub struct MemValues {
    pub mem_total: usize,
    pub mem_free: usize,
    pub buffers: usize,
    pub cached: usize,
    pub s_reclaimable: usize,
}

impl MemValues {
    pub open spec fn spec_get(self, k: RequiredKey) -> usize {
        match k {
            RequiredKey::MemTotal => self.mem_total,
            RequiredKey::MemFree => self.mem_free,
            RequiredKey::Buffers => self.buffers,
            RequiredKey::Cached => self.cached,
            RequiredKey::SReclaimable => self.s_reclaimable,
        }
    }

    /// These values with the one of `k` replaced by `v`.
    pub open spec fn with(self, k: RequiredKey, v: usize) -> MemValues {
        match k {
            RequiredKey::MemTotal => MemValues { mem_total: v, ..self },
            RequiredKey::MemFree => MemValues { mem_free: v, ..self },
            RequiredKey::Buffers => MemValues { buffers: v, ..self },
            RequiredKey::Cached => MemValues { cached: v, ..self },
            RequiredKey::SReclaimable => MemValues { s_reclaimable: v, ..self },
        }
    }

    pub open spec fn spec_zeroed() -> MemValues {
        MemValues { mem_total: 0, mem_free: 0, buffers: 0, cached: 0, s_reclaimable: 0 }
    }

    /// Every value zero.
    pub fn zeroed() -> (r: MemValues)
        ensures
            r == Self::spec_zeroed(),
    {
        MemValues { mem_total: 0, mem_free: 0, buffers: 0, cached: 0, s_reclaimable: 0 }
    }

    /// The value of key `k`.
    pub fn get(&self, k: RequiredKey) -> (r: usize)
        ensures
            r == self.spec_get(k),
    {
        match k {
            RequiredKey::MemTotal => self.mem_total,
            RequiredKey::MemFree => self.mem_free,
            RequiredKey::Buffers => self.buffers,
            RequiredKey::Cached => self.cached,
            RequiredKey::SReclaimable => self.s_reclaimable,
        }
    }

    /// Replaces the value of key `k` with `v`.
    pub fn set(&mut self, k: RequiredKey, v: usize)
        ensures
            *final(self) == old(self).with(k, v),
    {
        match k {
            RequiredKey::MemTotal => self.mem_total = v,
            RequiredKey::MemFree => self.mem_free = v,
            RequiredKey::Buffers => self.buffers = v,
            RequiredKey::Cached => self.cached = v,
            RequiredKey::SReclaimable => self.s_reclaimable = v,
        }
    }
}

/// The derived memory figures of one poll.
#[derive(Clone, Copy, Debug, PartialEq, Eq, Structural)]
pub struct MemStats {
    pub total: usize,
    pub free: usize,
    pub used: usize,
}

/// Memory in use: total less free, buffers, page cache and reclaimable slab, or zero
/// where those together exceed the total.
pub open spec fn used_of(v: MemValues) -> int {
    let deducted = v.mem_free + v.buffers + v.cached + v.s_reclaimable;
    if v.mem_total >= deducted {
        v.mem_total - deducted
    } else {
        0
    }
}

pub open spec fn stats_of(v: MemValues) -> MemStats {
    MemStats { total: v.mem_total, free: v.mem_free, used: used_of(v) as usize }
}

impl MemStats {
    pub open spec fn spec_zeroed() -> MemStats {
        MemStats { total: 0, free: 0, used: 0 }
    }

    /// The figures derived from the values `v`.
    pub fn from_values(v: &MemValues) -> (r: MemStats)
        ensures
            r == stats_of(*v),
    {
        let mut used = v.mem_total;
        used = if used >= v.mem_free { used - v.mem_free } else { 0 };
        used = if used >= v.buffers { used - v.buffers } else { 0 };
        used = if used >= v.cached { used - v.cached } else { 0 };
        used = if used >= v.s_reclaimable { used - v.s_reclaimable } else { 0 };
        MemStats { total: v.mem_total, free: v.mem_free, used }
    }
}

impl Default for MemStats {
    fn default() -> (r: MemStats)
        ensures
            r == MemStats::spec_zeroed(),
    {
        MemStats { total: 0, free: 0, used: 0 }
    }
}

/// The value of key `k` read from its indexed line: the line must still carry `k`.
pub open spec fn read_line_value(line: Seq<u8>, k: RequiredKey) -> Result<usize, MemErr> {
    match key_of(line) {
        None => Err(MemErr::UnexpectedFormat(FormatErr::MissingColon)),
        Some(key) => if key == k.name_bytes() {
            value_of_line(line)
        } else {
            Err(MemErr::MissingValue(k))
        },
    }
}

/// The outcome of reading the entries of `entries` from position `i` on out of the lines
/// `ls`, starting from the values `vals`: the first entry whose line is gone or cannot be
/// read decides the error.
pub open spec fn poll_from(
    ls: Seq<Seq<u8>>,
    entries: Seq<(usize, RequiredKey)>,
    i: int,
    vals: MemValues,
) -> Result<MemValues, MemErr>
    decreases entries.len() - i,
{
    if 0 <= i < entries.len() {
        let p = entries[i].0;
        let k = entries[i].1;
        if p >= ls.len() {
            Err(MemErr::LineCountChanged)
        } else {
            match read_line_value(ls[p as int], k) {
                Err(e) => Err(e),
                Ok(v) => poll_from(ls, entries, i + 1, vals.with(k, v)),
            }
        }
    } else {
        Ok(vals)
    }
}

/// Reads the value of key `k` from the line `s[a..b]`.
fn line_value(s: &[u8], a: usize, b: usize, k: RequiredKey) -> (r: Result<usize, MemErr>)
    requires
        a <= b <= s@.len(),
    ensures
        r == read_line_value(s@.subrange(a as int, b as int), k),
{
    match key_end(s, a, b) {
        None => Err(MemErr::UnexpectedFormat(FormatErr::MissingColon)),
        Some(c) => {
            if range_eq(s, a, c, k.name_as_bytes()) {
                value_in_range(s, a, b)
            } else {
                Err(MemErr::MissingValue(k))
            }
        },
    }
}

/// Reads the memory status of a line-oriented source through a line index built once.
///
/// The index is a `Vec` kept in increasing line order (`lookup_ok`) rather than an
/// ordered map: the poll walks it front to back, and vstd specifies no in-order
/// iteration of `BTreeMap`. The cache holds one field per required key.
pub struct MemInfo {
    lookup: Vec<(usize, RequiredKey)>,
    cache: MemValues,
    stats: MemStats,
}

impl MemInfo {
    /// The line index: each required key with its line, in increasing line order.
    pub closed spec fn lookup_view(&self) -> Seq<(usize, RequiredKey)> {
        self.lookup@
    }

    /// The values read by the last successful poll.
    pub closed spec fn values(&self) -> MemValues {
        self.cache
    }

    /// The figures of the last successful poll.
    pub closed spec fn last_stats(&self) -> MemStats {
        self.stats
    }

    pub open spec fn wf(&self) -> bool {
        lookup_ok(self.lookup_view())
    }

    /// Indexes the source held in `buf`, and drains `buf` for the next read.
    pub fn new(buf: &mut Vec<u8>) -> (r: Result<MemInfo, MemErr>)
        ensures
            final(buf)@.len() == 0,
            match r {
                Ok(m) => {
                    &&& index_outcome(lines_of(old(buf)@)) == Ok::<(), MemErr>(())
                    &&& m.wf()
                    &&& indexes(m.lookup_view(), lines_of(old(buf)@))
                    &&& m.values() == MemValues::spec_zeroed()
                    &&& m.last_stats() == MemStats::spec_zeroed()
                },
                Err(e) => index_outcome(lines_of(old(buf)@)) == Err::<(), MemErr>(e),
            },
    {
        let lookup = build_lookup_table(buf)?;
        Ok(MemInfo { lookup, cache: MemValues::zeroed(), stats: MemStats::default() })
    }

    /// A copy of the line index.
    pub fn line_index(&self) -> (r: Vec<(usize, RequiredKey)>)
        ensures
            r@ == self.lookup_view(),
    {
        let mut r: Vec<(usize, RequiredKey)> = Vec::new();
        let mut i: usize = 0;
        while i < self.lookup.len()
            invariant
                i <= self.lookup@.len(),
                r@ == self.lookup@.subrange(0, i as int),
            decreases self.lookup@.len() - i,
        {
            r.push(self.lookup[i]);
            i = i + 1;
            assert(r@ =~= self.lookup@.subrange(0, i as int));
        }
        assert(self.lookup@.subrange(0, i as int) =~= self.lookup@);
        r
    }

    /// The figures of the last successful poll.
    pub fn last(&self) -> (r: MemStats)
        ensures
            r == self.last_stats(),
    {
        self.stats
    }

    /// Reads the indexed lines of `s`, walking forward from one indexed line to the next.
    fn poll_values(&self, s: &[u8]) -> (r: Result<MemValues, MemErr>)
        requires
            self.wf(),
        ensures
            r == poll_from(lines_of(s@), self.lookup_view(), 0, self.values()),
    {
        let ghost ls = lines_of(s@);
        let ghost entries = self.lookup@;
        let mut cur = LineCursor::new();
        proof {
            cur.lemma_new_wf(s@);
        }
        let mut vals = self.cache;
        let mut i: usize = 0;
        while i < self.lookup.len()
            invariant
                self.wf(),
                entries == self.lookup@,
                ls == lines_of(s@),
                i <= entries.len(),
                cur.wf(s@),
                cur.consumed == if i == 0 { 0 } else { entries[i - 1].0 + 1 },
                poll_from(ls, entries, 0, self.cache) == poll_from(ls, entries, i as int, vals),
            decreases entries.len() - i,
        {
            let (p, k) = self.lookup[i];
            assert(entries[i as int] == (p, k));
            if i > 0 {
                assert(entries[i - 1].0 < entries[i as int].0);
            }
            match cur.nth(s, p - cur.consumed) {
                None => {
                    return Err(MemErr::LineCountChanged);
                },
                Some((a, b)) => {
                    match line_value(s, a, b, k) {
                        Err(e) => {
                            return Err(e);
                        },
                        Ok(v) => {
                            vals.set(k, v);
                        },
                    }
                },
            }
            i = i + 1;
        }
        Ok(vals)
    }

    /// Polls the source held in `buf`: reads each indexed line, updates the cached
    /// values and derives fresh figures. `buf` is drained on every outcome; on an error
    /// nothing else changes.
    pub fn stats(&mut self, buf: &mut Vec<u8>) -> (r: Result<MemStats, MemErr>)
        requires
            old(self).wf(),
        ensures
            final(buf)@.len() == 0,
            final(self).wf(),
            final(self).lookup_view() == old(self).lookup_view(),
            match poll_from(lines_of(old(buf)@), old(self).lookup_view(), 0, old(self).values()) {
                Ok(v) => {
                    &&& r == Ok::<MemStats, MemErr>(stats_of(v))
                    &&& final(self).values() == v
                    &&& final(self).last_stats() == stats_of(v)
                },
                Err(e) => r == Err::<MemStats, MemErr>(e) && *final(self) == *old(self),
            },
    {
        let outcome = self.poll_values(buf.as_slice());
        buf.clear();
        match outcome {
            Ok(v) => {
                self.cache = v;
                self.stats = MemStats::from_values(&v);
                Ok(self.stats)
            },
            Err(e) => Err(e),
        }
    }
}

/// Key `k` has an entry at position `i` of `entries` or later.
pub open spec fn listed_from(entries: Seq<(usize, RequiredKey)>, i: int, k: RequiredKey) -> bool {
    exists|j: int| i <= j < entries.len() && (#[trigger] entries[j]).1 == k
}

proof fn lemma_poll_from_agrees(
    ls: Seq<Seq<u8>>,
    entries: Seq<(usize, RequiredKey)>,
    i: int,
    v: MemValues,
    w: MemValues,
)
    requires
        0 <= i <= entries.len(),
    ensures
        poll_from(ls, entries, i, v) is Err ==> poll_from(ls, entries, i, w) == poll_from(
            ls,
            entries,
            i,
            v,
        ),
        poll_from(ls, entries, i, v) is Ok ==> {
            &&& poll_from(ls, entries, i, w) is Ok
            &&& forall|k: RequiredKey|
                #[trigger] listed_from(entries, i, k) ==> poll_from(ls, entries, i, v)->Ok_0.spec_get(k)
                    == poll_from(ls, entries, i, w)->Ok_0.spec_get(k)
            &&& forall|k: RequiredKey|
                !#[trigger] listed_from(entries, i, k) ==> poll_from(ls, entries, i, v)->Ok_0.spec_get(k)
                    == v.spec_get(k)
        },
    decreases entries.len() - i,
{
    if i < entries.len() {
        let p = entries[i].0;
        let k = entries[i].1;
        if p < ls.len() {
            if let Ok(x) = read_line_value(ls[p as int], k) {
                let v2 = v.with(k, x);
                let w2 = w.with(k, x);
                lemma_poll_from_agrees(ls, entries, i + 1, v2, w2);
                lemma_poll_from_agrees(ls, entries, i + 1, w2, v2);
                if poll_from(ls, entries, i, v) is Ok {
                    assert forall|k2: RequiredKey| #[trigger] listed_from(entries, i, k2) implies poll_from(
                        ls,
                        entries,
                        i,
                        v,
                    )->Ok_0.spec_get(k2) == poll_from(ls, entries, i, w)->Ok_0.spec_get(k2) by {
                        if !listed_from(entries, i + 1, k2) {
                            let j = choose|j: int| i <= j < entries.len() && (#[trigger] entries[j]).1 == k2;
                            assert(j == i);
                        }
                    }
                    assert forall|k2: RequiredKey| !#[trigger] listed_from(entries, i, k2) implies poll_from(
                        ls,
                        entries,
                        i,
                        v,
                    )->Ok_0.spec_get(k2) == v.spec_get(k2) by {
                        assert(k2 != k);
                        if listed_from(entries, i + 1, k2) {
                            let j = choose|j: int| i + 1 <= j < entries.len() && (#[trigger] entries[j]).1 == k2;
                            assert(entries[j].1 == k2);
                        }
                    }
                }
            }
        }
    } else {
        assert forall|k2: RequiredKey| !#[trigger] listed_from(entries, i, k2) by {}
    }
}

/// Polling an unchanged source twice in a row gives the same outcome: a poll overwrites
/// every cached value, so what it returns does not depend on what the previous poll
/// left in the cache.
pub proof fn lemma_repoll_same_outcome(
    ls: Seq<Seq<u8>>,
    entries: Seq<(usize, RequiredKey)>,
    v: MemValues,
    w: MemValues,
)
    requires
        lookup_ok(entries),
    ensures
        poll_from(ls, entries, 0, v) == poll_from(ls, entries, 0, w),
{
    lemma_poll_from_agrees(ls, entries, 0, v, w);
    lemma_poll_from_agrees(ls, entries, 0, w, v);
    if poll_from(ls, entries, 0, v) is Ok {
        let a = poll_from(ls, entries, 0, v)->Ok_0;
        let b = poll_from(ls, entries, 0, w)->Ok_0;
        assert forall|k: RequiredKey| #[trigger] listed_from(entries, 0, k) by {
            assert(key_listed(entries, k));
            let j = choose|j: int| 0 <= j < entries.len() && (#[trigger] entries[j]).1 == k;
            assert(entries[j].1 == k);
        }
        assert(listed_from(entries, 0, RequiredKey::MemTotal));
        assert(a.spec_get(RequiredKey::MemTotal) == b.spec_get(RequiredKey::MemTotal));
        assert(listed_from(entries, 0, RequiredKey::MemFree));
        assert(a.spec_get(RequiredKey::MemFree) == b.spec_get(RequiredKey::MemFree));
        assert(listed_from(entries, 0, RequiredKey::Buffers));
        assert(a.spec_get(RequiredKey::Buffers) == b.spec_get(RequiredKey::Buffers));
        assert(listed_from(entries, 0, RequiredKey::Cached));
        assert(a.spec_get(RequiredKey::Cached) == b.spec_get(RequiredKey::Cached));
        assert(listed_from(entries, 0, RequiredKey::SReclaimable));
        assert(a.spec_get(RequiredKey::SReclaimable) == b.spec_get(RequiredKey::SReclaimable));
    }
}

proof fn lemma_first_missing_found(ls: Seq<Seq<u8>>, j: int, m: int)
    requires
        0 <= j <= m < KEY_COUNT,
        key_line(ls, key_at(m)) >= ls.len(),
    ensures
        first_missing(ls, j) is Some,
    decreases m - j,
{
    if j < m && key_line(ls, key_at(j)) < ls.len() {
        lemma_first_missing_found(ls, j + 1, m);
    }
}

proof fn lemma_first_missing_none(ls: Seq<Seq<u8>>, j: int)
    requires
        0 <= j <= KEY_COUNT,
        forall|k: RequiredKey| #[trigger] key_line(ls, k) < ls.len(),
    ensures
        first_missing(ls, j) is None,
    decreases KEY_COUNT - j,
{
    if j < KEY_COUNT {
        assert(key_line(ls, key_at(j)) < ls.len());
        lemma_first_missing_none(ls, j + 1);
    }
}

/// A source that lacks a required key cannot be indexed: the error is a missing key,
/// or a malformed line where some line names a required key without a colon.
pub proof fn lemma_missing_key_fails(ls: Seq<Seq<u8>>, k: RequiredKey)
    requires
        key_line(ls, k) >= ls.len(),
    ensures
        match index_outcome(ls) {
            Err(MemErr::MissingValue(_)) => no_malformed(ls),
            Err(MemErr::UnexpectedFormat(FormatErr::MissingColon)) => !no_malformed(ls),
            _ => false,
        },
{
    let m: int = match k {
        RequiredKey::MemTotal => 0,
        RequiredKey::MemFree => 1,
        RequiredKey::Buffers => 2,
        RequiredKey::Cached => 3,
        RequiredKey::SReclaimable => 4,
    };
    assert(key_at(m) == k);
    lemma_first_missing_found(ls, 0, m);
}

/// A source in which no line names a required key without a colon, and which holds
/// every required key as the key token of some line, can be indexed; `MemInfo::new` then lists each key with the line where it first appears.
pub proof fn lemma_complete_source_indexes(ls: Seq<Seq<u8>>)
    requires
        no_malformed(ls),
        forall|k: RequiredKey| #[trigger] key_line(ls, k) < ls.len(),
    ensures
        index_outcome(ls) == Ok::<(), MemErr>(()),
{
    lemma_first_missing_none(ls, 0);
}

/// A poll reads only the indexed lines: two sources with the same number of lines that
/// agree on every indexed line give the same outcome, whatever the other lines hold.
pub proof fn lemma_poll_reads_only_indexed_lines(
    ls1: Seq<Seq<u8>>,
    ls2: Seq<Seq<u8>>,
    entries: Seq<(usize, RequiredKey)>,
    i: int,
    vals: MemValues,
)
    requires
        0 <= i <= entries.len(),
        ls1.len() == ls2.len(),
        forall|j: int|
            i <= j < entries.len() && (#[trigger] entries[j]).0 < ls1.len() ==> ls1[entries[j].0 as int]
                == ls2[entries[j].0 as int],
    ensures
        poll_from(ls1, entries, i, vals) == poll_from(ls2, entries, i, vals),
    decreases entries.len() - i,
{
    if i < entries.len() {
        let p = entries[i].0;
        let k = entries[i].1;
        if p < ls1.len() {
            if let Ok(x) = read_line_value(ls1[p as int], k) {
                lemma_poll_reads_only_indexed_lines(ls1, ls2, entries, i + 1, vals.with(k, x));
            }
        }
    }
}

} // verus!
