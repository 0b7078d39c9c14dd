//! Byte-level model of line-oriented text: line splitting, a forward-only
//! line cursor, and unsigned decimal parsing.
use vstd::prelude::*;

verus! {

pub const NEWLINE: u8 = 10;

pub const CARRIAGE_RETURN: u8 = 13;

pub const PLUS: u8 = 43;

pub const ZERO: u8 = 48;

pub const NINE: u8 = 57;

/// Index of the first byte at or after `pos` that equals `b`, or `s.len()` when there is none.
pub open spec fn find_from(s: Seq<u8>, b: u8, pos: int) -> int
    decreases s.len() - pos,
{
    if 0 <= pos < s.len() {
        if s[pos] == b {
            pos
        } else {
            find_from(s, b, pos + 1)
        }
    } else {
        s.len() as int
    }
}

pub proof fn lemma_find_from_bounds(s: Seq<u8>, b: u8, pos: int)
    requires
        0 <= pos <= s.len(),
    ensures
        pos <= find_from(s, b, pos) <= s.len(),
    decreases s.len() - pos,
{
    if pos < s.len() && s[pos] != b {
        lemma_find_from_bounds(s, b, pos + 1);
    }
}

/// A scan that stops at `i` has found what `find_from` names.
pub proof fn lemma_find_from_at(s: Seq<u8>, b: u8, pos: int, i: int)
    requires
        0 <= pos <= i <= s.len(),
        forall|j: int| pos <= j < i ==> s[j] != b,
        i == s.len() || s[i] == b,
    ensures
        find_from(s, b, pos) == i,
    decreases i - pos,
{
    if pos < i {
        lemma_find_from_at(s, b, pos + 1, i);
    }
}

/// The text of a line that starts at `pos` and whose terminator (or the end of input)
/// is at `e`: a carriage return directly before a newline is not part of it.
pub open spec fn line_content(s: Seq<u8>, pos: int, e: int) -> Seq<u8> {
    if pos < e && e < s.len() && s[e - 1] == CARRIAGE_RETURN {
        s.subrange(pos, e - 1)
    } else {
        s.subrange(pos, e)
    }
}

/// The lines of `s` from byte `pos` on. Lines end at a newline or a carriage return
/// followed by a newline; the last line needs no terminator, and a terminator at the
/// very end opens no further, empty line.
pub open spec fn lines_from(s: Seq<u8>, pos: int) -> Seq<Seq<u8>>
    decreases s.len() - pos,
    via lines_from_decreases
{
    if 0 <= pos < s.len() {
        let e = find_from(s, NEWLINE, pos);
        if e < s.len() {
            seq![line_content(s, pos, e)] + lines_from(s, e + 1)
        } else {
            seq![line_content(s, pos, e)]
        }
    } else {
        seq![]
    }
}

#[via_fn]
proof fn lines_from_decreases(s: Seq<u8>, pos: int) {
    if 0 <= pos < s.len() {
        lemma_find_from_bounds(s, NEWLINE, pos);
    }
}

/// The lines of `s`, in order.
pub open spec fn lines_of(s: Seq<u8>) -> Seq<Seq<u8>> {
    lines_from(s, 0)
}

pub proof fn lemma_lines_from_len(s: Seq<u8>, pos: int)
    requires
        0 <= pos <= s.len(),
    ensures
        lines_from(s, pos).len() <= s.len() - pos,
    decreases s.len() - pos,
{
    if pos < s.len() {
        let e = find_from(s, NEWLINE, pos);
        lemma_find_from_bounds(s, NEWLINE, pos);
        if e + 1 <= s.len() {
            lemma_lines_from_len(s, e + 1);
        }
    }
}

/// A forward-only cursor over the lines of a buffer: `pos` is the byte where the next
/// line starts, `consumed` the number of lines already handed out.
pub struct LineCursor {
    pub pos: usize,
    pub consumed: usize,
}

impl LineCursor {
    /// The cursor stands after the first `consumed` lines of `s`.
    pub open spec fn wf(&self, s: Seq<u8>) -> bool {
        &&& self.pos <= s.len()
        &&& self.consumed <= lines_of(s).len()
        &&& lines_from(s, self.pos as int) == lines_of(s).subrange(
            self.consumed as int,
            lines_of(s).len() as int,
        )
    }

    /// A cursor before the first line.
    pub fn new() -> (r: LineCursor)
        ensures
            r.pos == 0,
            r.consumed == 0,
    {
        LineCursor { pos: 0, consumed: 0 }
    }

    pub proof fn lemma_new_wf(self, s: Seq<u8>)
        requires
            self.pos == 0,
            self.consumed == 0,
        ensures
            self.wf(s),
    {
        assert(lines_of(s).subrange(0, lines_of(s).len() as int) =~= lines_of(s));
    }

    /// Hands out the next line as the byte range `(start, end)` of `s`, or `None` once
    /// every line has been handed out.
    pub fn next_line(&mut self, s: &[u8]) -> (r: Option<(usize, usize)>)
        requires
            old(self).wf(s@),
        ensures
            final(self).wf(s@),
            match r {
                None => old(self).consumed == lines_of(s@).len() && *final(self) == *old(self),
                Some((a, b)) => {
                    &&& old(self).consumed < lines_of(s@).len()
                    &&& a <= b <= s@.len()
                    &&& s@.subrange(a as int, b as int) == lines_of(s@)[old(self).consumed as int]
                    &&& final(self).consumed == old(self).consumed + 1
                },
            },
    {
        let ghost ls = lines_of(s@);
        let start = self.pos;
        if start >= s.len() {
            assert(lines_from(s@, start as int) =~= seq![]);
            return None;
        }
        let mut i: usize = start;
        while i < s.len() && s[i] != NEWLINE
            invariant
                start <= i <= s@.len(),
                forall|j: int| start <= j < i ==> s@[j] != NEWLINE,
            decreases s@.len() - i,
        {
            i = i + 1;
        }
        proof {
            lemma_find_from_at(s@, NEWLINE, start as int, i as int);
            lemma_lines_from_len(s@, start as int);
            lemma_lines_from_len(s@, 0);
        }
        let end: usize = if start < i && i < s.len() && s[i - 1] == CARRIAGE_RETURN {
            i - 1
        } else {
            i
        };
        let next: usize = if i < s.len() {
            i + 1
        } else {
            s.len()
        };
        proof {
            let c = self.consumed as int;
            let rest = if i < s@.len() { lines_from(s@, i as int + 1) } else { seq![] };
            assert(lines_from(s@, start as int) == seq![line_content(s@, start as int, i as int)]
                + rest);
            assert(lines_from(s@, next as int) =~= rest);
            assert(ls.subrange(c, ls.len() as int)[0] == ls[c]);
            assert(ls.subrange(c + 1, ls.len() as int) =~= ls.subrange(c, ls.len() as int).subrange(
                1,
                ls.len() - c,
            ));
            assert((seq![line_content(s@, start as int, i as int)] + rest).subrange(
                1,
                ls.len() - c,
            ) =~= rest);
        }
        self.pos = next;
        self.consumed = self.consumed + 1;
        Some((start, end))
    }

    /// Skips `n` lines and hands out the one after them, as `next_line` does.
    pub fn nth(&mut self, s: &[u8], n: usize) -> (r: Option<(usize, usize)>)
        requires
            old(self).wf(s@),
        ensures
            final(self).wf(s@),
            match r {
                None => old(self).consumed + n >= lines_of(s@).len(),
                Some((a, b)) => {
                    &&& old(self).consumed + n < lines_of(s@).len()
                    &&& a <= b <= s@.len()
                    &&& s@.subrange(a as int, b as int) == lines_of(s@)[old(self).consumed + n]
                    &&& final(self).consumed == old(self).consumed + n + 1
                },
            },
    {
        let mut k: usize = 0;
        while k < n
            invariant
                k <= n,
                self.wf(s@),
                self.consumed == old(self).consumed + k,
            decreases n - k,
        {
            match self.next_line(s) {
                None => {
                    return None;
                },
                Some(_) => {},
            }
            k = k + 1;
        }
        self.next_line(s)
    }
}

pub open spec fn is_digit(b: u8) -> bool {
    ZERO <= b <= NINE
}

pub open spec fn all_digits(d: Seq<u8>) -> bool {
    forall|i: int| 0 <= i < d.len() ==> is_digit(#[trigger] d[i])
}

/// The number that the decimal digits `d` write, most significant first.
pub open spec fn digits_value(d: Seq<u8>) -> nat
    decreases d.len(),
{
    if d.len() == 0 {
        0
    } else {
        digits_value(d.drop_last()) * 10 + (d.last() - ZERO) as nat
    }
}

/// The digits of an unsigned number written with an optional leading plus sign.
pub open spec fn unsigned_digits(t: Seq<u8>) -> Seq<u8> {
    if t.len() > 0 && t[0] == PLUS {
        t.subrange(1, t.len() as int)
    } else {
        t
    }
}

/// What `t` denotes as a `usize` in decimal: an optional plus sign, then at least one
/// digit and nothing else, of a value that fits.
pub open spec fn parse_usize(t: Seq<u8>) -> Option<usize> {
    let d = unsigned_digits(t);
    if d.len() > 0 && all_digits(d) && digits_value(d) <= usize::MAX {
        Some(digits_value(d) as usize)
    } else {
        None
    }
}

pub proof fn lemma_digits_prefix_le(d: Seq<u8>, k: int)
    requires
        0 <= k <= d.len(),
        all_digits(d),
    ensures
        digits_value(d.subrange(0, k)) <= digits_value(d),
    decreases d.len() - k,
{
    if k < d.len() {
        let p = d.subrange(0, k + 1);
        assert(p.drop_last() =~= d.subrange(0, k));
        assert(is_digit(d[k]));
        lemma_digits_prefix_le(d, k + 1);
    } else {
        assert(d.subrange(0, k) =~= d);
    }
}

/// Reads the bytes `s[from..to]` as an unsigned decimal number.
pub fn parse_usize_range(s: &[u8], from: usize, to: usize) -> (r: Option<usize>)
    requires
        from <= to <= s@.len(),
    ensures
        r == parse_usize(s@.subrange(from as int, to as int)),
{
    let ghost t = s@.subrange(from as int, to as int);
    let mut first: usize = from;
    if first < to && s[first] == PLUS {
        first = first + 1;
    }
    let ghost d = s@.subrange(first as int, to as int);
    assert(d =~= unsigned_digits(t));
    if first == to {
        return None;
    }
    let mut i: usize = first;
    let mut acc: usize = 0;
    assert(s@.subrange(first as int, first as int) =~= seq![]);
    while i < to
        invariant
            first <= i <= to <= s@.len(),
            d == s@.subrange(first as int, to as int),
            d == unsigned_digits(t),
            t == s@.subrange(from as int, to as int),
            all_digits(s@.subrange(first as int, i as int)),
            acc == digits_value(s@.subrange(first as int, i as int)),
        decreases to - i,
    {
        let b = s[i];
        let ghost pre = s@.subrange(first as int, i as int + 1);
        assert(pre.drop_last() =~= s@.subrange(first as int, i as int));
        assert(pre.last() == b);
        if b < ZERO || b > NINE {
            assert(d[i - first] == b);
            return None;
        }
        let dig = (b - ZERO) as usize;
        if acc > (usize::MAX - dig) / 10 {
            assert(acc * 10 + dig > usize::MAX) by (nonlinear_arith)
                requires
                    acc > (usize::MAX - dig) / 10,
                    dig <= 9,
            ;
            proof {
                if all_digits(d) {
                    assert(d.subrange(0, i - first + 1) =~= pre);
                    lemma_digits_prefix_le(d, i - first + 1);
                }
            }
            return None;
        }
        assert(acc * 10 + dig <= usize::MAX) by (nonlinear_arith)
            requires
                acc <= (usize::MAX - dig) / 10,
                dig <= 9,
        ;
        acc = acc * 10 + dig;
        i = i + 1;
        assert(all_digits(s@.subrange(first as int, i as int))) by {
            assert forall|j: int| 0 <= j < pre.len() implies is_digit(#[trigger] pre[j]) by {
                if j < pre.len() - 1 {
                    assert(pre[j] == s@.subrange(first as int, i as int - 1)[j]);
                }
            }
        }
    }
    assert(s@.subrange(first as int, i as int) =~= d);
    Some(acc)
}

/// Position of the first byte `x` in `s[a..b]`, or `b` when there is none.
pub fn find_in_range(s: &[u8], a: usize, b: usize, x: u8) -> (r: usize)
    requires
        a <= b <= s@.len(),
    ensures
        a <= r <= b,
        r - a == find_from(s@.subrange(a as int, b as int), x, 0),
{
    let ghost l = s@.subrange(a as int, b as int);
    let mut i: usize = a;
    while i < b && s[i] != x
        invariant
            a <= i <= b <= s@.len(),
            l == s@.subrange(a as int, b as int),
            forall|j: int| 0 <= j < i - a ==> l[j] != x,
        decreases b - i,
    {
        assert(l[i - a] == s@[i as int]);
        i = i + 1;
    }
    if i < b {
        assert(l[i - a] == s@[i as int]);
    }
    proof {
        lemma_find_from_at(l, x, 0, i - a);
    }
    i
}

} // verus!
