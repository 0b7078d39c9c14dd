//! The number of CPUs that a `start-end` range names.
use vstd::prelude::*;
use crate::text::{LineCursor, find_from, find_in_range, lines_of, parse_usize, parse_usize_range};

verus! {

pub const DASH: u8 = 45;

/// CPU time figures.
pub struct CpuStats;

/// What `t` denotes as a `u32` in decimal.
pub open spec fn parse_u32(t: Seq<u8>) -> Option<u32> {
    match parse_usize(t) {
        Some(v) => if v <= u32::MAX {
            Some(v as u32)
        } else {
            None
        },
        None => None,
    }
}

/// The number of CPUs that the first line of `s` names as `start-end`, both ends
/// counted: `None` when the line is not of that form, the end precedes the start, or
/// the count does not fit a `u32`.
pub open spec fn cpu_count_of(s: Seq<u8>) -> Option<u32> {
    let ls = lines_of(s);
    if ls.len() == 0 {
        None
    } else {
        let l = ls[0];
        let d = find_from(l, DASH, 0);
        if d >= l.len() {
            None
        } else {
            match (parse_u32(l.subrange(0, d)), parse_u32(l.subrange(d + 1, l.len() as int))) {
                (Some(a), Some(b)) => if a <= b && b - a + 1 <= u32::MAX {
                    Some((b - a + 1) as u32)
                } else {
                    None
                },
                _ => None,
            }
        }
    }
}

fn parse_u32_range(s: &[u8], a: usize, b: usize) -> (r: Option<u32>)
    requires
        a <= b <= s@.len(),
    ensures
        r == parse_u32(s@.subrange(a as int, b as int)),
{
    match parse_usize_range(s, a, b) {
        Some(v) => if v <= u32::MAX as usize {
            Some(v as u32)
        } else {
            None
        },
        None => None,
    }
}

/// Counts the CPUs of a range such as `0-7` on the first line of `present`.
pub fn get_cpu_count(present: &[u8]) -> (r: Option<u32>)
    ensures
        r == cpu_count_of(present@),
{
    let mut cur = LineCursor::new();
    proof {
        cur.lemma_new_wf(present@);
    }
    let (a, b) = match cur.next_line(present) {
        None => {
            return None;
        },
        Some(range) => range,
    };
    let ghost l = present@.subrange(a as int, b as int);
    let d = find_in_range(present, a, b, DASH);
    if d == b {
        return None;
    }
    assert(l.subrange(0, d - a) =~= present@.subrange(a as int, d as int));
    assert(l.subrange(d - a + 1, l.len() as int) =~= present@.subrange(d + 1, b as int));
    let start = match parse_u32_range(present, a, d) {
        Some(v) => v,
        None => {
            return None;
        },
    };
    let end = match parse_u32_range(present, d + 1, b) {
        Some(v) => v,
        None => {
            return None;
        },
    };
    if start > end || end - start == u32::MAX {
        return None;
    }
    Some(end - start + 1)
}

} // verus!
