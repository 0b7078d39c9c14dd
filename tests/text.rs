use meminfo::cpu::get_cpu_count;
use meminfo::text::{LineCursor, parse_usize_range};

fn ten_lines() -> Vec<u8> {
    let lines: Vec<String> = (0..10).map(|i| format!("line{}", i)).collect();
    (lines.join("\n") + "\n").into_bytes()
}

fn text_of(s: &[u8], r: (usize, usize)) -> &str {
    std::str::from_utf8(&s[r.0..r.1]).unwrap()
}

#[test]
fn cursor_delta_advance_visits_indexed_lines() {
    let s = ten_lines();
    let mut cur = LineCursor::new();
    let positions = [1usize, 4, 9];
    let mut last = 0usize;
    let mut advances = Vec::new();
    for &p in positions.iter() {
        advances.push(p - last);
        let r = cur.nth(&s, p - cur.consumed).unwrap();
        assert_eq!(text_of(&s, r), format!("line{}", p));
        assert_eq!(cur.consumed, p + 1);
        last = p;
    }
    assert_eq!(advances, vec![1, 3, 5]);
    assert_eq!(cur.next_line(&s), None);
}

#[test]
fn cursor_splits_lines() {
    let s = b"a\r\nb\n\nc".to_vec();
    let mut cur = LineCursor::new();
    let mut got = Vec::new();
    while let Some(r) = cur.next_line(&s) {
        got.push(text_of(&s, r).to_string());
    }
    assert_eq!(got, vec!["a", "b", "", "c"]);
}

#[test]
fn cursor_past_end() {
    let s = b"x\ny\n".to_vec();
    let mut cur = LineCursor::new();
    assert_eq!(cur.nth(&s, 2), None);
}

#[test]
fn parse_decimal_ranges() {
    let s = b"+18446744073709551615 18446744073709551616 + 12".to_vec();
    assert_eq!(parse_usize_range(&s, 0, 21), Some(usize::MAX));
    assert_eq!(parse_usize_range(&s, 22, 42), None);
    assert_eq!(parse_usize_range(&s, 43, 44), None);
    assert_eq!(parse_usize_range(&s, 45, 47), Some(12));
}

#[test]
fn cpu_count_of_range() {
    assert_eq!(get_cpu_count(b"0-7\n"), Some(8));
    assert_eq!(get_cpu_count(b"2-2"), Some(1));
}

#[test]
fn cpu_count_rejects_bad_ranges() {
    assert_eq!(get_cpu_count(b"0\n"), None);
    assert_eq!(get_cpu_count(b"5-1\n"), None);
    assert_eq!(get_cpu_count(b"0-4294967295\n"), None);
    assert_eq!(get_cpu_count(b""), None);
    assert_eq!(get_cpu_count(b"a-3"), None);
}
