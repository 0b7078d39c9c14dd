use meminfo::mem::{FormatErr, MemErr, MemInfo, MemStats, MemValues, RequiredKey, parse_kb_value_from_line};

fn sample() -> String {
    [
        "MemTotal:       16000 kB",
        "MemFree:         4000 kB",
        "MemAvailable:    9000 kB",
        "Buffers:          500 kB",
        "Cached:          3000 kB",
        "SwapCached:         0 kB",
        "Active:          6000 kB",
        "SReclaimable:     200 kB",
        "SUnreclaim:       100 kB",
    ]
    .join("\n")
        + "\n"
}

fn buf_of(s: &str) -> Vec<u8> {
    let mut b = Vec::with_capacity(meminfo::mem::INITIAL_BUF_SIZE);
    b.extend_from_slice(s.as_bytes());
    b
}

#[test]
fn value_extraction_round_trip() {
    assert_eq!(parse_kb_value_from_line(b"MemTotal:        16384 kB"), Ok(16384));
}

#[test]
fn value_extraction_accepts_plus_sign_and_zero() {
    assert_eq!(parse_kb_value_from_line(b"SwapCached: +7 kB"), Ok(7));
    assert_eq!(parse_kb_value_from_line(b"SwapCached:        0 kB"), Ok(0));
}

#[test]
fn value_extraction_unicode_whitespace() {
    assert_eq!(parse_kb_value_from_line("A:\u{00A0}5 kB".as_bytes()), Ok(5));
    assert_eq!(parse_kb_value_from_line("A:\u{3000}42 kB".as_bytes()), Ok(42));
    assert_eq!(parse_kb_value_from_line("A: 1\u{2028}7 kB".as_bytes()), Ok(7));
    assert_eq!(parse_kb_value_from_line("A:\u{0085}9 kB".as_bytes()), Ok(9));
}

#[test]
fn value_extraction_suffix_inside_a_character() {
    assert_eq!(
        parse_kb_value_from_line("A: 5\u{00A0}kB".as_bytes()),
        Err(MemErr::UnexpectedFormat(FormatErr::LineTooShort))
    );
}

#[test]
fn value_extraction_line_too_short() {
    assert_eq!(
        parse_kb_value_from_line(b"kB"),
        Err(MemErr::UnexpectedFormat(FormatErr::LineTooShort))
    );
    assert_eq!(
        parse_kb_value_from_line(b""),
        Err(MemErr::UnexpectedFormat(FormatErr::LineTooShort))
    );
}

#[test]
fn value_extraction_without_whitespace() {
    assert_eq!(
        parse_kb_value_from_line(b"MemTotal:16384 kB"),
        Err(MemErr::UnexpectedFormat(FormatErr::NoWhitespace))
    );
}

#[test]
fn value_extraction_invalid_integer() {
    assert_eq!(parse_kb_value_from_line(b"MemTotal:   12a4 kB"), Err(MemErr::ParseMemoryValue));
    assert_eq!(parse_kb_value_from_line(b"MemTotal:    kB"), Err(MemErr::ParseMemoryValue));
    assert_eq!(
        parse_kb_value_from_line(b"MemTotal: 999999999999999999999999 kB"),
        Err(MemErr::ParseMemoryValue)
    );
}

#[test]
fn derived_metric_identity() {
    let v = MemValues { mem_total: 16000, mem_free: 4000, buffers: 500, cached: 3000, s_reclaimable: 200 };
    let s = MemStats::from_values(&v);
    assert_eq!(s, MemStats { total: 16000, free: 4000, used: 8300 });
}

#[test]
fn derived_used_is_zero_when_deductions_exceed_total() {
    let v = MemValues { mem_total: 1000, mem_free: 800, buffers: 100, cached: 200, s_reclaimable: 0 };
    assert_eq!(MemStats::from_values(&v).used, 0);
}

#[test]
fn index_matches_key_positions() {
    let mut buf = buf_of(&sample());
    let info = MemInfo::new(&mut buf).unwrap();
    assert_eq!(
        info.line_index(),
        vec![
            (0, RequiredKey::MemTotal),
            (1, RequiredKey::MemFree),
            (3, RequiredKey::Buffers),
            (4, RequiredKey::Cached),
            (7, RequiredKey::SReclaimable),
        ]
    );
}

#[test]
fn index_follows_any_line_order() {
    let text = "Zswap: 1 kB\nSReclaimable: 5 kB\nCached: 4 kB\r\nMemFree: 2 kB\nBuffers: 3 kB\nMemTotal: 1 kB";
    let mut buf = buf_of(text);
    let mut info = MemInfo::new(&mut buf).unwrap();
    assert_eq!(
        info.line_index(),
        vec![
            (1, RequiredKey::SReclaimable),
            (2, RequiredKey::Cached),
            (3, RequiredKey::MemFree),
            (4, RequiredKey::Buffers),
            (5, RequiredKey::MemTotal),
        ]
    );
    let mut buf = buf_of("Zswap: 1 kB\nSReclaimable: 50 kB\nCached: 400 kB\r\nMemFree: 2000 kB\nBuffers: 30 kB\nMemTotal: 10000 kB");
    let s = info.stats(&mut buf).unwrap();
    assert_eq!(s, MemStats { total: 10000, free: 2000, used: 7520 });
}

#[test]
fn missing_key_fails_construction() {
    let text = sample().replace("Buffers:", "Bufferz:");
    let mut buf = buf_of(&text);
    let r = MemInfo::new(&mut buf);
    assert_eq!(r.err(), Some(MemErr::MissingValue(RequiredKey::Buffers)));
    assert!(buf.is_empty());
}

#[test]
fn first_missing_key_is_reported() {
    let mut buf = buf_of("Cached: 1 kB\n");
    assert_eq!(MemInfo::new(&mut buf).err(), Some(MemErr::MissingValue(RequiredKey::MemTotal)));
}

#[test]
fn empty_source_fails_construction() {
    let mut buf = Vec::new();
    assert_eq!(MemInfo::new(&mut buf).err(), Some(MemErr::MissingValue(RequiredKey::MemTotal)));
}

#[test]
fn colonless_other_lines_are_accepted() {
    let text = sample().replace("Active:", "Active") + "\n";
    let mut buf = buf_of(&text);
    let info = MemInfo::new(&mut buf).unwrap();
    assert_eq!(info.line_index()[4], (7, RequiredKey::SReclaimable));
}

#[test]
fn malformed_line_fails_construction() {
    let text = sample().replace("MemFree:", "MemFree");
    let mut buf = buf_of(&text);
    assert_eq!(
        MemInfo::new(&mut buf).err(),
        Some(MemErr::UnexpectedFormat(FormatErr::MissingColon))
    );
}

#[test]
fn malformed_indexed_line_fails_poll() {
    let mut buf = buf_of(&sample());
    let mut info = MemInfo::new(&mut buf).unwrap();
    let mut buf = buf_of(&sample().replace("Cached:          3000", "Cached           3000"));
    assert_eq!(info.stats(&mut buf), Err(MemErr::UnexpectedFormat(FormatErr::MissingColon)));
}

#[test]
fn stats_derives_from_source() {
    let mut buf = buf_of(&sample());
    let mut info = MemInfo::new(&mut buf).unwrap();
    assert_eq!(info.last(), MemStats::default());
    buf.extend_from_slice(sample().as_bytes());
    let s = info.stats(&mut buf).unwrap();
    assert_eq!(s, MemStats { total: 16000, free: 4000, used: 8300 });
    assert_eq!(info.last(), s);
}

#[test]
fn repoll_unchanged_source_is_identical() {
    let mut buf = buf_of(&sample());
    let mut info = MemInfo::new(&mut buf).unwrap();
    buf.extend_from_slice(sample().as_bytes());
    let first = info.stats(&mut buf).unwrap();
    buf.extend_from_slice(sample().as_bytes());
    let second = info.stats(&mut buf).unwrap();
    assert_eq!(first, second);
}

#[test]
fn buffer_is_drained_after_every_poll() {
    let mut buf = buf_of(&sample());
    let mut info = MemInfo::new(&mut buf).unwrap();
    assert!(buf.is_empty());
    let cap = buf.capacity();
    for _ in 0..5 {
        buf.extend_from_slice(sample().as_bytes());
        info.stats(&mut buf).unwrap();
        assert!(buf.is_empty());
    }
    assert!(buf.capacity() >= cap);
    buf.extend_from_slice(b"MemTotal: 1 kB\n");
    assert!(info.stats(&mut buf).is_err());
    assert!(buf.is_empty());
}

#[test]
fn shrunk_source_fails_poll_and_keeps_stats() {
    let mut buf = buf_of(&sample());
    let mut info = MemInfo::new(&mut buf).unwrap();
    buf.extend_from_slice(sample().as_bytes());
    let before = info.stats(&mut buf).unwrap();
    buf.extend_from_slice(b"MemTotal: 1 kB\nMemFree: 1 kB\n");
    assert_eq!(info.stats(&mut buf), Err(MemErr::LineCountChanged));
    assert_eq!(info.last(), before);
}

#[test]
fn moved_key_fails_poll() {
    let mut buf = buf_of(&sample());
    let mut info = MemInfo::new(&mut buf).unwrap();
    let moved = sample().replace("MemAvailable:    9000 kB\nBuffers:          500 kB", "Buffers:          500 kB\nMemAvailable:    9000 kB");
    buf.extend_from_slice(moved.as_bytes());
    assert_eq!(info.stats(&mut buf), Err(MemErr::MissingValue(RequiredKey::Buffers)));
}

#[test]
fn bad_value_fails_poll() {
    let mut buf = buf_of(&sample());
    let mut info = MemInfo::new(&mut buf).unwrap();
    buf.extend_from_slice(sample().replace("4000 kB", "4x00 kB").as_bytes());
    assert_eq!(info.stats(&mut buf), Err(MemErr::ParseMemoryValue));
}

#[test]
fn key_names() {
    assert_eq!(RequiredKey::SReclaimable.name(), "SReclaimable");
    assert_eq!(RequiredKey::from_index(2), RequiredKey::Buffers);
    assert_eq!(FormatErr::MissingColon.message(), "missing colon (:)");
    assert_eq!(FormatErr::NoWhitespace.message(), "line doesn't contain any whitespace");
}

#[test]
fn values_get_and_set() {
    let mut v = MemValues::zeroed();
    v.set(RequiredKey::Cached, 42);
    assert_eq!(v.get(RequiredKey::Cached), 42);
    assert_eq!(v.get(RequiredKey::MemTotal), 0);
}

#[test]
fn other_lines_do_not_affect_poll() {
    let mut buf = buf_of(&sample());
    let mut info = MemInfo::new(&mut buf).unwrap();
    buf.extend_from_slice(sample().as_bytes());
    let first = info.stats(&mut buf).unwrap();
    let scrambled = sample()
        .replace("MemAvailable:    9000 kB", "garbage")
        .replace("Active:          6000 kB", "x");
    buf.extend_from_slice(scrambled.as_bytes());
    assert_eq!(info.stats(&mut buf), Ok(first));
}
