use rbackup::format::{done_message, fmt_bytes, fmt_eta, progress_text, status_text};
use rbackup::sync::Tally;

/// The byte formatting of the desktop tool, written with floats.
fn float_fmt_bytes(b: u64) -> String {
    let units = ["B", "KB", "MB", "GB", "TB"];
    let (mut v, mut i) = (b as f64, 0);
    while v >= 1024.0 && i < units.len() - 1 {
        v /= 1024.0;
        i += 1;
    }
    if i == 0 { format!("{b} B") } else { format!("{v:.1} {}", units[i]) }
}

#[test]
fn bytes_match_float_formatting() {
    let mut samples: Vec<u64> = vec![
        0, 1, 1023, 1024, 1025, 1075, 1076, 1127, 1126, 1536, 2047, 2048, 10239, 10240,
        1048575, 1048576, 1073741823, 1073741824, 1099511627775, 1099511627776,
        1125899906842624, u64::MAX, u64::MAX - 1, 1 << 53, (1 << 53) + 1, (1 << 53) + 3,
        (1 << 60) + 12345, 9_007_199_254_740_993, 18_014_398_509_481_985,
    ];
    // Values whose tenths fall exactly halfway: 10*b/1024 ends in .5.
    for k in 0..200u64 {
        samples.push(1024 + 51 * k);
        samples.push(1024 * 5 + k * 512 / 10);
        samples.push(k * 1024 + 512 / 10 * 2 + 6);
    }
    for k in 1..2000u64 {
        samples.push(k * 1024 / 20 * 10 + 1024);
        samples.push(k.wrapping_mul(0x9E37_79B9_7F4A_7C15));
        samples.push(k * 1_048_576 + k * 7919);
    }
    for b in samples {
        assert_eq!(fmt_bytes(b), float_fmt_bytes(b), "bytes {b}");
    }
}

#[test]
fn bytes_exact_ties() {
    // 10 * 1075 / 1024 = 10.498..; 10 * 1126.4 would tie; check a real tie:
    // b = 1024 * 1.05 = 1075.2 is not an integer, but 10 * b / 1024 = x.5 needs 10b = 1024q + 512.
    let mut b = 1024u64;
    let mut found = 0;
    while found < 50 && b < 1_000_000 {
        if (10 * b) % 1024 == 512 {
            assert_eq!(fmt_bytes(b), float_fmt_bytes(b), "tie at {b}");
            found += 1;
        }
        b += 1;
    }
    assert!(found > 0);
}

#[test]
fn eta_edges() {
    assert_eq!(fmt_eta(0), "0 s left");
    assert_eq!(fmt_eta(59), "59 s left");
    assert_eq!(fmt_eta(60), "1 min left");
    assert_eq!(fmt_eta(3599), "60 min left");
    assert_eq!(fmt_eta(3600), "1h 0m left");
    assert_eq!(fmt_eta(7322), "2h 2m left");
    assert_eq!(fmt_eta(u64::MAX), format!("{}h {}m left", u64::MAX / 3600, u64::MAX % 3600 / 60));
}

#[test]
fn progress_and_status_lines() {
    assert_eq!(progress_text(1536, 3 * 1024 * 1024 * 1024, 7), "1.5 KB / 3.0 GB · 7%");
    assert_eq!(
        status_text(r"C:\data\a.txt", 2, 10, None, r"F:\b"),
        r"a.txt (3/10) → F:\b"
    );
    assert_eq!(
        status_text(r"C:\data\big.iso", 0, 1, Some((2 * 1024 * 1024, 20)), r"F:\b"),
        r"big.iso (1/1) · 2.0 MB/s · 20 s left → F:\b"
    );
}

#[test]
fn closing_messages() {
    let none: Vec<String> = vec![];
    assert_eq!(
        done_message(0, &Tally::new(), 1, &none),
        "Done — everything was already backed up"
    );
    let copied = Tally { files: 3, bytes: 1536 };
    assert_eq!(
        done_message(3, &copied, 2, &none),
        "Done — 3 file(s), 1.5 KB copied to 2 destination(s)"
    );
    let errors = vec!["C:\\x: denied".to_string(), "C:\\y: gone".to_string()];
    assert_eq!(
        done_message(5, &copied, 2, &errors),
        "Done — 3 copied, 2 error(s). First: C:\\x: denied"
    );
}
