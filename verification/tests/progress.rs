//! Progress lines and byte counts.

use kiss_cache::progress::{HumanBytes, Phase, REDRAW_INTERVAL};
use kiss_cache::prune::Progress;

fn human(n: u64) -> String {
    HumanBytes(n).to_text()
}

#[test]
fn byte_counts() {
    assert_eq!(human(0), "0 B");
    assert_eq!(human(1023), "1023 B");
    assert_eq!(human(1024), "1.00 KiB");
    assert_eq!(human(1536), "1.50 KiB");
    assert_eq!(human(1024 * 1024 - 1), "1023.99 KiB");
    assert_eq!(human(1024 * 1024), "1.00 MiB");
    assert_eq!(human(5 * 1024 * 1024 * 1024 + 10 * 1024 * 1024), "5.00 GiB");
    assert_eq!(human(1 << 40), "1.00 TiB");
    assert_eq!(human(3 << 49), "1.50 PiB");
    assert_eq!(human(1 << 60), "1.00 EiB");
    assert_eq!(human(u64::MAX), "15.99 EiB");
}

#[test]
fn byte_counts_are_cut_not_rounded() {
    for n in [1u64 << 10, 1 << 20, 12_345_678, 999_999_999_999, u64::MAX / 3] {
        let text = human(n);
        let (number, unit) = text.split_once(' ').unwrap();
        let power = ["B", "KiB", "MiB", "GiB", "TiB", "PiB", "EiB"]
            .iter()
            .position(|u| *u == unit)
            .unwrap();
        let shown = number.parse::<f64>().unwrap();
        let real = n as f64 / 1024f64.powi(power as i32);
        assert!(shown <= real + 1e-9 && real < shown + 0.02, "{n}: {text}");
    }
}

#[test]
fn a_live_phase_draws_its_first_line_at_once() {
    let mut p = Phase::new("Scanning", true);
    p.set_length(10);
    assert_eq!(p.set_position(3, 5), Some("\r\x1b[2KScanning [3/10]".to_string()));
    assert_eq!(p.line(), "Scanning [3/10]");
}

#[test]
fn lines_keep_their_distance() {
    let mut p = Phase::new("p", true);
    assert!(p.inc(1, 1000).is_some());
    assert!(p.inc(1, 1000 + REDRAW_INTERVAL - 1).is_none());
    assert_eq!(
        p.inc(1, 1000 + REDRAW_INTERVAL),
        Some("\r\x1b[2Kp [3/0]".to_string())
    );
    assert!(p.inc(1, 0).is_none(), "the clock went back");
}

#[test]
fn bytes_are_shown_once_there_are_some() {
    let mut p = Phase::new("Deleting", true);
    p.inc_length(2);
    p.inc_length(1);
    p.set_bytes(2048);
    assert_eq!(p.line(), "Deleting [0/3] 2.00 KiB");
    assert_eq!(p.finish(), Some("\r\x1b[2KDeleting [0/3] 2.00 KiB\n".to_string()));
    p.set_bytes(0);
    assert_eq!(p.line(), "Deleting [0/3]");
}

#[test]
fn counters_wrap_around() {
    let mut p = Phase::hidden();
    p.set_length(u64::MAX);
    p.inc_length(2);
    p.set_position(u64::MAX, 0);
    p.inc(3, 0);
    assert_eq!(p.line(), " [2/1]");
}

#[test]
fn a_hidden_phase_draws_nothing() {
    let mut all = Progress::hidden();
    for p in
        [&mut all.gcroots, &mut all.scanner, &mut all.keep, &mut all.rm_narinfo, &mut all.rm_nar]
    {
        assert_eq!(p.set_position(1, 0), None);
        assert_eq!(p.inc(1, u64::MAX), None);
        assert_eq!(p.finish(), None);
        assert_eq!(p.line(), " [2/0]");
    }
}
