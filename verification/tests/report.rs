use pigtop::rate::{Rate, Traffic};
use pigtop::rates::ProcessBandwidth;
use pigtop::report::{report, report_line};

const SEC: u64 = 1_000_000_000;

fn row(pid: u32, name: &str, rx: u64, tx: u64, peak: u64) -> ProcessBandwidth {
    ProcessBandwidth {
        pid,
        name: name.to_string(),
        traffic: Traffic::new(rx, tx),
        elapsed: SEC,
        peak_rate: Rate::over(peak, SEC),
        peak_age: 7 * SEC + 1,
    }
}

#[test]
fn a_line_of_the_report() {
    assert_eq!(
        report_line(&row(501, "curl", 1536, 256, 1_048_576)),
        "  pid=501      curl                         rx=      1.5 KB/s  tx=      0.2 KB/s  \
         peak=   1024.0 KB/s (7s ago)"
    );
}

#[test]
fn wide_fields_are_not_cut() {
    let name = "a name of more than twenty-eight characters";
    assert_eq!(
        report_line(&row(1_234_567_890, name, 1 << 40, 0, 0)),
        format!(
            "  pid={:<8} {:<28} rx={:>9.1} KB/s  tx={:>9.1} KB/s  peak={:>9.1} KB/s ({}s ago)",
            1_234_567_890u32,
            name,
            (1u64 << 40) as f64 / 1024.0,
            0.0,
            0.0,
            7
        )
    );
}

#[test]
fn idle_processes_are_left_out() {
    let ranked = [row(1, "a", 0, 0, 5), row(2, "b", 0, 0, 0), row(3, "c", 0, 1, 0)];
    let lines = report(&ranked);
    assert_eq!(lines, vec![report_line(&ranked[0]), report_line(&ranked[2])]);
    assert!(report(&[]).is_empty());
}

#[test]
fn a_report_has_eight_lines_at_most() {
    let ranked: Vec<ProcessBandwidth> =
        (0..20u32).map(|i| row(i, "p", (i % 2) as u64, 0, 0)).collect();
    let lines = report(&ranked);
    assert_eq!(lines.len(), 8);
    assert_eq!(lines[0], report_line(&ranked[1]));
    assert_eq!(lines[7], report_line(&ranked[15]));
}
