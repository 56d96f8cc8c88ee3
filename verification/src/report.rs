//! The plain-text report of the diagnostic run.
use vstd::prelude::*;

use crate::menubar::string_views;
use crate::rate::NANOS_PER_SEC;
use crate::rates::{row_views, ProcessBandwidth, Row};
use crate::text::{
    decimal, format_kilobytes, kilobytes_text, padded, push_decimal, push_padded,
    push_right_aligned, right_aligned,
};

verus! {

/// Number of processes in a report.
pub const REPORT_LINES: usize = 8;

/// Whether a process has moved anything, now or at its peak.
pub open spec fn is_active(r: Row) -> bool {
    r.total_rate().m > 0 || r.peak_rate.m > 0
}

/// The lines of processes that have moved anything, in their order.
pub open spec fn active(rows: Seq<Row>) -> Seq<Row>
    decreases rows.len(),
{
    if rows.len() == 0 {
        Seq::empty()
    } else if is_active(rows.last()) {
        active(rows.drop_last()).push(rows.last())
    } else {
        active(rows.drop_last())
    }
}

pub open spec fn report_line_text(r: Row) -> Seq<char> {
    "  pid="@ + padded(decimal(r.pid as nat), 8) + " "@ + padded(r.name, 28) + " rx="@
        + right_aligned(kilobytes_text(r.rx_rate()), 9) + " KB/s  tx="@ + right_aligned(
        kilobytes_text(r.tx_rate()),
        9,
    ) + " KB/s  peak="@ + right_aligned(kilobytes_text(r.peak_rate), 9) + " KB/s ("@ + decimal(
        r.peak_age / NANOS_PER_SEC as nat,
    ) + "s ago)"@
}

pub fn report_line(p: &ProcessBandwidth) -> (line: String)
    ensures
        line@ == report_line_text(p@),
{
    let mut line = "  pid=".to_owned();
    let mut pid = String::new();
    push_decimal(&mut pid, p.pid as u128);
    assert(pid@ =~= decimal(p.pid as nat));
    push_padded(&mut line, pid.as_str(), 8);
    line.append(" ");
    push_padded(&mut line, p.name.as_str(), 28);
    line.append(" rx=");
    let rx = format_kilobytes(&p.rx_rate());
    push_right_aligned(&mut line, rx.as_str(), 9);
    line.append(" KB/s  tx=");
    let tx = format_kilobytes(&p.tx_rate());
    push_right_aligned(&mut line, tx.as_str(), 9);
    line.append(" KB/s  peak=");
    let peak = format_kilobytes(&p.peak_rate);
    push_right_aligned(&mut line, peak.as_str(), 9);
    line.append(" KB/s (");
    push_decimal(&mut line, (p.peak_age / NANOS_PER_SEC) as u128);
    line.append("s ago)");
    line
}

/// The lines of the first processes that have moved anything.
pub open spec fn report_texts(rows: Seq<Row>) -> Seq<Seq<char>> {
    Seq::new(
        if active(rows).len() < REPORT_LINES {
            active(rows).len()
        } else {
            REPORT_LINES as nat
        },
        |i: int| report_line_text(active(rows)[i]),
    )
}

proof fn lemma_active_head(rows: Seq<Row>, n: int)
    requires
        0 <= n <= rows.len(),
    ensures
        active(rows.take(n)).len() <= active(rows).len(),
        active(rows.take(n)) == active(rows).take(active(rows.take(n)).len() as int),
    decreases rows.len(),
{
    if n == rows.len() {
        assert(rows.take(n) =~= rows);
        assert(active(rows) =~= active(rows).take(active(rows).len() as int));
    } else {
        lemma_active_head(rows.drop_last(), n);
        assert(rows.drop_last().take(n) =~= rows.take(n));
        assert(active(rows.take(n)) =~= active(rows).take(active(rows.take(n)).len() as int));
    }
}

pub fn report(ranked: &[ProcessBandwidth]) -> (lines: Vec<String>)
    ensures
        string_views(lines@) == report_texts(row_views(ranked@)),
{
    let ghost rows = row_views(ranked@);
    let mut lines: Vec<String> = Vec::new();
    let mut i: usize = 0;
    while i < ranked.len() && lines.len() < REPORT_LINES
        invariant
            i <= ranked.len(),
            rows == row_views(ranked@),
            lines.len() <= REPORT_LINES,
            lines.len() == active(rows.take(i as int)).len(),
            forall|k: int|
                0 <= k < lines.len() ==> (#[trigger] lines[k])@ == report_line_text(
                    active(rows.take(i as int))[k],
                ),
        decreases ranked.len() - i,
    {
        let ghost before = active(rows.take(i as int));
        proof {
            assert(rows.take(i + 1).drop_last() =~= rows.take(i as int));
            assert(rows.take(i + 1).last() == ranked@[i as int]@);
        }
        let p = &ranked[i];
        if p.total_rate().significand() > 0 || p.peak_rate.significand() > 0 {
            lines.push(report_line(p));
        }
        i += 1;
        assert forall|k: int| 0 <= k < lines.len() implies (#[trigger] lines[k])@
            == report_line_text(active(rows.take(i as int))[k]) by {
            if k < before.len() {
                assert(active(rows.take(i as int))[k] == before[k]);
            }
        }
    }
    proof {
        lemma_active_head(rows, i as int);
        if i == ranked.len() {
            assert(rows.take(i as int) =~= rows);
        }
        assert forall|k: int| 0 <= k < lines.len() implies #[trigger] string_views(lines@)[k]
            == report_line_text(active(rows)[k]) by {
            assert(string_views(lines@)[k] == lines[k]@);
            assert(active(rows.take(i as int))[k] == active(rows)[k]);
        }
        assert(string_views(lines@) =~= report_texts(rows));
    }
    lines
}

} // verus!
