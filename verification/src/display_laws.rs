//! What the texts say of the processes that they are about.
use vstd::prelude::*;

use crate::double::{
    exp2, lemma_exp2_increases, lemma_exp2_values, nearest, round_half_even, rounding_is_to_nearest,
    scaling_up, Binary64,
};
use crate::menubar::{
    arrow, is_live, is_pig, menu_line, menu_text, peak_is_noteworthy, pigs, threshold,
    string_views, title_names_the_top_consumer, title_text, top_live, MenuBar,
};
use crate::rate::rate_of;
use crate::rates::Row;
use crate::report::{active, report_line_text, report_texts};
use crate::text::{
    decimal, kilobytes_text, padded, rate_text, right_aligned, scaled, tenths_text,
    truncated,
};

verus! {

/// 1024 times 1024.
pub open spec fn mebibyte() -> Binary64 {
    Binary64 { m: 0x10_0000_0000_0000, e: -32 }
}

proof fn lemma_mebibyte()
    ensures
        threshold() == mebibyte(),
        nearest(0x10_0000, 1, 0) == mebibyte(),
{
    lemma_exp2_values();
    assert(0x10_0000 * exp2(32) == 0x10_0000_0000_0000);
    scaling_up(0x10_0000, 1, 0, 32);
}

/// What is said of the menu bar is said of its own title and slots.
pub proof fn menus_are_seen_as_they_are(m: MenuBar, texts: Seq<String>)
    ensures
        m@.title == m.title@,
        m@.slots.len() == m.slots@.len(),
        forall|i: int| 0 <= i < m.slots@.len() ==> #[trigger] m@.slots[i] == m.slots@[i]@,
        string_views(texts).len() == texts.len(),
        forall|i: int| 0 <= i < texts.len() ==> #[trigger] string_views(texts)[i] == texts[i]@,
{
}

/// The number that decimal digits make.
pub open spec fn reads(text: Seq<char>) -> nat
    decreases text.len(),
{
    if text.len() == 0 {
        0
    } else {
        (10 * reads(text.drop_last()) + (text.last() as int - 0x30)) as nat
    }
}

/// A number in decimal reads back as itself: it is made of digits, and does not start with a zero
/// unless it is one.
pub proof fn numbers_read_back(n: nat)
    ensures
        reads(decimal(n)) == n,
        decimal(n).len() > 0,
        forall|i: int|
            0 <= i < decimal(n).len() ==> 0x30 <= #[trigger] decimal(n)[i] as int <= 0x39,
        n > 0 ==> decimal(n)[0] as int > 0x30,
        n == 0 ==> decimal(n).len() == 1,
    decreases n,
{
    reveal_with_fuel(reads, 2);
    let text = decimal(n);
    if n < 10 {
        assert(text.drop_last() =~= Seq::empty());
    } else {
        let rest = decimal(n / 10);
        numbers_read_back(n / 10);
        assert(text.drop_last() =~= rest);
        assert(text[0] == rest[0]);
        assert forall|i: int| 0 <= i < text.len() implies 0x30 <= #[trigger] text[i] as int
            <= 0x39 by {
            if i < rest.len() {
                assert(text[i] == rest[i]);
            }
        }
    }
}

/// Tenths have one digit behind the point.
pub proof fn tenths_read_back(t: nat)
    ensures
        ({
            let text = tenths_text(t);
            let n = text.len() - 2;
            &&& n > 0
            &&& text[n] == '.'
            &&& 10 * reads(text.take(n)) + (text[n + 1] as int - 0x30) == t
        }),
{
    reveal_strlit(".");
    numbers_read_back(t / 10);
    let text = tenths_text(t);
    let n = text.len() - 2;
    assert(text.take(n) =~= decimal(t / 10));
}

/// Whether `t` is the integer nearest to `n` times two to the power of `s`; of two that are equally
/// near, the even one.
pub open spec fn is_nearest_to(t: nat, n: nat, s: int) -> bool {
    if s >= 0 {
        t == n * exp2(s as nat)
    } else {
        let p = exp2((-s) as nat);
        &&& 2 * (t * p) <= 2 * n + p
        &&& 2 * n <= 2 * (t * p) + p
        &&& 2 * (t * p) == 2 * n + p || 2 * n == 2 * (t * p) + p ==> t % 2 == 0
    }
}

proof fn lemma_scaled(n: nat, s: int)
    ensures
        is_nearest_to(scaled(n, s), n, s),
{
    if s < 0 {
        let p = exp2((-s) as nat);
        lemma_exp2_increases(0, (-s) as nat);
        rounding_is_to_nearest(n, p);
        let t = round_half_even(n, p);
        let q = n / p;
        let r = n % p;
        vstd::arithmetic::div_mod::lemma_fundamental_div_mod(n as int, p as int);
        assert(q * p == p * q) by (nonlinear_arith);
        assert((q + 1) * p == p * q + p) by (nonlinear_arith);
    }
}

/// What is shown of a rate is the nearest number: of tenths of megabytes from one megabyte up, of
/// whole kilobytes below.
pub proof fn shown_rates_are_nearest(r: Binary64) -> (t: nat)
    ensures
        r.at_least(mebibyte()) ==> rate_text(r) == tenths_text(t) + " MB/s"@ && is_nearest_to(
            t,
            10 * r.m,
            r.e - 20,
        ),
        !r.at_least(mebibyte()) ==> rate_text(r) == decimal(t) + " KB/s"@ && is_nearest_to(
            t,
            r.m,
            r.e - 10,
        ),
{
    lemma_mebibyte();
    if r.at_least(mebibyte()) {
        lemma_scaled(10 * r.m, r.e - 20);
        scaled(10 * r.m, r.e - 20)
    } else {
        lemma_scaled(r.m, r.e - 10);
        scaled(r.m, r.e - 10)
    }
}

/// The same in kilobytes, with one digit behind the point.
pub proof fn shown_kilobytes_are_nearest(r: Binary64) -> (t: nat)
    ensures
        kilobytes_text(r) == tenths_text(t),
        is_nearest_to(t, 10 * r.m, r.e - 10),
{
    lemma_scaled(10 * r.m, r.e - 10);
    scaled(10 * r.m, r.e - 10)
}

/// A text that is too long keeps its beginning, and ends in an ellipsis.
pub proof fn cut_texts_keep_their_beginning(s: Seq<char>, max: nat)
    ensures
        s.len() <= max ==> truncated(s, max) == s,
        s.len() > max > 0 ==> {
            &&& truncated(s, max).len() == max
            &&& truncated(s, max).drop_last() == s.take(max - 1)
            &&& truncated(s, max).last() == '…'
        },
{
    reveal_strlit("…");
    if s.len() > max > 0 {
        assert(truncated(s, max).drop_last() =~= s.take(max - 1));
    }
}

/// Filling a text up adds spaces only, on the side where they belong, and no more than needed.
pub proof fn filling_up_adds_spaces(s: Seq<char>, width: nat)
    ensures
        ({
            let (left, right) = (padded(s, width), right_aligned(s, width));
            let n = if s.len() < width {
                width
            } else {
                s.len()
            };
            &&& left.len() == n
            &&& right.len() == n
            &&& left.take(s.len() as int) == s
            &&& right.skip(n - s.len()) == s
            &&& forall|i: int| s.len() <= i < n ==> #[trigger] left[i] == ' '
            &&& forall|i: int| 0 <= i < n - s.len() ==> #[trigger] right[i] == ' '
        }),
{
    let n = if s.len() < width {
        width
    } else {
        s.len()
    };
    assert(padded(s, width).take(s.len() as int) =~= s);
    assert(right_aligned(s, width).skip(n - s.len()) =~= s);
}

/// The arrow points up if and only if more is sent than received, and down otherwise.
pub proof fn arrows_point_up_when_more_is_sent(rx_rate: Binary64, tx_rate: Binary64)
    ensures
        arrow(rx_rate, tx_rate) == '↑' <==> !rx_rate.at_least(tx_rate),
        arrow(rx_rate, tx_rate) == '↓' <==> rx_rate.at_least(tx_rate),
{
}

/// Whether two lists agree in all but the peaks.
pub open spec fn same_but_peaks(a: Seq<Row>, b: Seq<Row>) -> bool {
    &&& a.len() == b.len()
    &&& forall|i: int|
        0 <= i < a.len() ==> {
            &&& (#[trigger] a[i]).name == b[i].name
            &&& a[i].rx == b[i].rx
            &&& a[i].tx == b[i].tx
            &&& a[i].elapsed == b[i].elapsed
        }
}

/// While somebody moves a megabyte per second, the title does not depend on any peak or on how old
/// it is.
pub proof fn live_titles_ignore_peaks(a: Seq<Row>, b: Seq<Row>, k: int)
    requires
        same_but_peaks(a, b),
        0 <= k < a.len(),
        a[k].total_rate().at_least(mebibyte()),
    ensures
        title_text(a) == title_text(b),
        menu_text(a, true).title == menu_text(b, true).title,
        menu_text(a, false).title == menu_text(b, false).title,
{
    lemma_mebibyte();
    lemma_top_ignores_peaks(a, b);
    let _ = title_names_the_top_consumer(a);
    assert(is_live(a[k]));
}

proof fn lemma_top_ignores_peaks(a: Seq<Row>, b: Seq<Row>)
    requires
        same_but_peaks(a, b),
    ensures
        match (top_live(a), top_live(b)) {
            (Some(x), Some(y)) => x.name == y.name && x.rx == y.rx && x.tx == y.tx && x.elapsed
                == y.elapsed,
            (None, None) => true,
            _ => false,
        },
    decreases a.len(),
{
    if a.len() > 0 {
        let (c, d) = (a.drop_last(), b.drop_last());
        assert forall|i: int| 0 <= i < c.len() implies {
            &&& (#[trigger] c[i]).name == d[i].name
            &&& c[i].rx == d[i].rx
            &&& c[i].tx == d[i].tx
            &&& c[i].elapsed == d[i].elapsed
        } by {
            assert(c[i] == a[i] && d[i] == b[i]);
        }
        lemma_top_ignores_peaks(c, d);
        assert(a[a.len() - 1] == a.last() && b[b.len() - 1] == b.last());
        assert(a[a.len() - 1].name == b[b.len() - 1].name);
    }
}

/// The title is about the line with the highest current rate, the first of equals: an arrow for the
/// direction that dominates, the name, and the rates of both directions added up.
pub proof fn live_titles_show_the_top_rate(rows: Seq<Row>, k: int)
    requires
        0 <= k < rows.len(),
        rows[k].total_rate().at_least(mebibyte()),
        forall|i: int|
            0 <= i < rows.len() ==> rows[k].total_rate().at_least(
                (#[trigger] rows[i]).total_rate(),
            ),
        forall|i: int|
            0 <= i < k ==> !(#[trigger] rows[i]).total_rate().at_least(rows[k].total_rate()),
    ensures
        ({
            let top = rows[k];
            let (rx, tx) = (rate_of(top.rx, top.elapsed), rate_of(top.tx, top.elapsed));
            let name = truncated(top.name, 20);
            let number = rate_text(rx.plus(tx));
            let title = title_text(rows);
            &&& title.len() == 3 + name.len() + number.len()
            &&& title[0] == if rx.at_least(tx) {
                '↓'
            } else {
                '↑'
            }
            &&& title[1] == ' '
            &&& title.subrange(2, 2 + name.len() as int) == name
            &&& title[2 + name.len() as int] == ' '
            &&& title.skip(3 + name.len() as int) == number
        }),
{
    reveal_strlit(" ");
    lemma_mebibyte();
    let j = title_names_the_top_consumer(rows);
    assert(is_live(rows[k]));
    let top = rows[k];
    if j < k {
        assert(!rows[j].total_rate().at_least(rows[k].total_rate()));
    } else if k < j {
        assert(rows[j].total_rate().more_than(rows[k].total_rate()));
        assert(rows[k].total_rate().at_least(rows[j].total_rate()));
    }
    let name = truncated(top.name, 20);
    let (rx, tx) = (rate_of(top.rx, top.elapsed), rate_of(top.tx, top.elapsed));
    let title = title_text(rows);
    assert(title.subrange(2, 2 + name.len() as int) =~= name);
    assert(title.skip(3 + name.len() as int) =~= rate_text(rx.plus(tx)));
}

proof fn lemma_first_pig(rows: Seq<Row>, k: int)
    requires
        0 <= k < rows.len(),
        is_pig(rows[k]),
        forall|i: int| 0 <= i < k ==> !is_pig(#[trigger] rows[i]),
    ensures
        pigs(rows).len() > 0,
        pigs(rows)[0] == rows[k],
    decreases rows.len(),
{
    let rest = rows.drop_last();
    if k < rows.len() - 1 {
        assert(rest[k] == rows[k]);
        assert forall|i: int| 0 <= i < k implies !is_pig(#[trigger] rest[i]) by {
            assert(rest[i] == rows[i]);
        }
        lemma_first_pig(rest, k);
    } else {
        assert forall|i: int| 0 <= i < rest.len() implies !is_pig(#[trigger] rest[i]) by {
            assert(rest[i] == rows[i]);
        }
        lemma_no_pigs(rest);
    }
}

proof fn lemma_no_pigs(rows: Seq<Row>)
    requires
        forall|i: int| 0 <= i < rows.len() ==> !is_pig(#[trigger] rows[i]),
    ensures
        pigs(rows).len() == 0,
    decreases rows.len(),
{
    if rows.len() > 0 {
        let rest = rows.drop_last();
        assert forall|i: int| 0 <= i < rest.len() implies !is_pig(#[trigger] rest[i]) by {
            assert(rest[i] == rows[i]);
        }
        lemma_no_pigs(rest);
        assert(!is_pig(rows[rows.len() - 1]));
    }
}

/// When nobody moves a megabyte per second any more, the title is about the first line whose peak
/// did, whatever moves now: the name, the peak, and how many whole seconds ago it was.
pub proof fn past_titles_show_the_first_peak(rows: Seq<Row>, k: int)
    requires
        forall|i: int|
            0 <= i < rows.len() ==> !(#[trigger] rows[i]).total_rate().at_least(mebibyte()),
        0 <= k < rows.len(),
        rows[k].peak_rate.at_least(mebibyte()),
        forall|i: int| 0 <= i < k ==> !(#[trigger] rows[i]).peak_rate.at_least(mebibyte()),
    ensures
        title_text(rows) == "recently: "@ + truncated(rows[k].name, 20) + " "@ + rate_text(
            rows[k].peak_rate,
        ) + (" ("@ + decimal(rows[k].peak_age / 1_000_000_000) + "s ago)"@),
{
    lemma_mebibyte();
    let _ = title_names_the_top_consumer(rows);
    assert forall|i: int| 0 <= i < rows.len() implies !is_live(#[trigger] rows[i]) by {}
    assert forall|i: int| 0 <= i < k implies !is_pig(#[trigger] rows[i]) by {}
    lemma_first_pig(rows, k);
}

/// When nobody moves or has moved a megabyte per second, the title is a pig, and the dropdown says
/// so in its first slot.
pub proof fn idle_titles_show_a_pig(rows: Seq<Row>, i: int)
    requires
        forall|i: int|
            0 <= i < rows.len() ==> !(#[trigger] rows[i]).total_rate().at_least(mebibyte())
                && !rows[i].peak_rate.at_least(mebibyte()),
        0 <= i < 8,
    ensures
        title_text(rows) == "🐷"@,
        menu_text(rows, false).slots.len() == 8,
        menu_text(rows, false).slots[i] == if i == 0 {
            "No bandwidth pigs (≥ 1 MB/s)"@
        } else {
            Seq::<char>::empty()
        },
{
    lemma_mebibyte();
    let _ = title_names_the_top_consumer(rows);
    assert forall|i: int| 0 <= i < rows.len() implies !is_live(#[trigger] rows[i]) by {}
    lemma_no_pigs(rows);
}

/// Where the lines that are surfaced stand in the list: in the same order, each once, and they are
/// just those that move or have moved a megabyte per second.
pub proof fn surfaced_lines_are_the_pigs(rows: Seq<Row>) -> (at: Seq<int>)
    ensures
        at.len() == pigs(rows).len(),
        forall|i: int|
            0 <= i < at.len() ==> 0 <= #[trigger] at[i] < rows.len() && pigs(rows)[i]
                == rows[at[i]],
        forall|i: int, j: int| 0 <= i < j < at.len() ==> #[trigger] at[i] < #[trigger] at[j],
        forall|k: int|
            0 <= k < rows.len() ==> (at.contains(k) <==> (#[trigger] rows[k]).total_rate().at_least(
                mebibyte(),
            ) || rows[k].peak_rate.at_least(mebibyte())),
    decreases rows.len(),
{
    lemma_mebibyte();
    if rows.len() == 0 {
        Seq::empty()
    } else {
        let rest = rows.drop_last();
        let n = rows.len() - 1;
        let before = surfaced_lines_are_the_pigs(rest);
        let at = if is_pig(rows.last()) {
            before.push(n)
        } else {
            before
        };
        assert forall|i: int| 0 <= i < at.len() implies 0 <= #[trigger] at[i] < rows.len() && pigs(
            rows,
        )[i] == rows[at[i]] by {
            if i < before.len() {
                assert(at[i] == before[i]);
            }
        }
        assert forall|i: int, j: int| 0 <= i < j < at.len() implies #[trigger] at[i]
            < #[trigger] at[j] by {
            assert(at[i] == before[i]);
            if j < before.len() {
                assert(at[j] == before[j]);
            }
        }
        assert forall|k: int| 0 <= k < rows.len() implies (at.contains(k) <==> (
        #[trigger] rows[k]).total_rate().at_least(mebibyte()) || rows[k].peak_rate.at_least(
            mebibyte(),
        )) by {
            if k < n {
                assert(rest[k] == rows[k]);
                if before.contains(k) {
                    let i = before.index_of(k);
                    assert(at[i] == k);
                }
                if at.contains(k) {
                    let i = at.index_of(k);
                    assert(before[i] == k);
                }
            } else {
                if is_pig(rows[k]) {
                    assert(at[before.len() as int] == k);
                } else if at.contains(k) {
                    let i = at.index_of(k);
                    assert(before[i] == k);
                }
            }
        }
        at
    }
}

/// The dropdown has eight slots. They show the first eight of those lines, and behind the last of
/// them they are empty.
pub proof fn slots_show_the_first_pigs(rows: Seq<Row>, boosted: bool, i: int)
    requires
        0 <= i < 8,
    ensures
        menu_text(rows, boosted).slots.len() == 8,
        i < pigs(rows).len() ==> menu_text(rows, boosted).slots[i] == menu_line(pigs(rows)[i]),
        i >= pigs(rows).len() && i > 0 ==> menu_text(rows, boosted).slots[i].len() == 0,
{
}

/// A line starts with 24 characters for the name: all of it and spaces or, where it is longer, its
/// beginning and an ellipsis.
pub proof fn lines_start_with_the_name(r: Row)
    ensures
        ({
            let line = menu_line(r);
            &&& line.len() >= 24
            &&& r.name.len() <= 24 ==> line.take(r.name.len() as int) == r.name
            &&& r.name.len() <= 24 ==> forall|i: int| r.name.len() <= i < 24 ==> #[trigger] line[i]
                == ' '
            &&& r.name.len() > 24 ==> line.take(23) == r.name.take(23) && line[23] == '…'
        }),
{
    reveal_strlit("…");
    let line = menu_line(r);
    let name = padded(truncated(r.name, 24), 24);
    assert(name.len() == 24);
    assert(line.take(24) =~= name);
    assert forall|i: int| 0 <= i < 24 implies #[trigger] line[i] == name[i] by {
        assert(line[i] == line.take(24)[i]);
    }
    if r.name.len() <= 24 {
        assert(line.take(r.name.len() as int) =~= r.name);
    } else {
        assert(line.take(23) =~= r.name.take(23));
    }
}

/// Behind the name a line shows under "down" what is received, and under "up" what is sent, however
/// the two compare. `n` is where the text of what is sent begins, and `end` where it ends.
pub proof fn lines_show_down_and_up(r: Row) -> (at: (int, int))
    ensures
        ({
            let line = menu_line(r);
            let (n, end) = at;
            let down = rate_text(rate_of(r.rx, r.elapsed));
            let up = rate_text(rate_of(r.tx, r.elapsed));
            &&& n == 35 + down.len()
            &&& end == n + up.len()
            &&& end <= line.len()
            &&& line.subrange(24, 30) == " down "@
            &&& line.subrange(30, n - 5) == down
            &&& line.subrange(n - 5, n) == "  up "@
            &&& line.subrange(n, end) == up
        }),
{
    reveal_strlit(" down ");
    reveal_strlit("  up ");
    reveal_strlit("…");
    let line = menu_line(r);
    let down = rate_text(rate_of(r.rx, r.elapsed));
    let up = rate_text(rate_of(r.tx, r.elapsed));
    let n = 35 + down.len();
    let end = n + up.len();
    assert(padded(truncated(r.name, 24), 24).len() == 24);
    assert(line.subrange(24, 30) =~= " down "@);
    assert(line.subrange(30, n - 5) =~= down);
    assert(line.subrange(n - 5, n as int) =~= "  up "@);
    assert(line.subrange(n as int, end as int) =~= up);
    (n as int, end as int)
}

/// Lines of processes that differ in what they send, and in their peaks, agree up to and with "up".
pub proof fn what_is_sent_does_not_show_under_down(a: Row, b: Row) -> (n: int)
    requires
        a.name == b.name,
        a.rx == b.rx,
        a.elapsed == b.elapsed,
    ensures
        5 <= n <= menu_line(a).len(),
        n <= menu_line(b).len(),
        menu_line(a).take(n) == menu_line(b).take(n),
        menu_line(a).subrange(n - 5, n) == "  up "@,
{
    let (n, _) = lines_show_down_and_up(a);
    let _ = lines_show_down_and_up(b);
    reveal_strlit(" down ");
    reveal_strlit("  up ");
    let head = padded(truncated(a.name, 24), 24) + " down "@ + rate_text(a.rx_rate()) + "  up "@;
    lines_start_with_the_name(a);
    assert(padded(truncated(a.name, 24), 24).len() == 24) by {
        reveal_strlit("…");
    }
    assert(menu_line(a).take(n) =~= head);
    assert(menu_line(b).take(n) =~= head);
    n
}

/// And lines of processes that differ in what they receive show the same under "up".
pub proof fn what_is_received_does_not_show_under_up(a: Row, b: Row)
    requires
        a.tx == b.tx,
        a.elapsed == b.elapsed,
    ensures
        exists|i: int, j: int, k: int, l: int|
            0 <= i <= j <= menu_line(a).len() && 0 <= k <= l <= menu_line(b).len()
                && #[trigger] menu_line(a).subrange(i, j) == #[trigger] menu_line(b).subrange(k, l)
                && menu_line(a).subrange(i, j) == rate_text(rate_of(a.tx, a.elapsed)) && i >= 5
                && k >= 5 && menu_line(a).subrange(i - 5, i) == "  up "@ && menu_line(b).subrange(
                k - 5,
                k,
            ) == "  up "@,
{
    let (i, j) = lines_show_down_and_up(a);
    let (k, l) = lines_show_down_and_up(b);
    assert(menu_line(a).subrange(i, j) == menu_line(b).subrange(k, l));
}

/// A line ends there, unless the peak is more than 1.05 times the rate of both directions and more
/// than two seconds old; then the peak follows, and how many whole seconds ago it was.
pub proof fn lines_end_with_a_past_peak(r: Row)
    ensures
        ({
            let end = 35 + rate_text(rate_of(r.rx, r.elapsed)).len() + rate_text(
                rate_of(r.tx, r.elapsed),
            ).len();
            let total = rate_of(r.rx, r.elapsed).plus(rate_of(r.tx, r.elapsed));
            let high = !total.times(
                Binary64 { m: 0x10_cccc_cccc_cccd, e: -52 },
            ).at_least(r.peak_rate);
            menu_line(r).skip(end as int) == if high && r.peak_age > 2_000_000_000 {
                "   peak "@ + rate_text(r.peak_rate) + (" ("@ + decimal(
                    r.peak_age / 1_000_000_000,
                ) + "s ago)"@)
            } else {
                Seq::<char>::empty()
            }
        }),
{
    reveal_strlit(" down ");
    reveal_strlit("  up ");
    reveal_strlit("…");
    assert(padded(truncated(r.name, 24), 24).len() == 24);
    let end = 35 + rate_text(r.rx_rate()).len() + rate_text(r.tx_rate()).len();
    let now = padded(truncated(r.name, 24), 24) + " down "@ + rate_text(r.rx_rate()) + "  up "@
        + rate_text(r.tx_rate());
    assert(now.len() == end);
    let tail = "   peak "@ + rate_text(r.peak_rate) + (" ("@ + decimal(r.peak_age / 1_000_000_000)
        + "s ago)"@);
    if peak_is_noteworthy(r) {
        assert(menu_line(r) =~= now + tail);
        assert((now + tail).skip(end as int) =~= tail);
    } else {
        assert(now.skip(end as int) =~= Seq::<char>::empty());
    }
}

/// A line of the report shows the process, then under "rx" what is received, under "tx" what is sent
/// and under "peak" the peak with its age, each whatever the others are. `n` is where what is sent
/// begins.
pub proof fn report_lines_show_rx_and_tx(r: Row) -> (n: int)
    ensures
        ({
            let line = report_line_text(r);
            let rx = right_aligned(kilobytes_text(rate_of(r.rx, r.elapsed)), 9);
            let tx = right_aligned(kilobytes_text(rate_of(r.tx, r.elapsed)), 9);
            let peak = right_aligned(kilobytes_text(r.peak_rate), 9);
            let who = "  pid="@ + padded(decimal(r.pid as nat), 8) + " "@ + padded(r.name, 28);
            &&& 0 <= n <= line.len()
            &&& line.take(n) == who + " rx="@ + rx + " KB/s  tx="@
            &&& line.skip(n) == tx + " KB/s  peak="@ + peak + " KB/s ("@ + decimal(
                r.peak_age / 1_000_000_000,
            ) + "s ago)"@
        }),
{
    let line = report_line_text(r);
    let rx = right_aligned(kilobytes_text(rate_of(r.rx, r.elapsed)), 9);
    let tx = right_aligned(kilobytes_text(rate_of(r.tx, r.elapsed)), 9);
    let peak = right_aligned(kilobytes_text(r.peak_rate), 9);
    let who = "  pid="@ + padded(decimal(r.pid as nat), 8) + " "@ + padded(r.name, 28);
    let head = who + " rx="@ + rx + " KB/s  tx="@;
    let tail = tx + " KB/s  peak="@ + peak + " KB/s ("@ + decimal(r.peak_age / 1_000_000_000)
        + "s ago)"@;
    assert(line =~= head + tail);
    assert((head + tail).take(head.len() as int) =~= head);
    assert((head + tail).skip(head.len() as int) =~= tail);
    head.len() as int
}

/// Where the lines of a report stand in the list: in the same order, each once, and they are just
/// those of processes that move or have moved anything. The report shows the first eight of them.
pub proof fn reports_show_the_active(rows: Seq<Row>) -> (at: Seq<int>)
    ensures
        at.len() == active(rows).len(),
        forall|i: int|
            0 <= i < at.len() ==> 0 <= #[trigger] at[i] < rows.len() && active(rows)[i]
                == rows[at[i]],
        forall|i: int, j: int| 0 <= i < j < at.len() ==> #[trigger] at[i] < #[trigger] at[j],
        forall|k: int|
            0 <= k < rows.len() ==> (at.contains(k) <==> (#[trigger] rows[k]).total_rate().m != 0
                || rows[k].peak_rate.m != 0),
        report_texts(rows).len() == if at.len() < 8 {
            at.len()
        } else {
            8
        },
        forall|i: int|
            0 <= i < report_texts(rows).len() ==> #[trigger] report_texts(rows)[i]
                == report_line_text(rows[at[i]]),
    decreases rows.len(),
{
    if rows.len() == 0 {
        Seq::empty()
    } else {
        let rest = rows.drop_last();
        let n = rows.len() - 1;
        let before = reports_show_the_active(rest);
        let at = if rows.last().total_rate().m != 0 || rows.last().peak_rate.m != 0 {
            before.push(n)
        } else {
            before
        };
        assert forall|i: int| 0 <= i < at.len() implies 0 <= #[trigger] at[i] < rows.len()
            && active(rows)[i] == rows[at[i]] by {
            if i < before.len() {
                assert(at[i] == before[i]);
            }
        }
        assert forall|i: int, j: int| 0 <= i < j < at.len() implies #[trigger] at[i]
            < #[trigger] at[j] by {
            assert(at[i] == before[i]);
            if j < before.len() {
                assert(at[j] == before[j]);
            }
        }
        assert forall|k: int| 0 <= k < rows.len() implies (at.contains(k) <==> (
        #[trigger] rows[k]).total_rate().m != 0 || rows[k].peak_rate.m != 0) by {
            if k < n {
                assert(rest[k] == rows[k]);
                if before.contains(k) {
                    let i = before.index_of(k);
                    assert(at[i] == k);
                }
                if at.contains(k) {
                    let i = at.index_of(k);
                    assert(before[i] == k);
                }
            } else {
                if at.len() > before.len() {
                    assert(at[before.len() as int] == k);
                } else if at.contains(k) {
                    let i = at.index_of(k);
                    assert(before[i] == k);
                }
            }
        }
        assert forall|i: int| 0 <= i < report_texts(rows).len() implies #[trigger] report_texts(
            rows,
        )[i] == report_line_text(rows[at[i]]) by {
            assert(active(rows)[i] == rows[at[i]]);
        }
        at
    }
}

} // verus!
