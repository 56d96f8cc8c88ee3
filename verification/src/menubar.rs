//! What the menu bar shows.
use vstd::prelude::*;

use crate::double::{at_least_transitive, nearest, Binary64};
use crate::rate::{ratio_105, Rate, NANOS_PER_SEC};
use crate::rates::{row_views, ProcessBandwidth, Row};
use crate::text::{
    decimal, padded, push_decimal, push_padded, push_rate, rate_text, truncate, truncated,
};

verus! {

/// A peak isn't worth calling out separately from the current rate unless it's old enough, in
/// nanoseconds, that it's clearly a past burst rather than this instant's reading.
pub const PEAK_NOTEWORTHY_AGE: u64 = 2_000_000_000;

/// Only processes moving at least this much, in bytes per second, count as a "bandwidth pig" worth
/// surfacing; anything below is just background chatter.
pub const PIG_THRESHOLD_BYTES_PER_SEC: u32 = 0x10_0000;

/// Number of process rows in the dropdown.
pub const SLOT_COUNT: usize = 8;

pub const QUIT_MENU_ID: &'static str = "quit";

pub const QUIT_LABEL: &'static str = "Quit PigTop";

pub const TOOLTIP: &'static str = "PigTop — per-process bandwidth";

/// The least rate that is worth surfacing.
pub open spec fn threshold() -> Binary64 {
    nearest(PIG_THRESHOLD_BYTES_PER_SEC as nat, 1, 0)
}

/// Moving enough right now.
pub open spec fn is_live(r: Row) -> bool {
    r.total_rate().at_least(threshold())
}

/// Moving enough right now, or at its peak.
pub open spec fn is_pig(r: Row) -> bool {
    is_live(r) || r.peak_rate.at_least(threshold())
}

/// Of the lines that are moving enough right now, the one that moves the most; the first of equals.
pub open spec fn top_live(rows: Seq<Row>) -> Option<Row>
    decreases rows.len(),
{
    if rows.len() == 0 {
        None
    } else {
        let r = rows.last();
        match top_live(rows.drop_last()) {
            Some(top) => if is_live(r) && r.total_rate().more_than(top.total_rate()) {
                Some(r)
            } else {
                Some(top)
            },
            None => if is_live(r) {
                Some(r)
            } else {
                None
            },
        }
    }
}

/// The lines that are worth surfacing, in their order.
pub open spec fn pigs(rows: Seq<Row>) -> Seq<Row>
    decreases rows.len(),
{
    if rows.len() == 0 {
        Seq::empty()
    } else if is_pig(rows.last()) {
        pigs(rows.drop_last()).push(rows.last())
    } else {
        pigs(rows.drop_last())
    }
}

pub open spec fn arrow(rx_rate: Binary64, tx_rate: Binary64) -> char {
    if tx_rate.more_than(rx_rate) {
        '↑'
    } else {
        '↓'
    }
}

/// How long ago, in whole seconds.
pub open spec fn ago_text(nanos: nat) -> Seq<char> {
    " ("@ + decimal(nanos / NANOS_PER_SEC as nat) + "s ago)"@
}

/// The title: who is using the network most right now, or who has been, or nobody.
pub open spec fn title_text(rows: Seq<Row>) -> Seq<char> {
    match top_live(rows) {
        Some(top) => seq![arrow(top.rx_rate(), top.tx_rate())] + " "@ + truncated(top.name, 20)
            + " "@ + rate_text(top.total_rate()),
        None => if pigs(rows).len() > 0 {
            let top = pigs(rows)[0];
            "recently: "@ + truncated(top.name, 20) + " "@ + rate_text(top.peak_rate) + ago_text(
                top.peak_age,
            )
        } else {
            "🐷"@
        },
    }
}

/// Whether the peak is noticeably above the current rate, and a past burst.
pub open spec fn peak_is_noteworthy(r: Row) -> bool {
    &&& r.peak_rate.more_than(r.total_rate().times(ratio_105()))
    &&& r.peak_age > PEAK_NOTEWORTHY_AGE
}

/// The line of a process in the dropdown.
pub open spec fn menu_line(r: Row) -> Seq<char> {
    let now = padded(truncated(r.name, 24), 24) + " down "@ + rate_text(r.rx_rate()) + "  up "@
        + rate_text(r.tx_rate());
    if peak_is_noteworthy(r) {
        now + "   peak "@ + rate_text(r.peak_rate) + ago_text(r.peak_age)
    } else {
        now
    }
}

/// The text of slot `i` of the dropdown.
pub open spec fn slot_text(rows: Seq<Row>, i: int) -> Seq<char> {
    if i < pigs(rows).len() {
        menu_line(pigs(rows)[i])
    } else if i == 0 {
        "No bandwidth pigs (≥ 1 MB/s)"@
    } else {
        Seq::empty()
    }
}

/// What the menu bar shows.
pub struct MenuText {
    pub title: Seq<char>,
    pub slots: Seq<Seq<char>>,
}

pub open spec fn menu_text(rows: Seq<Row>, boosted: bool) -> MenuText {
    MenuText {
        title: if boosted {
            "⚡ "@ + title_text(rows)
        } else {
            title_text(rows)
        },
        slots: Seq::new(SLOT_COUNT as nat, |i: int| slot_text(rows, i)),
    }
}

/// Boost mode changes the title's prefix and nothing else.
pub proof fn boost_only_adds_a_prefix(rows: Seq<Row>)
    ensures
        menu_text(rows, true).title == "⚡ "@ + menu_text(rows, false).title,
        menu_text(rows, true).slots == menu_text(rows, false).slots,
{
}

/// The title names the current top bandwidth consumer: line `k` is above the threshold, no line
/// moves more right now, and every earlier one less. Only where no line is above the threshold does
/// the title name nobody live.
pub proof fn title_names_the_top_consumer(rows: Seq<Row>) -> (k: int)
    ensures
        top_live(rows) is None <==> forall|i: int|
            0 <= i < rows.len() ==> !is_live(#[trigger] rows[i]),
        top_live(rows) matches Some(top) ==> {
            &&& 0 <= k < rows.len()
            &&& top == rows[k]
            &&& is_live(top)
            &&& forall|i: int|
                0 <= i < rows.len() ==> top.total_rate().at_least((#[trigger] rows[i]).total_rate())
            &&& forall|i: int|
                0 <= i < k ==> top.total_rate().more_than((#[trigger] rows[i]).total_rate())
        },
    decreases rows.len(),
{
    if rows.len() == 0 {
        0
    } else {
        let rest = rows.drop_last();
        let n = rows.len() - 1;
        let r = rows[n];
        let k = title_names_the_top_consumer(rest);
        assert forall|i: int| 0 <= i < n implies #[trigger] rows[i] == rest[i] by {}
        match top_live(rest) {
            Some(top) => {
                if is_live(r) && r.total_rate().more_than(top.total_rate()) {
                    assert forall|i: int| 0 <= i < n implies r.total_rate().more_than(
                        (#[trigger] rows[i]).total_rate(),
                    ) by {
                        if rows[i].total_rate().at_least(r.total_rate()) {
                            assert(rest[i] == rows[i]);
                            at_least_transitive(
                                top.total_rate(),
                                rows[i].total_rate(),
                                r.total_rate(),
                            );
                        }
                    }
                    assert forall|i: int| 0 <= i < rows.len() implies r.total_rate().at_least(
                        (#[trigger] rows[i]).total_rate(),
                    ) by {
                        if i < n {
                            assert(r.total_rate().more_than(rows[i].total_rate()));
                        }
                    }
                    n
                } else {
                    assert(rows[k] == top);
                    assert(top.total_rate().at_least(r.total_rate())) by {
                        if !is_live(r) {
                            lemma_live_is_more(top.total_rate(), r.total_rate());
                        }
                    }
                    k
                }
            },
            None => {
                if is_live(r) {
                    assert forall|i: int| 0 <= i < n implies r.total_rate().more_than(
                        (#[trigger] rows[i]).total_rate(),
                    ) by {
                        assert(!is_live(rest[i]));
                        lemma_live_is_more(r.total_rate(), rows[i].total_rate());
                    }
                    assert forall|i: int| 0 <= i < rows.len() implies r.total_rate().at_least(
                        (#[trigger] rows[i]).total_rate(),
                    ) by {
                        if i < n {
                            assert(r.total_rate().more_than(rows[i].total_rate()));
                        }
                    }
                    n
                } else {
                    k
                }
            },
        }
    }
}

/// A rate that reaches the threshold is more than one that does not.
proof fn lemma_live_is_more(a: Binary64, b: Binary64)
    requires
        a.at_least(threshold()),
        !b.at_least(threshold()),
    ensures
        a.more_than(b),
{
    if b.at_least(a) {
        at_least_transitive(b, a, threshold());
    }
}

/// The lines that are surfaced are those above the threshold, and no others; each is one of `rows`.
pub proof fn only_pigs_are_surfaced(rows: Seq<Row>)
    ensures
        forall|i: int|
            0 <= i < pigs(rows).len() ==> is_pig(#[trigger] pigs(rows)[i]) && rows.contains(
                pigs(rows)[i],
            ),
        forall|i: int|
            0 <= i < rows.len() && is_pig(#[trigger] rows[i]) ==> pigs(rows).contains(rows[i]),
    decreases rows.len(),
{
    if rows.len() > 0 {
        let rest = rows.drop_last();
        only_pigs_are_surfaced(rest);
        assert forall|i: int| 0 <= i < pigs(rows).len() implies is_pig(#[trigger] pigs(rows)[i])
            && rows.contains(pigs(rows)[i]) by {
            if i < pigs(rest).len() {
                assert(pigs(rows)[i] == pigs(rest)[i]);
                let j = rest.index_of(pigs(rest)[i]);
                assert(rows[j] == pigs(rows)[i]);
            } else {
                assert(rows[rows.len() - 1] == pigs(rows)[i]);
            }
        }
        assert forall|i: int| 0 <= i < rows.len() && is_pig(#[trigger] rows[i]) implies pigs(
            rows,
        ).contains(rows[i]) by {
            if i < rest.len() {
                assert(rest[i] == rows[i]);
                let j = pigs(rest).index_of(rows[i]);
                assert(pigs(rows)[j] == rows[i]);
            } else {
                assert(pigs(rows)[pigs(rows).len() - 1] == rows[i]);
            }
        }
    }
}

/// The surfaced lines keep the ranking: the dropdown shows the highest first.
pub proof fn surfaced_lines_stay_ranked(rows: Seq<Row>)
    requires
        crate::rates::ranked(rows),
    ensures
        crate::rates::ranked(pigs(rows)),
    decreases rows.len(),
{
    if rows.len() > 0 {
        let rest = rows.drop_last();
        assert forall|i: int, j: int| 0 <= i < j < rest.len() implies (
        #[trigger] rest[i]).rank().at_least((#[trigger] rest[j]).rank()) by {
            assert(rest[i] == rows[i] && rest[j] == rows[j]);
        }
        surfaced_lines_stay_ranked(rest);
        only_pigs_are_surfaced(rest);
        let all = pigs(rows);
        assert forall|i: int, j: int| 0 <= i < j < all.len() implies (
        #[trigger] all[i]).rank().at_least((#[trigger] all[j]).rank()) by {
            assert(all[i] == pigs(rest)[i]);
            if j < pigs(rest).len() {
                assert(all[j] == pigs(rest)[j]);
            } else {
                let k = rest.index_of(all[i]);
                assert(rows[k] == all[i]);
                assert(rows[rows.len() - 1] == all[j]);
            }
        }
    }
}

/// Which direction dominates a process's current traffic.
pub fn direction_arrow(rx_rate: &Rate, tx_rate: &Rate) -> (c: char)
    ensures
        c == arrow(rx_rate@, tx_rate@),
{
    if !rx_rate.at_least(tx_rate) {
        '↑'
    } else {
        '↓'
    }
}

fn push_ago(out: &mut String, nanos: u64)
    ensures
        final(out)@ == old(out)@ + ago_text(nanos as nat),
{
    let ghost start = out@;
    out.append(" (");
    push_decimal(out, (nanos / NANOS_PER_SEC) as u128);
    out.append("s ago)");
    assert(out@ =~= start + ago_text(nanos as nat));
}

pub fn format_menu_line(p: &ProcessBandwidth) -> (line: String)
    ensures
        line@ == menu_line(p@),
{
    let mut line = String::new();
    let name = truncate(p.name.as_str(), 24);
    push_padded(&mut line, name.as_str(), 24);
    line.append(" down ");
    push_rate(&mut line, &p.rx_rate());
    line.append("  up ");
    push_rate(&mut line, &p.tx_rate());
    if p.peak_rate.more_than_105_percent_of(&p.total_rate()) && p.peak_age > PEAK_NOTEWORTHY_AGE {
        line.append("   peak ");
        push_rate(&mut line, &p.peak_rate);
        push_ago(&mut line, p.peak_age);
    }
    assert(line@ =~= menu_line(p@));
    line
}

fn live_now(p: &ProcessBandwidth) -> (b: bool)
    ensures
        b == is_live(p@),
{
    p.total_rate().at_least_bytes(PIG_THRESHOLD_BYTES_PER_SEC)
}

fn pig(p: &ProcessBandwidth) -> (b: bool)
    ensures
        b == is_pig(p@),
{
    live_now(p) || p.peak_rate.at_least_bytes(PIG_THRESHOLD_BYTES_PER_SEC)
}

proof fn lemma_next_row(ranked: Seq<ProcessBandwidth>, i: int)
    requires
        0 <= i < ranked.len(),
    ensures
        row_views(ranked).take(i + 1).drop_last() == row_views(ranked).take(i),
        row_views(ranked).take(i + 1).last() == ranked[i]@,
{
    assert(row_views(ranked).take(i + 1).drop_last() =~= row_views(ranked).take(i));
}

/// `pigs` of a list starts with those of any first part of it.
proof fn lemma_heads(rows: Seq<Row>, n: int)
    requires
        0 <= n <= rows.len(),
    ensures
        pigs(rows.take(n)).len() <= pigs(rows).len(),
        pigs(rows.take(n)) == pigs(rows).take(pigs(rows.take(n)).len() as int),
    decreases rows.len(),
{
    if n == rows.len() {
        assert(rows.take(n) =~= rows);
        assert(pigs(rows) =~= pigs(rows).take(pigs(rows).len() as int));
    } else {
        let rest = rows.drop_last();
        lemma_heads(rest, n);
        assert(rest.take(n) =~= rows.take(n));
        assert(pigs(rows.take(n)) =~= pigs(rows).take(pigs(rows.take(n)).len() as int));
    }
}

/// The line that moves the most right now, and the first that is worth surfacing.
fn tops(ranked: &[ProcessBandwidth]) -> (r: (Option<usize>, Option<usize>))
    ensures
        match r.0 {
            Some(i) => i < ranked@.len() && top_live(row_views(ranked@)) == Some(
                ranked@[i as int]@,
            ),
            None => top_live(row_views(ranked@)) is None,
        },
        match r.1 {
            Some(i) => i < ranked@.len() && pigs(row_views(ranked@)).len() > 0 && pigs(
                row_views(ranked@),
            )[0] == ranked@[i as int]@,
            None => pigs(row_views(ranked@)).len() == 0,
        },
{
    let ghost rows = row_views(ranked@);
    let mut top: Option<usize> = None;
    let mut first_pig: Option<usize> = None;
    let mut i: usize = 0;
    while i < ranked.len()
        invariant
            i <= ranked.len(),
            rows == row_views(ranked@),
            match top {
                Some(k) => k < i && top_live(rows.take(i as int)) == Some(ranked@[k as int]@),
                None => top_live(rows.take(i as int)) is None,
            },
            match first_pig {
                Some(k) => k < i && pigs(rows.take(i as int)).len() > 0 && pigs(
                    rows.take(i as int),
                )[0] == ranked@[k as int]@,
                None => pigs(rows.take(i as int)).len() == 0,
            },
        decreases ranked.len() - i,
    {
        proof {
            lemma_next_row(ranked@, i as int);
        }
        if live_now(&ranked[i]) {
            let moves_more: bool = match top {
                Some(k) => !ranked[k].total_rate().at_least(&ranked[i].total_rate()),
                None => true,
            };
            if moves_more {
                top = Some(i);
            }
        }
        if first_pig.is_none() && pig(&ranked[i]) {
            first_pig = Some(i);
        }
        i += 1;
    }
    assert(rows.take(i as int) =~= rows);
    (top, first_pig)
}

fn title(ranked: &[ProcessBandwidth]) -> (text: String)
    ensures
        text@ == title_text(row_views(ranked@)),
{
    let (top, first_pig) = tops(ranked);
    let mut text = String::new();
    match top {
        Some(i) => {
            let top = &ranked[i];
            text.push(direction_arrow(&top.rx_rate(), &top.tx_rate()));
            text.append(" ");
            let name = truncate(top.name.as_str(), 20);
            text.append(name.as_str());
            text.append(" ");
            push_rate(&mut text, &top.total_rate());
        },
        None => match first_pig {
            Some(i) => {
                let top = &ranked[i];
                text.append("recently: ");
                let name = truncate(top.name.as_str(), 20);
                text.append(name.as_str());
                text.append(" ");
                push_rate(&mut text, &top.peak_rate);
                push_ago(&mut text, top.peak_age);
            },
            None => {
                text.append("🐷");
            },
        },
    }
    assert(text@ =~= title_text(row_views(ranked@)));
    text
}

pub open spec fn string_views(texts: Seq<String>) -> Seq<Seq<char>> {
    Seq::new(texts.len(), |i: int| texts[i]@)
}

fn slots(ranked: &[ProcessBandwidth]) -> (texts: Vec<String>)
    ensures
        string_views(texts@) == menu_text(row_views(ranked@), false).slots,
{
    let ghost rows = row_views(ranked@);
    let mut texts: Vec<String> = Vec::new();
    let mut i: usize = 0;
    while i < ranked.len() && texts.len() < SLOT_COUNT
        invariant
            i <= ranked.len(),
            rows == row_views(ranked@),
            texts.len() <= SLOT_COUNT,
            texts.len() == pigs(rows.take(i as int)).len(),
            forall|k: int|
                0 <= k < texts.len() ==> (#[trigger] texts[k])@ == menu_line(
                    pigs(rows.take(i as int))[k],
                ),
        decreases ranked.len() - i,
    {
        proof {
            lemma_next_row(ranked@, i as int);
        }
        let ghost before = pigs(rows.take(i as int));
        if pig(&ranked[i]) {
            texts.push(format_menu_line(&ranked[i]));
        }
        i += 1;
        assert forall|k: int| 0 <= k < texts.len() implies (#[trigger] texts[k])@ == menu_line(
            pigs(rows.take(i as int))[k],
        ) by {
            if k < before.len() {
                assert(pigs(rows.take(i as int))[k] == before[k]);
            }
        }
    }
    proof {
        lemma_heads(rows, i as int);
        if i == ranked.len() {
            assert(rows.take(i as int) =~= rows);
        }
        assert forall|k: int| 0 <= k < texts.len() implies (#[trigger] texts[k])@ == slot_text(
            rows,
            k,
        ) by {
            assert(pigs(rows.take(i as int))[k] == pigs(rows)[k]);
        }
    }
    if texts.len() == 0 {
        texts.push("No bandwidth pigs (≥ 1 MB/s)".to_owned());
    }
    while texts.len() < SLOT_COUNT
        invariant
            0 < texts.len() <= SLOT_COUNT,
            texts.len() < SLOT_COUNT ==> pigs(rows).len() <= texts.len(),
            forall|k: int|
                0 <= k < texts.len() ==> (#[trigger] texts[k])@ == slot_text(rows, k),
        decreases SLOT_COUNT - texts.len(),
    {
        texts.push(String::new());
    }
    assert(string_views(texts@) =~= menu_text(rows, false).slots);
    texts
}

/// The status item's title and a fixed pool of menu item slots, whose text is replaced in place so
/// that an open menu stays open.
pub struct MenuBar {
    pub title: String,
    pub slots: Vec<String>,
}

impl View for MenuBar {
    type V = MenuText;

    open spec fn view(&self) -> MenuText {
        MenuText { title: self.title@, slots: string_views(self.slots@) }
    }
}

impl MenuBar {
    /// What is shown before anything is known.
    pub fn build() -> (m: MenuBar)
        ensures
            m@.title == "PigTop"@,
            m@.slots == Seq::new(SLOT_COUNT as nat, |i: int| Seq::<char>::empty()),
    {
        let mut slots: Vec<String> = Vec::new();
        while slots.len() < SLOT_COUNT
            invariant
                slots.len() <= SLOT_COUNT,
                forall|k: int| 0 <= k < slots.len() ==> (#[trigger] slots[k])@.len() == 0,
            decreases SLOT_COUNT - slots.len(),
        {
            slots.push(String::new());
        }
        let m = MenuBar { title: "PigTop".to_owned(), slots };
        assert forall|k: int| 0 <= k < SLOT_COUNT implies #[trigger] m@.slots[k] == Seq::<
            char,
        >::empty() by {
            assert(m.slots[k]@ =~= Seq::<char>::empty());
        }
        assert(m@.slots =~= Seq::new(SLOT_COUNT as nat, |i: int| Seq::<char>::empty()));
        m
    }

    /// Sets the title to the current top bandwidth consumer and each slot to its line. `boosted`
    /// is the fast-poll mode.
    pub fn update(&mut self, ranked: &[ProcessBandwidth], boosted: bool)
        ensures
            final(self)@ == menu_text(row_views(ranked@), boosted),
    {
        let plain = title(ranked);
        self.title = if boosted {
            let mut t = "⚡ ".to_owned();
            t.append(plain.as_str());
            t
        } else {
            plain
        };
        self.slots = slots(ranked);
    }
}

} // verus!
