//! What is written when a graph is saved: the timestamp and the save record.

use vstd::prelude::*;
use crate::graph::Graph;
use crate::text::{zero_padded, push_padded};
use super::{GraphSaveData, SaveMetadata, saved_graph};
use crate::graph::GraphView;

verus! {

/// Leap years of the Gregorian calendar: divisible by 4, except centuries not divisible
/// by 400.
pub open spec fn is_leap_year(y: nat) -> bool {
    (y % 4 == 0 && y % 100 != 0) || y % 400 == 0
}

pub open spec fn days_in_year(y: nat) -> nat {
    if is_leap_year(y) {
        366
    } else {
        365
    }
}

/// Days of month `m` (1 to 12) of year `y`.
pub open spec fn days_in_month(y: nat, m: nat) -> nat {
    if m == 2 {
        if is_leap_year(y) {
            29
        } else {
            28
        }
    } else if m == 4 || m == 6 || m == 9 || m == 11 {
        30
    } else {
        31
    }
}

/// Days from 1970-01-01 to the first of January of `y`.
pub open spec fn days_before_year(y: nat) -> nat
    decreases y,
{
    if y <= 1970 {
        0
    } else {
        days_before_year((y - 1) as nat) + days_in_year((y - 1) as nat)
    }
}

/// Days from the first of January of `y` to the first day of month `m`.
pub open spec fn days_before_month(y: nat, m: nat) -> nat
    decreases m,
{
    if m <= 1 {
        0
    } else {
        days_before_month(y, (m - 1) as nat) + days_in_month(y, (m - 1) as nat)
    }
}

/// Year `y`, month `m`, day `d` is a date of the Gregorian calendar, `days` days after
/// 1970-01-01.
pub open spec fn is_civil_date(days: nat, y: nat, m: nat, d: nat) -> bool {
    &&& y >= 1970
    &&& 1 <= m <= 12
    &&& 1 <= d <= days_in_month(y, m)
    &&& days_before_year(y) + days_before_month(y, m) + d - 1 == days
}

/// The date `days` days after 1970-01-01 (there is exactly one: `law_civil_date_unique`).
pub open spec fn civil_date(days: nat) -> (nat, nat, nat) {
    choose|t: (nat, nat, nat)| is_civil_date(days, t.0, t.1, t.2)
}

/// The calendar fields the timestamp shows for `secs` seconds after the Unix epoch, in
/// UTC: year, month, day, hour, minute, second.
pub open spec fn clock_fields(secs: nat) -> (nat, nat, nat, nat, nat, nat) {
    let date = civil_date(secs / 86400);
    (date.0, date.1, date.2, (secs / 3600) % 24, (secs / 60) % 60, secs % 60)
}

/// The Gregorian month lengths, by the knuckle rule: from January to July the odd
/// months have 31 days, from August on the even ones; the others have 30, except
/// February with 28, or 29 in a leap year. The twelve months fill the year.
pub proof fn law_month_lengths(y: nat, m: nat)
    requires
        1 <= m <= 12,
    ensures
        m != 2 ==> days_in_month(y, m) == 30 + (m + m / 8) % 2,
        days_in_month(y, 2) == 28 + if is_leap_year(y) {
            1nat
        } else {
            0nat
        },
        days_before_month(y, 13) == days_in_year(y),
{
    lemma_months_fill_year(y);
}

/// The twelve months fill the year.
proof fn lemma_months_fill_year(y: nat)
    ensures
        days_before_month(y, 13) == days_in_year(y),
{
    reveal_with_fuel(days_before_month, 13);
}

/// Month `m1` ends no later than month `m2` begins.
proof fn lemma_months_ordered(y: nat, m1: nat, m2: nat)
    requires
        1 <= m1 < m2,
    ensures
        days_before_month(y, m1) + days_in_month(y, m1) <= days_before_month(y, m2),
    decreases m2,
{
    if m2 > m1 + 1 {
        lemma_months_ordered(y, m1, (m2 - 1) as nat);
    }
}

/// Year `y1` ends no later than year `y2` begins.
proof fn lemma_years_ordered(y1: nat, y2: nat)
    requires
        1970 <= y1 < y2,
    ensures
        days_before_year(y1) + days_in_year(y1) <= days_before_year(y2),
    decreases y2,
{
    if y2 > y1 + 1 {
        lemma_years_ordered(y1, (y2 - 1) as nat);
    }
}

/// Leap years among years 1 to `n`.
spec fn leaps_through(n: int) -> int {
    n / 4 - n / 100 + n / 400
}

/// The days before year `y` counted by leap years.
proof fn lemma_days_before_year_counted(y: nat)
    requires
        y >= 1970,
    ensures
        days_before_year(y) == 365 * (y - 1970) + leaps_through(y - 1) - leaps_through(1969),
    decreases y,
{
    if y > 1970 {
        let p = (y - 1) as nat;
        lemma_days_before_year_counted(p);
        assert(leaps_through(p as int) - leaps_through(p - 1) == if is_leap_year(p) {
            1int
        } else {
            0int
        });
    }
}

/// Any 400 consecutive years from 1970 on hold 146097 days.
proof fn lemma_four_centuries(y: nat)
    requires
        y >= 1970,
    ensures
        days_before_year(y + 400) == days_before_year(y) + 146097,
{
    lemma_days_before_year_counted(y);
    lemma_days_before_year_counted(y + 400);
    let a: int = y - 1;
    assert((a + 400) / 4 == a / 4 + 100) by (nonlinear_arith);
    assert((a + 400) / 100 == a / 100 + 4) by (nonlinear_arith);
    assert((a + 400) / 400 == a / 400 + 1) by (nonlinear_arith);
    assert(leaps_through(a + 400) - leaps_through(a) == 97);
}

/// `c` whole cycles of 400 years after 1970 hold `146097 * c` days.
proof fn lemma_cycles(c: nat)
    ensures
        days_before_year(1970 + 400 * c) == 146097 * c,
    decreases c,
{
    if c > 0 {
        let p = (c - 1) as nat;
        lemma_cycles(p);
        lemma_four_centuries(1970 + 400 * p);
        assert(1970 + 400 * c == 1970 + 400 * p + 400);
    }
}

/// A date lies within its year and its month.
proof fn lemma_date_bounds(days: nat, y: nat, m: nat, d: nat)
    requires
        is_civil_date(days, y, m, d),
    ensures
        days_before_year(y) <= days < days_before_year(y) + days_in_year(y),
        days_before_year(y) + days_before_month(y, m) <= days < days_before_year(y) + days_before_month(
            y,
            m,
        ) + days_in_month(y, m),
{
    lemma_months_fill_year(y);
    if m < 12 {
        lemma_months_ordered(y, m, 13);
    }
}

/// Each day count has one date: two dates of the same day are the same.
pub proof fn law_civil_date_unique(days: nat, a: (nat, nat, nat), b: (nat, nat, nat))
    requires
        is_civil_date(days, a.0, a.1, a.2),
        is_civil_date(days, b.0, b.1, b.2),
    ensures
        a == b,
{
    lemma_date_bounds(days, a.0, a.1, a.2);
    lemma_date_bounds(days, b.0, b.1, b.2);
    if a.0 < b.0 {
        lemma_years_ordered(a.0, b.0);
    } else if b.0 < a.0 {
        lemma_years_ordered(b.0, a.0);
    }
    assert(a.0 == b.0);
    if a.1 < b.1 {
        lemma_months_ordered(a.0, a.1, b.1);
    } else if b.1 < a.1 {
        lemma_months_ordered(a.0, b.1, a.1);
    }
}

fn leap_year(y: u64) -> (b: bool)
    ensures
        b == is_leap_year(y as nat),
{
    (y % 4 == 0 && y % 100 != 0) || y % 400 == 0
}

fn year_length(y: u64) -> (n: u64)
    ensures
        n == days_in_year(y as nat),
{
    if leap_year(y) {
        366
    } else {
        365
    }
}

fn month_length(y: u64, m: u64) -> (n: u64)
    ensures
        n == days_in_month(y as nat, m as nat),
{
    if m == 2 {
        if leap_year(y) {
            29
        } else {
            28
        }
    } else if m == 4 || m == 6 || m == 9 || m == 11 {
        30
    } else {
        31
    }
}

/// The date `days` days after 1970-01-01, as year, month and day.
pub fn civil_from_days(days: u64) -> (r: (u64, u64, u64))
    requires
        days <= u64::MAX / 2,
    ensures
        is_civil_date(days as nat, r.0 as nat, r.1 as nat, r.2 as nat),
        (r.0 as nat, r.1 as nat, r.2 as nat) == civil_date(days as nat),
{
    let cycles = days / 146097;
    let mut rest: u64 = days % 146097;
    let mut year: u64 = 1970 + 400 * cycles;
    proof {
        lemma_cycles(cycles as nat);
    }
    let ghost base = year;
    while rest >= year_length(year)
        invariant
            base <= year,
            base == 1970 + 400 * cycles,
            cycles <= u64::MAX / 2 / 146097,
            year - base + rest < 146097,
            days_before_year(year as nat) + rest == days,
        decreases rest,
    {
        rest = rest - year_length(year);
        year = year + 1;
    }
    let mut month: u64 = 1;
    let mut left: u64 = rest;
    proof {
        lemma_months_fill_year(year as nat);
    }
    while left >= month_length(year, month)
        invariant
            1 <= month <= 12,
            rest < days_in_year(year as nat),
            days_in_year(year as nat) == days_before_month(year as nat, 13),
            days_before_month(year as nat, month as nat) + left == rest,
        decreases left,
    {
        if month == 12 {
            assert(days_before_month(year as nat, 13) == days_before_month(year as nat, 12)
                + days_in_month(year as nat, 12));
        }
        left = left - month_length(year, month);
        month = month + 1;
    }
    let r = (year, month, left + 1);
    proof {
        let t = (year as nat, month as nat, (left + 1) as nat);
        assert(is_civil_date(days as nat, t.0, t.1, t.2));
        let c = civil_date(days as nat);
        law_civil_date_unique(days as nat, c, t);
    }
    r
}

/// `YYYY-MM-DDTHH:MM:SSZ`, each field zero-padded.
pub open spec fn timestamp_text(f: (nat, nat, nat, nat, nat, nat)) -> Seq<char> {
    zero_padded(f.0, 4) + "-"@ + zero_padded(f.1, 2) + "-"@ + zero_padded(f.2, 2) + "T"@ + zero_padded(f.3, 2)
        + ":"@ + zero_padded(f.4, 2) + ":"@ + zero_padded(f.5, 2) + "Z"@
}

/// Writes the six fields as `YYYY-MM-DDTHH:MM:SSZ`.
pub fn write_timestamp(year: u64, month: u64, day: u64, h: u64, m: u64, s: u64) -> (r: String)
    ensures
        r@ == timestamp_text((year as nat, month as nat, day as nat, h as nat, m as nat, s as nat)),
{
    let mut t = String::new();
    push_padded(&mut t, year, 4);
    t.append("-");
    push_padded(&mut t, month, 2);
    t.append("-");
    push_padded(&mut t, day, 2);
    t.append("T");
    push_padded(&mut t, h, 2);
    t.append(":");
    push_padded(&mut t, m, 2);
    t.append(":");
    push_padded(&mut t, s, 2);
    t.append("Z");
    proof {
        assert(t@ =~= timestamp_text((year as nat, month as nat, day as nat, h as nat, m as nat, s as nat)));
    }
    t
}

/// The save timestamp of `secs` seconds after the Unix epoch, in ISO 8601 form, UTC.
pub fn format_timestamp(secs: u64) -> (r: String)
    ensures
        r@ == timestamp_text(clock_fields(secs as nat)),
{
    let s = secs % 60;
    let m = (secs / 60) % 60;
    let h = (secs / 3600) % 24;
    let (year, month, day) = civil_from_days(secs / 86400);
    write_timestamp(year, month, day, h, m, s)
}

/// The record written when `graph` is saved under `name` at time `saved_at`: a copy
/// of its nodes and edges, version "1.0.0", no algorithm, and the counts.
pub fn build_save_data(graph: &Graph, name: &str, saved_at: String) -> (d: GraphSaveData)
    ensures
        d.version@ == "1.0.0"@,
        d.nodes@ == graph@.nodes,
        d.edges@ == graph@.edges,
        d.is_directed == graph@.is_directed,
        d.last_algorithm is None,
        d.metadata.saved_at == saved_at,
        d.metadata.name@ == name@,
        d.metadata.node_count == graph.nodes.len(),
        d.metadata.edge_count == graph.edges.len(),
{
    let copy = graph.duplicate();
    let metadata = SaveMetadata {
        saved_at,
        name: String::from_str(name),
        node_count: graph.nodes.len(),
        edge_count: graph.edges.len(),
    };
    GraphSaveData {
        version: String::from_str("1.0.0"),
        nodes: copy.nodes,
        edges: copy.edges,
        is_directed: copy.is_directed,
        last_algorithm: None,
        metadata,
    }
}

/// Loading a saved record gives back the graph that was saved: nodes, edges and
/// direction, exactly.
pub proof fn law_save_then_load(g: GraphView, d: GraphSaveData)
    requires
        d.nodes@ == g.nodes,
        d.edges@ == g.edges,
        d.is_directed == g.is_directed,
    ensures
        saved_graph(d) == g,
{
}

} // verus!
