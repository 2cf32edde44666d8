//! Reports of levels: a report is safe if its levels rise or fall all the
//! way, by one to three from each level to the next.

use vstd::prelude::*;
use crate::text::{
    chars_of, fields_of, lines_of, parse_signed, signed_of, split_lines, split_whitespace, views,
};

verus! {

/// From each level to the next the report rises by 1 to 3.
pub open spec fn rising(r: Seq<i32>) -> bool {
    forall|i: int| 0 <= i < r.len() - 1 ==> 1 <= #[trigger] gap(r, i) <= 3
}

/// From each level to the next the report falls by 1 to 3.
pub open spec fn falling(r: Seq<i32>) -> bool {
    forall|i: int| 0 <= i < r.len() - 1 ==> -3 <= #[trigger] gap(r, i) <= -1
}

/// The step from the `i`-th level to the next.
pub open spec fn gap(r: Seq<i32>, i: int) -> int {
    r[i + 1] - r[i]
}

/// The report has at least two levels and rises or falls all the way.
pub open spec fn safe(r: Seq<i32>) -> bool {
    r.len() >= 2 && (rising(r) || falling(r))
}

/// The report is safe, or becomes safe when one level is left out.
pub open spec fn tolerable(r: Seq<i32>) -> bool {
    safe(r) || exists|i: int| 0 <= i < r.len() && safe(#[trigger] r.remove(i))
}

/// Whether a report is safe.
pub fn is_safe_report(report: &Vec<i32>) -> (b: bool)
    ensures
        b == safe(report@),
{
    if report.len() < 2 {
        return false;
    }
    let mut is_increasing = true;
    let mut is_decreasing = true;
    let mut i: usize = 0;
    while i < report.len() - 1
        invariant
            i <= report.len() - 1,
            report.len() >= 2,
            is_increasing <==> forall|k: int| 0 <= k < i ==> #[trigger] gap(report@, k) > 0,
            is_decreasing <==> forall|k: int| 0 <= k < i ==> #[trigger] gap(report@, k) < 0,
            forall|k: int| 0 <= k < i ==> 1 <= #[trigger] gap(report@, k) <= 3 || -3 <= gap(
                report@,
                k,
            ) <= -1,
        decreases report.len() - i,
    {
        let diff: i64 = report[i + 1] as i64 - report[i] as i64;
        assert(diff == gap(report@, i as int));
        if diff < -3 || diff > 3 || diff == 0 {
            assert(!rising(report@));
            assert(!falling(report@));
            return false;
        }
        if diff > 0 {
            is_decreasing = false;
        } else {
            is_increasing = false;
        }
        i += 1;
    }
    proof {
        if is_increasing {
            assert forall|k: int| 0 <= k < report@.len() - 1 implies 1 <= #[trigger] gap(report@, k)
                <= 3 by {}
        } else {
            let k = choose|k: int| 0 <= k < i && !(#[trigger] gap(report@, k) > 0);
            assert(!(1 <= gap(report@, k) <= 3));
        }
        if is_decreasing {
            assert forall|k: int| 0 <= k < report@.len() - 1 implies -3 <= #[trigger] gap(report@, k)
                <= -1 by {}
        } else {
            let k = choose|k: int| 0 <= k < i && !(#[trigger] gap(report@, k) < 0);
            assert(!(-3 <= gap(report@, k) <= -1));
        }
    }
    is_increasing || is_decreasing
}

/// Whether a report is safe, or becomes safe when one level is left out.
pub fn can_be_safe_with_dampener(report: &Vec<i32>) -> (b: bool)
    ensures
        b == tolerable(report@),
{
    if is_safe_report(report) {
        return true;
    }
    let mut i: usize = 0;
    while i < report.len()
        invariant
            i <= report.len(),
            !safe(report@),
            forall|k: int| 0 <= k < i ==> !safe(#[trigger] report@.remove(k)),
        decreases report.len() - i,
    {
        let mut modified_report: Vec<i32> = Vec::new();
        let mut j: usize = 0;
        while j < report.len()
            invariant
                j <= report.len(),
                i < report.len(),
                modified_report@ == (if j <= i {
                    report@.take(j as int)
                } else {
                    report@.take(i as int) + report@.subrange(i + 1, j as int)
                }),
            decreases report.len() - j,
        {
            if j != i {
                modified_report.push(report[j]);
            }
            proof {
                if j < i {
                    assert(modified_report@ =~= report@.take(j + 1));
                } else if j == i {
                    assert(modified_report@ =~= report@.take(i as int) + report@.subrange(
                        i + 1,
                        j + 1,
                    ));
                } else {
                    assert(modified_report@ =~= report@.take(i as int) + report@.subrange(
                        i + 1,
                        j + 1,
                    ));
                }
            }
            j += 1;
        }
        assert(modified_report@ =~= report@.remove(i as int));
        if is_safe_report(&modified_report) {
            return true;
        }
        i += 1;
    }
    false
}

/// How many of the reports are safe.
pub open spec fn safe_count(reports: Seq<Seq<i32>>, lenient: bool) -> nat
    decreases reports.len(),
{
    if reports.len() == 0 {
        0
    } else {
        safe_count(reports.drop_last(), lenient) + if (if lenient {
            tolerable(reports.last())
        } else {
            safe(reports.last())
        }) {
            1nat
        } else {
            0nat
        }
    }
}

pub proof fn lemma_safe_count_bound(reports: Seq<Seq<i32>>, lenient: bool)
    ensures
        safe_count(reports, lenient) <= reports.len(),
    decreases reports.len(),
{
    if reports.len() > 0 {
        lemma_safe_count_bound(reports.drop_last(), lenient);
    }
}

/// Counts the safe reports; with `lenient`, those that are safe once one
/// level is left out count too.
pub fn count_safe(reports: &Vec<Vec<i32>>, lenient: bool) -> (n: usize)
    ensures
        n == safe_count(views(reports@), lenient),
{
    let ghost all = views(reports@);
    let mut n: usize = 0;
    let mut i: usize = 0;
    while i < reports.len()
        invariant
            i <= reports.len(),
            all == views(reports@),
            n == safe_count(all.take(i as int), lenient),
            n <= i,
        decreases reports.len() - i,
    {
        proof {
            assert(all.take(i + 1).drop_last() =~= all.take(i as int));
            assert(all.take(i + 1).last() == reports@[i as int]@);
        }
        let ok = if lenient {
            can_be_safe_with_dampener(&reports[i])
        } else {
            is_safe_report(&reports[i])
        };
        if ok {
            n += 1;
        }
        i += 1;
    }
    assert(all.take(reports.len() as int) =~= all);
    n
}


/// The levels that the first `n` words of a line hold: the numbers among
/// them, in order; words that are no numbers are passed over.
pub open spec fn levels_of(words: Seq<Seq<char>>, n: int) -> Seq<i32>
    decreases n,
{
    if n <= 0 {
        Seq::empty()
    } else {
        match signed_of(words[n - 1], i32::MIN as int, i32::MAX as int) {
            Some(v) => levels_of(words, n - 1).push(v as i32),
            None => levels_of(words, n - 1),
        }
    }
}

/// The report that a line holds.
pub open spec fn report_of(line: Seq<char>) -> Seq<i32> {
    levels_of(fields_of(line), fields_of(line).len() as int)
}

/// The reports that the lines hold.
pub open spec fn reports_of(lines: Seq<Seq<char>>) -> Seq<Seq<i32>> {
    Seq::new(lines.len(), |i: int| report_of(lines[i]))
}

/// Reads the report of one line.
pub fn parse_report(line: &Vec<char>) -> (report: Vec<i32>)
    ensures
        report@ == report_of(line@),
{
    let words = split_whitespace(line);
    let ghost all = views(words@);
    let mut report: Vec<i32> = Vec::new();
    let mut i: usize = 0;
    while i < words.len()
        invariant
            i <= words.len(),
            all == views(words@),
            report@ == levels_of(all, i as int),
        decreases words.len() - i,
    {
        assert(all[i as int] == words@[i as int]@);
        match parse_signed(&words[i], i32::MIN as i128, i32::MAX as i128) {
            Some(v) => {
                report.push(v as i32);
            },
            None => {},
        }
        i += 1;
    }
    report
}

/// Reads the reports of a text, one per line.
pub fn parse_reports(input: &str) -> (reports: Vec<Vec<i32>>)
    ensures
        views(reports@) == reports_of(lines_of(input@)),
{
    let text = chars_of(input);
    let lines = split_lines(&text);
    let ghost all = views(lines@);
    let mut reports: Vec<Vec<i32>> = Vec::new();
    let mut i: usize = 0;
    while i < lines.len()
        invariant
            i <= lines.len(),
            all == views(lines@),
            reports.len() == i,
            forall|k: int| 0 <= k < i ==> (#[trigger] reports@[k])@ == report_of(all[k]),
        decreases lines.len() - i,
    {
        assert(all[i as int] == lines@[i as int]@);
        let report = parse_report(&lines[i]);
        reports.push(report);
        i += 1;
    }
    assert(views(reports@) =~= reports_of(all));
    reports
}

/// How many of the reports of a text are safe.
pub fn count_safe_reports(input: &str) -> (n: usize)
    ensures
        n == safe_count(reports_of(lines_of(input@)), false),
{
    let reports = parse_reports(input);
    count_safe(&reports, false)
}

/// How many of the reports of a text are safe, or become safe when one
/// level is left out.
pub fn count_safe_reports_with_dampener(input: &str) -> (n: usize)
    ensures
        n == safe_count(reports_of(lines_of(input@)), true),
{
    let reports = parse_reports(input);
    count_safe(&reports, true)
}

} // verus!
