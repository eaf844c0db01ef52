//! Safety of level reports: a report is safe when its levels move strictly
//! in one direction and neighbouring levels differ by at most three.

use vstd::prelude::*;
use crate::counting::{count_below, lemma_count_below_bound};

verus! {

/// Distance between two levels.
pub open spec fn level_gap(a: u64, b: u64) -> int {
    if a < b {
        b - a
    } else {
        a - b
    }
}

/// The step from position `i` to `i + 1` keeps the direction of the first
/// step and changes the level by one, two or three.
pub open spec fn step_ok(report: Seq<u64>, i: int) -> bool {
    &&& (report[i] < report[i + 1]) == (report[0] < report[1])
    &&& 1 <= level_gap(report[i], report[i + 1]) <= 3
}

/// A report of at least two levels is safe when every step is.
pub open spec fn report_safe(report: Seq<u64>) -> bool {
    forall|i: int| 0 <= i < report.len() - 1 ==> step_ok(report, i)
}

/// Decides whether a report is safe.
pub fn is_report_save(report: &Vec<u64>) -> (safe: bool)
    requires
        report.len() > 1,
    ensures
        safe == report_safe(report@),
{
    let is_ascending = report[0] < report[1];
    let mut i: usize = 0;
    while i < report.len() - 1
        invariant
            report.len() > 1,
            i <= report.len() - 1,
            is_ascending == (report@[0] < report@[1]),
            forall|k: int| 0 <= k < i ==> step_ok(report@, k),
        decreases report.len() - i,
    {
        if (report[i] < report[i + 1]) != is_ascending {
            assert(!step_ok(report@, i as int));
            return false;
        }
        let diff = report[i].abs_diff(report[i + 1]);
        if diff < 1 || diff > 3 {
            assert(!step_ok(report@, i as int));
            return false;
        }
        i += 1;
    }
    true
}

/// A report that is safe as it stands or becomes safe when one level is
/// taken out.
pub open spec fn report_tolerable(report: Seq<u64>) -> bool {
    report_safe(report) || exists|i: int| 0 <= i < report.len() && report_safe(report.remove(i))
}

/// Counts the safe reports.
pub fn solve_a(reports: &Vec<Vec<u64>>) -> (count: u64)
    requires
        forall|i: int| 0 <= i < reports.len() ==> (#[trigger] reports@[i]).len() > 1,
    ensures
        count == count_below(reports.len() as nat, |i: int| report_safe(reports@[i]@)),
{
    let ghost safe = |i: int| report_safe(reports@[i]@);
    let mut num_save_reports: u64 = 0;
    let mut idx: usize = 0;
    while idx < reports.len()
        invariant
            idx <= reports.len(),
            forall|i: int| 0 <= i < reports.len() ==> (#[trigger] reports@[i]).len() > 1,
            safe == (|i: int| report_safe(reports@[i]@)),
            num_save_reports == count_below(idx as nat, safe),
        decreases reports.len() - idx,
    {
        proof {
            lemma_count_below_bound(idx as nat, safe);
        }
        if is_report_save(&reports[idx]) {
            num_save_reports += 1;
        }
        idx += 1;
    }
    num_save_reports
}

/// Counts the reports that are safe, or safe once a single level is removed.
///
/// An unsafe report must have at least three levels, so that what is left
/// after a removal is still a report.
pub fn solve_b(reports: &Vec<Vec<u64>>) -> (count: u64)
    requires
        forall|i: int|
            0 <= i < reports.len() ==> {
                ||| (#[trigger] reports@[i]).len() > 2
                ||| (reports@[i].len() == 2 && report_safe(reports@[i]@))
            },
    ensures
        count == count_below(reports.len() as nat, |i: int| report_tolerable(reports@[i]@)),
{
    let ghost tolerable = |i: int| report_tolerable(reports@[i]@);
    let mut num_save_reports: u64 = 0;
    let mut idx: usize = 0;
    while idx < reports.len()
        invariant
            idx <= reports.len(),
            forall|i: int|
                0 <= i < reports.len() ==> {
                    ||| (#[trigger] reports@[i]).len() > 2
                    ||| (reports@[i].len() == 2 && report_safe(reports@[i]@))
                },
            tolerable == (|i: int| report_tolerable(reports@[i]@)),
            num_save_reports == count_below(idx as nat, tolerable),
        decreases reports.len() - idx,
    {
        proof {
            lemma_count_below_bound(idx as nat, tolerable);
        }
        let report = &reports[idx];
        if is_report_save(report) {
            num_save_reports += 1;
        } else {
            let mut i: usize = 0;
            let mut found = false;
            while i < report.len()
                invariant_except_break
                    !found,
                    forall|k: int| 0 <= k < i ==> !report_safe(report@.remove(k)),
                invariant
                    i <= report.len(),
                    report.len() > 2,
                ensures
                    found == (exists|k: int| 0 <= k < report.len() && report_safe(report@.remove(k))),
                decreases report.len() - i,
            {
                let mut dampened_report = report.clone();
                dampened_report.remove(i);
                if is_report_save(&dampened_report) {
                    found = true;
                    break;
                }
                i += 1;
            }
            if found {
                num_save_reports += 1;
            }
        }
        idx += 1;
    }
    num_save_reports
}

} // verus!
