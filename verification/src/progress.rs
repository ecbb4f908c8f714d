//! Progress of long operations.
use crate::number::counted64;
use vstd::prelude::*;

verus! {

/// What an operation is doing.
#[derive(Clone, Copy, Debug, PartialEq, Eq, Structural)]
pub enum ProgressPhase {
    Prepare,
    Encrypt,
    Embed,
    Save,
    Extract,
    Decrypt,
    Parse,
}

/// Where an operation reports how far it is.
pub trait ProgressSink {
    /// What being told that `done` of `total` units of the phase are finished makes
    /// of this sink: `after` is a sink that it can become. One that says no more of
    /// itself can become any.
    open spec fn told(&self, phase: ProgressPhase, done: u64, total: u64, after: &Self) -> bool {
        true
    }

    /// `done` of `total` units of the phase are finished.
    fn report(&mut self, phase: ProgressPhase, done: u64, total: u64)
        ensures
            old(self).told(phase, done, total, final(self)),
    ;
}

/// One report: `done` of `total` units of the phase are finished.
#[derive(Clone, Copy, Debug, PartialEq, Eq, Structural)]
pub struct Report {
    pub phase: ProgressPhase,
    pub done: u64,
    pub total: u64,
}

/// Whether these reports, one after the other and no others, make `after` of
/// `before`.
pub open spec fn told_all<P: ProgressSink>(before: P, log: Seq<Report>, after: P) -> bool
    decreases log.len(),
{
    if log.len() == 0 {
        after == before
    } else {
        let last = log.last();
        exists|mid: P|
            told_all(before, log.drop_last(), mid) && #[trigger] mid.told(
                last.phase,
                last.done,
                last.total,
                &after,
            )
    }
}

/// Whether reports, and nothing else, make `after` of `before`.
pub open spec fn only_told<P: ProgressSink>(before: P, after: P) -> bool {
    exists|log: Seq<Report>| told_all(before, log, after)
}

/// Whether all reports are of this phase and of a total of so many units, of which
/// never fewer are finished than before.
pub open spec fn steady(log: Seq<Report>, phase: ProgressPhase, total: u64) -> bool {
    &&& forall|i: int|
        0 <= i < log.len() ==> (#[trigger] log[i]).phase == phase && log[i].total == total
            && log[i].done <= total
    &&& forall|i: int, j: int|
        0 <= i <= j < log.len() ==> (#[trigger] log[i]).done <= (#[trigger] log[j]).done
}

/// Whether the reports go on until all units are finished. Where there is no unit
/// there may be no report.
pub open spec fn runs_to(log: Seq<Report>, phase: ProgressPhase, total: u64) -> bool {
    &&& steady(log, phase, total)
    &&& if log.len() == 0 {
        total == 0
    } else {
        log.last().done == total
    }
}

/// Whether each report tells of more than the one before it, until `done` units are
/// finished, whatever the total. Where no unit is finished there is no report.
pub open spec fn tallied(
    log: Seq<Report>,
    phase: ProgressPhase,
    total: u64,
    done: u64,
) -> bool {
    &&& forall|i: int|
        0 <= i < log.len() ==> (#[trigger] log[i]).phase == phase && log[i].total == total
            && log[i].done > 0
    &&& forall|i: int, j: int|
        0 <= i < j < log.len() ==> (#[trigger] log[i]).done < (#[trigger] log[j]).done
    &&& if log.len() == 0 {
        done == 0
    } else {
        log.last().done == done
    }
}

/// Whether each report tells of more than the one before it, until `done` units are
/// finished, and of no more than there are.
pub open spec fn counted_to(
    log: Seq<Report>,
    phase: ProgressPhase,
    total: u64,
    done: u64,
) -> bool {
    &&& tallied(log, phase, total, done)
    &&& done <= total
}

/// Whether each report tells of more than the one before it, until all units are
/// finished. Where there is no unit there is no report.
pub open spec fn counts_up(log: Seq<Report>, phase: ProgressPhase, total: u64) -> bool {
    counted_to(log, phase, total, total)
}

/// The reports of `count` pieces of `piece` units each, of which the last may be
/// shorter: `len` units in all.
pub open spec fn pieces_log(
    phase: ProgressPhase,
    piece: nat,
    count: nat,
    len: nat,
    total: u64,
) -> Seq<Report> {
    Seq::new(
        count,
        |i: int|
            Report {
                phase,
                done: (if (i + 1) * piece < len {
                    (i + 1) * piece
                } else {
                    len as int
                }) as u64,
                total,
            },
    )
}

/// One more piece after pieces that are all whole.
pub proof fn lemma_pieces_push(
    phase: ProgressPhase,
    piece: nat,
    count: nat,
    len: nat,
    more: nat,
    total: u64,
)
    requires
        len == count * piece,
        len <= more <= len + piece,
    ensures
        pieces_log(phase, piece, count, len, total).push(
            Report { phase, done: more as u64, total },
        ) == pieces_log(phase, piece, count + 1, more, total),
{
    let before = pieces_log(phase, piece, count, len, total);
    let after = pieces_log(phase, piece, count + 1, more, total);
    let pushed = before.push(Report { phase, done: more as u64, total });
    assert forall|i: int| 0 <= i < count + 1 implies pushed[i] == after[i] by {
        assert((i + 1) * piece <= count * piece || i == count) by (nonlinear_arith)
            requires
                0 <= i < count + 1,
        ;
        assert((count + 1) * piece == count * piece + piece) by (nonlinear_arith);
    }
    assert(pushed =~= after);
}

/// The reports of pieces do not fall behind, and those of enough pieces run to the
/// end.
pub proof fn lemma_pieces_run(phase: ProgressPhase, piece: nat, count: nat, len: nat, total: u64)
    requires
        len <= total,
    ensures
        steady(pieces_log(phase, piece, count, len, total), phase, total),
        len == total && len <= count * piece ==> runs_to(
            pieces_log(phase, piece, count, len, total),
            phase,
            total,
        ),
{
    let log = pieces_log(phase, piece, count, len, total);
    assert forall|i: int| 0 <= i < log.len() implies (#[trigger] log[i]).phase == phase
        && log[i].total == total && log[i].done <= total by {
        assert(0 <= (i + 1) * piece) by (nonlinear_arith)
            requires
                0 <= i,
        ;
    }
    assert forall|i: int, j: int| 0 <= i <= j < log.len() implies (#[trigger] log[i]).done <= (
    #[trigger] log[j]).done by {
        assert(0 <= (i + 1) * piece <= (j + 1) * piece) by (nonlinear_arith)
            requires
                0 <= i <= j,
        ;
    }
    if count == 0 {
        assert(count * piece == 0) by (nonlinear_arith)
            requires
                count == 0,
        ;
    }
}

/// Reports that follow each other.
pub proof fn lemma_told_concat<P: ProgressSink>(
    start: P,
    first: Seq<Report>,
    mid: P,
    second: Seq<Report>,
    end: P,
)
    requires
        told_all(start, first, mid),
        told_all(mid, second, end),
    ensures
        told_all(start, first + second, end),
    decreases second.len(),
{
    if second.len() == 0 {
        assert(first + second =~= first);
    } else {
        let last = second.last();
        let before = choose|p: P|
            told_all(mid, second.drop_last(), p) && #[trigger] p.told(
                last.phase,
                last.done,
                last.total,
                &end,
            );
        lemma_told_concat(start, first, mid, second.drop_last(), before);
        assert((first + second).drop_last() =~= first + second.drop_last());
        assert((first + second).last() == last);
    }
}

/// No report leaves a sink as it is.
pub proof fn lemma_nothing_told<P: ProgressSink>(sink: P)
    ensures
        only_told(sink, sink),
{
    assert(told_all(sink, Seq::empty(), sink));
}

/// Reports after reports are reports.
pub proof fn lemma_only_told<P: ProgressSink>(start: P, mid: P, end: P)
    requires
        only_told(start, mid),
        only_told(mid, end),
    ensures
        only_told(start, end),
{
    let first = choose|log: Seq<Report>| told_all(start, log, mid);
    let second = choose|log: Seq<Report>| told_all(mid, log, end);
    lemma_told_concat(start, first, mid, second, end);
}

/// One more report that does not fall behind the others.
pub proof fn lemma_steady_push(log: Seq<Report>, r: Report)
    requires
        steady(log, r.phase, r.total),
        log.len() > 0 ==> log.last().done <= r.done,
        r.done <= r.total,
    ensures
        steady(log.push(r), r.phase, r.total),
{
    let more = log.push(r);
    assert forall|i: int, j: int| 0 <= i <= j < more.len() implies (#[trigger] more[i]).done <= (
    #[trigger] more[j]).done by {
        if j == log.len() && i < j {
            assert(log[i].done <= log[log.len() - 1].done);
        }
    }
}

/// One more report that tells of more than the others.
pub proof fn lemma_counted_push(log: Seq<Report>, done: u64, r: Report)
    requires
        tallied(log, r.phase, r.total, done),
        done < r.done,
    ensures
        tallied(log.push(r), r.phase, r.total, r.done),
{
    let more = log.push(r);
    assert forall|i: int, j: int| 0 <= i < j < more.len() implies (#[trigger] more[i]).done < (
    #[trigger] more[j]).done by {
        if j == log.len() && i < log.len() - 1 {
            assert(log[i].done < log[log.len() - 1].done);
        }
    }
}

/// Reports that each tell of more than the one before it do not fall behind.
pub proof fn lemma_counted_steady(log: Seq<Report>, phase: ProgressPhase, total: u64, done: u64)
    requires
        counted_to(log, phase, total, done),
    ensures
        steady(log, phase, total),
        forall|i: int| 0 <= i < log.len() ==> (#[trigger] log[i]).done <= done,
{
    assert forall|i: int| 0 <= i < log.len() implies (#[trigger] log[i]).done <= done by {
        if i < log.len() - 1 {
            assert(log[i].done < log[log.len() - 1].done);
        }
    }
    assert forall|i: int, j: int| 0 <= i <= j < log.len() implies (#[trigger] log[i]).done <= (
    #[trigger] log[j]).done by {}
}

/// How far the whole is when `done` of `total` units of one of its parts are
/// finished: the part follows `base` units of the whole and is `len` of them.
pub open spec fn whole_done(base: u64, len: u64, done: u64, total: u64) -> nat {
    if total == 0 || done >= total {
        base as nat + len as nat
    } else {
        base as nat + (len as nat * done as nat) / total as nat
    }
}

/// The units in which an operation reports: its own, or those of a whole of which it
/// is a part of `len` units behind `base` others.
#[derive(Clone, Copy, Debug)]
pub enum Scale {
    Own,
    Part { base: u64, len: u64, total: u64 },
}

/// What is reported of a part of an operation, in these units.
pub open spec fn scaled(scale: Scale, r: Report) -> Report {
    match scale {
        Scale::Own => r,
        Scale::Part { base, len, total } => Report {
            phase: r.phase,
            done: counted64(whole_done(base, len, r.done, r.total)),
            total,
        },
    }
}

/// What is reported of a part of an operation, in these units, one report after the
/// other.
pub open spec fn all_scaled(scale: Scale, log: Seq<Report>) -> Seq<Report> {
    log.map_values(|r: Report| scaled(scale, r))
}

/// Reports in their own units stay as they are.
pub proof fn lemma_own(log: Seq<Report>)
    ensures
        all_scaled(Scale::Own, log) == log,
{
    assert(all_scaled(Scale::Own, log) =~= log);
}

/// Reports of a part are those of its parts.
pub proof fn lemma_scaled_concat(scale: Scale, first: Seq<Report>, second: Seq<Report>)
    ensures
        all_scaled(scale, first + second) == all_scaled(scale, first) + all_scaled(scale, second),
{
    assert(all_scaled(scale, first + second) =~= all_scaled(scale, first) + all_scaled(
        scale,
        second,
    ));
}

/// Whether each report is of at least the share of the one before it: it is complete,
/// or it follows one of nothing, or it counts more of the same units.
pub open spec fn rising(log: Seq<Report>) -> bool {
    forall|i: int, j: int|
        0 <= i < j < log.len() ==> {
            ||| (#[trigger] log[j]).done >= log[j].total
            ||| (#[trigger] log[i]).done == 0 && log[i].total > 0
            ||| log[i].total == log[j].total && log[i].done <= log[j].done
        }
}

/// Reports of a part that take no share back take none of the whole back, and stay
/// within the part.
pub proof fn lemma_rising_scaled(log: Seq<Report>, base: u64, len: u64, total: u64)
    requires
        rising(log),
        base + len <= u64::MAX,
    ensures
        ({
            let whole = all_scaled(Scale::Part { base, len, total }, log);
            &&& forall|i: int|
                0 <= i < whole.len() ==> (#[trigger] whole[i]).total == total && base
                    <= whole[i].done <= base + len
            &&& forall|i: int, j: int|
                0 <= i <= j < whole.len() ==> (#[trigger] whole[i]).done <= (
                #[trigger] whole[j]).done
        }),
{
    let whole = all_scaled(Scale::Part { base, len, total }, log);
    assert forall|i: int| 0 <= i < whole.len() implies (#[trigger] whole[i]).total == total && base
        <= whole[i].done <= base + len by {
        lemma_share(len, log[i].done, log[i].total);
    }
    assert forall|i: int, j: int| 0 <= i <= j < whole.len() implies (#[trigger] whole[i]).done <= (
    #[trigger] whole[j]).done by {
        let (a, b) = (log[i], log[j]);
        lemma_share(len, a.done, a.total);
        lemma_share(len, b.done, b.total);
        if i < j && b.done < b.total {
            if a.done == 0 && a.total > 0 {
            } else if a.done < a.total {
                lemma_share_grows(len, a.done, b.done, a.total);
            }
        }
    }
}

/// Whether all reports are of a total of so many units, of which `done` are finished
/// at the end and never fewer than before.
pub open spec fn along(log: Seq<Report>, total: u64, done: u64) -> bool {
    &&& forall|i: int|
        0 <= i < log.len() ==> (#[trigger] log[i]).total == total && log[i].done <= done
    &&& forall|i: int, j: int|
        0 <= i <= j < log.len() ==> (#[trigger] log[i]).done <= (#[trigger] log[j]).done
}

/// The reports of a whole go on with those of its next part.
pub proof fn lemma_along_part(
    front: Seq<Report>,
    part: Seq<Report>,
    base: u64,
    len: u64,
    total: u64,
)
    requires
        along(front, total, base),
        rising(part),
        base + len <= u64::MAX,
    ensures
        along(
            front + all_scaled(Scale::Part { base, len, total }, part),
            total,
            (base + len) as u64,
        ),
        part.len() > 0 && part.last().done >= part.last().total ==> (front + all_scaled(
            Scale::Part { base, len, total },
            part,
        )).last() == (Report {
            phase: part.last().phase,
            done: (base + len) as u64,
            total,
        }),
{
    let whole = all_scaled(Scale::Part { base, len, total }, part);
    let log = front + whole;
    lemma_rising_scaled(part, base, len, total);
    assert forall|i: int| 0 <= i < log.len() implies (#[trigger] log[i]).total == total
        && log[i].done <= base + len by {
        if i >= front.len() {
            assert(log[i] == whole[i - front.len()]);
        } else {
            assert(log[i] == front[i]);
        }
    }
    assert forall|i: int, j: int| 0 <= i <= j < log.len() implies (#[trigger] log[i]).done <= (
    #[trigger] log[j]).done by {
        if j < front.len() {
            assert(log[i] == front[i] && log[j] == front[j]);
        } else {
            assert(log[j] == whole[j - front.len()]);
            if i < front.len() {
                assert(log[i] == front[i]);
            } else {
                assert(log[i] == whole[i - front.len()]);
            }
        }
    }
}

/// Reports that do not fall behind take no share back.
pub proof fn lemma_steady_rises(log: Seq<Report>, phase: ProgressPhase, total: u64)
    requires
        steady(log, phase, total),
    ensures
        rising(log),
{
}

/// A share of `len` units is no more than all of them; a share of nothing is nothing.
proof fn lemma_share(len: u64, done: u64, total: u64)
    ensures
        total == 0 || done >= total || (len as nat * done as nat) / total as nat <= len,
        total > 0 ==> (len as nat * 0) / total as nat == 0,
{
    if total > 0 {
        assert((len as int * 0) / total as int == 0) by (nonlinear_arith)
            requires
                total > 0,
        ;
        if done < total {
            assert((len as int * done as int) / total as int <= len) by (nonlinear_arith)
                requires
                    0 <= done < total,
                    0 <= len,
            ;
        }
    }
}

/// More of the same units is no smaller a share.
proof fn lemma_share_grows(len: u64, less: u64, more: u64, total: u64)
    requires
        less <= more < total,
    ensures
        (len as nat * less as nat) / total as nat <= (len as nat * more as nat) / total as nat,
{
    assert(len as int * less as int <= len as int * more as int) by (nonlinear_arith)
        requires
            less <= more,
            0 <= len,
    ;
    vstd::arithmetic::div_mod::lemma_div_is_ordered(
        len as int * less as int,
        len as int * more as int,
        total as int,
    );
}

/// How far the whole is, as far as it can be counted.
pub fn done_of_whole(base: u64, len: u64, done: u64, total: u64) -> (out: u64)
    ensures
        out == counted64(whole_done(base, len, done, total)),
{
    if total == 0 || done >= total {
        return base.saturating_add(len);
    }
    assert(0 <= len as int * done as int <= u64::MAX * u64::MAX) by (nonlinear_arith)
        requires
            len <= u64::MAX,
            done <= u64::MAX,
    ;
    let product: u128 = len as u128 * done as u128;
    assert(0 <= (len as int * done as int) / total as int <= len) by (nonlinear_arith)
        requires
            0 <= done < total,
            0 <= len,
    ;
    base.saturating_add((product / total as u128) as u64)
}

/// Reports in these units, as one more of the reports since `start`.
pub(crate) fn tell<P: ProgressSink>(
    progress: &mut P,
    scale: Scale,
    r: Report,
    Ghost(start): Ghost<P>,
    Ghost(log): Ghost<Seq<Report>>,
)
    requires
        told_all(start, all_scaled(scale, log), *old(progress)),
    ensures
        told_all(start, all_scaled(scale, log.push(r)), *final(progress)),
{
    let told: Report = match scale {
        Scale::Own => r,
        Scale::Part { base, len, total } => Report {
            phase: r.phase,
            done: done_of_whole(base, len, r.done, r.total),
            total,
        },
    };
    progress.report(told.phase, told.done, told.total);
    proof {
        let all = all_scaled(scale, log.push(r));
        assert(all.drop_last() =~= all_scaled(scale, log));
        assert(all.last() == told);
        assert(old(progress).told(told.phase, told.done, told.total, &*progress));
    }
}

/// A sink for those who do not want to know.
#[derive(Clone, Copy, Debug)]
pub struct Silent;

impl ProgressSink for Silent {
    /// It stays as it is.
    open spec fn told(&self, phase: ProgressPhase, done: u64, total: u64, after: &Self) -> bool {
        after == self
    }

    fn report(&mut self, phase: ProgressPhase, done: u64, total: u64) {
    }
}

/// No report leaves a sink as it is, and one report more is told to what the others made
/// of it.
pub proof fn law_reports_follow_each_other<P: ProgressSink>(
    before: P,
    log: Seq<Report>,
    r: Report,
    after: P,
)
    ensures
        told_all(before, Seq::empty(), after) <==> after == before,
        told_all(before, log.push(r), after) <==> exists|mid: P|
            told_all(before, log, mid) && #[trigger] mid.told(r.phase, r.done, r.total, &after),
{
    assert(log.push(r).drop_last() =~= log);
}

/// Reports that count up tell of more each time, and at the end of all; where there is
/// nothing to count there is none. Reports that run on never tell of less.
pub proof fn law_counts(log: Seq<Report>, phase: ProgressPhase, total: u64)
    ensures
        counts_up(log, phase, total) ==> (total == 0 <==> log.len() == 0) && (total > 0
            ==> log.last().done == total) && forall|i: int, j: int|
            0 <= i < j < log.len() ==> 0 < (#[trigger] log[i]).done < (#[trigger] log[j]).done,
        counts_up(log, phase, total) ==> forall|i: int|
            0 <= i < log.len() ==> (#[trigger] log[i]).phase == phase && log[i].total == total
                && log[i].done <= total,
        runs_to(log, phase, total) ==> (total > 0 ==> log.len() > 0 && log.last().done == total)
            && forall|i: int, j: int|
            0 <= i <= j < log.len() ==> (#[trigger] log[i]).done <= (#[trigger] log[j]).done
                <= total && log[i].phase == phase && log[i].total == total,
{
    if counts_up(log, phase, total) {
        lemma_counted_steady(log, phase, total, total);
    }
}

/// A part of a whole starts where the parts before it end, ends where the next one starts,
/// and between them the whole is as far as the part, in proportion and rounded down.
pub proof fn law_parts_of_a_whole(base: u64, len: u64, done: u64, total: u64)
    requires
        total > 0,
    ensures
        whole_done(base, len, 0, total) == base,
        whole_done(base, len, total, total) == base + len,
        done < total ==> (whole_done(base, len, done, total) - base) * total <= len * done < (
        whole_done(base, len, done, total) - base + 1) * total,
{
    lemma_share(len, 0, total);
    if done < total {
        let (num, den) = (len as int * done as int, total as int);
        vstd::arithmetic::div_mod::lemma_fundamental_div_mod(num, den);
        assert(0 <= num) by (nonlinear_arith)
            requires
                num == len as int * done as int,
        ;
        assert(den * (num / den) == (num / den) * den && (num / den + 1) * den == (num / den) * den
            + den) by (nonlinear_arith);
    }
}

/// A report of a part is one of the whole: of the same phase, in the units of the whole,
/// as far as 64 bits count them. Reports stay in their order.
pub proof fn law_parts_report_in_units_of_the_whole(
    base: u64,
    len: u64,
    total: u64,
    log: Seq<Report>,
    i: int,
)
    requires
        0 <= i < log.len(),
    ensures
        ({
            let whole = all_scaled(Scale::Part { base, len, total }, log);
            &&& whole.len() == log.len()
            &&& whole[i].phase == log[i].phase
            &&& whole[i].total == total
            &&& whole[i].done == counted64(whole_done(base, len, log[i].done, log[i].total))
            &&& all_scaled(Scale::Own, log) == log
        }),
{
    lemma_own(log);
}

} // verus!
