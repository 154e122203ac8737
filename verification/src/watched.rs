//! What a log of events comes to, said of the events in it.

use vstd::prelude::*;

use crate::observer::{
    first_of, freeze_wait, freezes, froze_at, line, lines, packets, placed_wait, quiet_for, said,
    unfinished, LineModel, Log, ReportedModel, Wait, NEWLINE,
};
use crate::protocol::{Direction, EventModel};
use crate::text::{lossy, trimmed};

verus! {

/// How many packets a service wrote one way is how many events of it are a write
/// that way.
pub proof fn lemma_packets_counted(log: Log, service: Seq<char>, direction: Direction)
    ensures
        packets(log, service, direction) == log.filter(
            |entry: (Seq<char>, EventModel)|
                entry.0 == service && entry.1.kind is Wrote && entry.1.kind->Wrote_direction
                    == direction,
        ).len(),
    decreases log.len(),
{
    reveal(Seq::filter);
    if log.len() > 0 {
        lemma_packets_counted(log.drop_last(), service, direction);
    }
}

/// Whether that is the last time the fleet was held.
pub open spec fn last_held(log: Log, k: int) -> bool {
    &&& 0 <= k < log.len()
    &&& log[k].1.kind is Froze
    &&& forall|h: int| k < h < log.len() ==> !((#[trigger] log[h]).1.kind is Froze)
}

/// How often the fleet was held is how many events say so, and when it last was is
/// when the last of them does.
pub proof fn lemma_freezes_counted(log: Log)
    ensures
        freezes(log) == log.filter(|entry: (Seq<char>, EventModel)| entry.1.kind is Froze).len(),
        freezes(log) == 0 <==> froze_at(log) is None,
        forall|k: int| #[trigger] last_held(log, k) ==> froze_at(log) == Some(log[k].1.ts_ns),
    decreases log.len(),
{
    reveal(Seq::filter);
    if log.len() > 0 {
        let fewer = log.drop_last();
        lemma_freezes_counted(fewer);
        assert forall|k: int| #[trigger] last_held(log, k) implies froze_at(log) == Some(
            log[k].1.ts_ns,
        ) by {
            if k < fewer.len() {
                assert(!(log[log.len() - 1].1.kind is Froze));
                assert forall|h: int| k < h < fewer.len() implies !((
                #[trigger] fewer[h]).1.kind is Froze) by {
                    assert(fewer[h] == log[h]);
                }
                assert(last_held(fewer, k));
            }
        }
    }
}

/// What the fault said of itself is what each event says in which it did, when it
/// said it, in order.
pub proof fn lemma_said_in_order(log: Log)
    ensures
        ({
            let told = log.filter(|entry: (Seq<char>, EventModel)| entry.1.kind is Did);
            &&& said(log).len() == told.len()
            &&& forall|k: int|
                0 <= k < told.len() ==> (#[trigger] said(log)[k]).did == told[k].1.kind->Did_did
                    && said(log)[k].at_ns == told[k].1.ts_ns
        }),
    decreases log.len(),
{
    reveal(Seq::filter);
    if log.len() > 0 {
        lemma_said_in_order(log.drop_last());
    }
}

/// A wait for the fleet to be held is over once it was held more often than before,
/// whatever the time, and otherwise once its time is up.
pub proof fn lemma_waiting_for_a_freeze(frozen: nat, baseline: u32, expired: bool)
    ensures
        freeze_wait(frozen, baseline, expired) == Wait::Over(true) <==> frozen > baseline,
        freeze_wait(frozen, baseline, expired) == Wait::Over(false) <==> frozen <= baseline
            && expired,
        freeze_wait(frozen, baseline, expired) == Wait::Again <==> frozen <= baseline && !expired,
{
}

/// A wait for a fault to be placed is over once the last thing it said of itself is
/// that it was, and otherwise once its time is up. What it last said is what comes
/// of it, and nothing where it said nothing.
pub proof fn lemma_waiting_for_a_fault(reports: Seq<ReportedModel>, expired: bool)
    ensures
        placed_wait(reports, expired) is None <==> !expired && (reports.len() == 0
            || !(reports[reports.len() - 1].did is Placed)),
        placed_wait(reports, expired) matches Some(last) ==> (reports.len() == 0 <==> last is None)
            && (reports.len() > 0 ==> last == Some(reports[reports.len() - 1])),
{
}

/// A fleet has been quiet from its last event on, and one that carried nothing as
/// long as it is asked to have been.
pub proof fn lemma_quiet(last: u128, now_ns: u128, idle_ns: u128)
    ensures
        now_ns >= last ==> last + quiet_for(Some(last), now_ns, idle_ns) == now_ns,
        now_ns < last ==> quiet_for(Some(last), now_ns, idle_ns) == 0,
        quiet_for(None, now_ns, idle_ns) == idle_ns,
{
}

proof fn lemma_first_of<T>(s: Seq<T>, x: T)
    ensures
        0 <= first_of(s, x) <= s.len(),
        forall|k: int| 0 <= k < first_of(s, x) ==> #[trigger] s[k] != x,
        first_of(s, x) < s.len() ==> s[first_of(s, x) as int] == x,
    decreases s.len(),
{
    if s.len() > 0 && s[0] != x {
        let rest = s.skip(1);
        lemma_first_of(rest, x);
        assert forall|k: int| 0 <= k < first_of(s, x) implies #[trigger] s[k] != x by {
            if k > 0 {
                assert(rest[k - 1] == s[k]);
            }
        }
    }
}

/// A line with nothing on it says nothing. One with a tab is an event of the
/// service before its first tab, and what is behind that tab is the event. One
/// without is of no service.
pub proof fn lemma_line(text: Seq<char>)
    ensures
        line(text) is None <==> trimmed(text).len() == 0,
        line(text) matches Some(LineModel::Event { service, json }) ==> trimmed(text) == service
            + seq!['\t'] + json && !service.contains('\t'),
        line(text) matches Some(LineModel::Untagged(all)) ==> trimmed(text) == all
            && !all.contains('\t'),
{
    let told = trimmed(text);
    lemma_first_of(told, '\t');
    let tab = first_of(told, '\t') as int;
    if told.len() > 0 {
        if tab < told.len() {
            assert(told =~= told.take(tab) + seq!['\t'] + told.skip(tab + 1));
        } else {
            assert(told.take(tab) =~= told);
        }
    }
}

/// What is left over of a log that was cut anywhere is what is behind the last end
/// of a line in it.
pub proof fn lemma_left_over(bytes: Seq<u8>)
    ensures
        !unfinished(bytes).contains(10u8),
        unfinished(bytes).len() <= bytes.len(),
        unfinished(bytes) == bytes.skip(bytes.len() - unfinished(bytes).len()),
        unfinished(bytes).len() < bytes.len() ==> bytes[bytes.len() - unfinished(bytes).len() - 1]
            == 10,
    decreases bytes.len(),
{
    lemma_first_of(bytes, NEWLINE);
    let end = first_of(bytes, NEWLINE) as int;
    if end < bytes.len() {
        let rest = bytes.skip(end + 1);
        lemma_left_over(rest);
        let n = unfinished(rest).len() as int;
        assert(rest.skip(rest.len() - n) =~= bytes.skip(bytes.len() - n));
        if n < rest.len() {
            assert(rest[rest.len() - n - 1] == bytes[bytes.len() - n - 1]);
        }
    } else {
        assert(bytes.skip(0) =~= bytes);
    }
}

/// The lines of a log are what each of its lines says that says anything, in order:
/// a line, its end, and then the rest.
pub proof fn lemma_line_by_line(first: Seq<u8>, rest: Seq<u8>)
    requires
        !first.contains(10u8),
    ensures
        lines(first).len() == 0,
        lines(first + seq![10u8] + rest) == (match line(lossy(first)) {
            Some(told) => seq![told] + lines(rest),
            None => lines(rest),
        }),
{
    let all = first + seq![10u8] + rest;
    lemma_first_of(first, NEWLINE);
    lemma_first_of(all, NEWLINE);
    let end = first_of(all, NEWLINE) as int;
    assert(all[first.len() as int] == 10);
    if end < first.len() {
        assert(all[end] == first[end]);
        assert(first.contains(10u8));
    }
    assert(end == first.len());
    assert(all.take(end) =~= first);
    assert(all.skip(end + 1) =~= rest);
    if first_of(first, NEWLINE) < first.len() {
        assert(first[first_of(first, NEWLINE) as int] == 10);
    }
}

} // verus!
