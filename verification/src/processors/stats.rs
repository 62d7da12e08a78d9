//! The statistics by section: the records since the last flush, bucket by
//! bucket, and once per period a line for each.

use vstd::prelude::*;
use vstd::string::StringExecFns;
use crate::buffered_logs::GroupedHttpLogs;
use crate::processors::{chained, Outcome, ProcessError, Processor};
use crate::reader::HttpLog;
use crate::reorder::Group;
use crate::report::{decimal, decimal_text, piece_views, Piece, PieceView};

verus! {

/// The records of one section since the last flush, in arrival order.
pub struct Tally {
    pub section: Seq<char>,
    pub logs: Seq<HttpLog>,
}

/// The place of the bucket of `section` among `buckets`: the first one
/// with that name, or their number where there is none.
pub open spec fn place(buckets: Seq<Tally>, section: Seq<char>) -> int
    decreases buckets.len(),
{
    if buckets.len() == 0 {
        0
    } else if buckets[0].section == section {
        0
    } else {
        1 + place(buckets.drop_first(), section)
    }
}

/// The buckets after `log` has been filed: in the bucket of its section,
/// behind what is there, or in a new bucket behind the others.
pub open spec fn file(buckets: Seq<Tally>, log: HttpLog) -> Seq<Tally> {
    let section = log.request.section@;
    let at = place(buckets, section);
    if at < buckets.len() {
        buckets.update(at, Tally { section, logs: buckets[at].logs.push(log) })
    } else {
        buckets.push(Tally { section, logs: seq![log] })
    }
}

/// The buckets after `logs` have been filed, one by one.
pub open spec fn file_all(buckets: Seq<Tally>, logs: Seq<HttpLog>) -> Seq<Tally>
    decreases logs.len(),
{
    if logs.len() == 0 {
        buckets
    } else {
        file(file_all(buckets, logs.drop_last()), logs.last())
    }
}

/// The bytes of `logs`, all together.
pub open spec fn bytes(logs: Seq<HttpLog>) -> nat
    decreases logs.len(),
{
    if logs.len() == 0 {
        0
    } else {
        bytes(logs.drop_last()) + logs.last().bytes as nat
    }
}

/// The head of a block of statistics over `elapsed` seconds.
pub open spec fn header(elapsed: nat) -> Seq<PieceView> {
    seq![PieceView::Text("\nSTATS ("@ + decimal(elapsed) + "s):\n********\n"@)]
}

/// The line of one section: its hits, the hits per second, the seconds
/// per hit, and the mean size of an answer, rounded down.
pub open spec fn line(tally: Tally, elapsed: nat) -> Seq<PieceView> {
    let hits = tally.logs.len();
    seq![
        PieceView::Text(
            "Section: "@ + tally.section + ", Total Hits: "@ + decimal(hits)
                + ", Avg Reqs/Sec: "@,
        ),
        PieceView::Ratio(hits, elapsed),
        PieceView::Text(", Avg Time: "@),
        PieceView::Ratio(elapsed, hits),
        PieceView::Text("s, Avg Bytes: "@ + decimal(bytes(tally.logs) / hits) + "\n"@),
    ]
}

/// The lines of `buckets`, in their order.
pub open spec fn lines(buckets: Seq<Tally>, elapsed: nat) -> Seq<PieceView>
    decreases buckets.len(),
{
    if buckets.len() == 0 {
        Seq::empty()
    } else {
        lines(buckets.drop_last(), elapsed) + line(buckets.last(), elapsed)
    }
}

/// The state of the statistics.
pub struct Ledger {
    /// The flush period, in seconds.
    pub period: usize,
    /// The buckets, in the order in which their sections were first seen.
    pub buckets: Seq<Tally>,
    /// The second of the last flush.
    pub last_time: usize,
}

impl Ledger {
    /// The state before any group.
    pub open spec fn start(period: usize) -> Ledger {
        Ledger { period, buckets: Seq::empty(), last_time: 0 }
    }

    /// The invariant: no bucket is empty, and no two have one section.
    pub open spec fn wf(self) -> bool {
        sound(self.buckets)
    }

    /// What one group does: its records are filed; where the group lies a
    /// period or more behind the last flush, the block of statistics is
    /// due, the buckets are emptied and the flush is dated at the group.
    pub open spec fn step(self, group: Group) -> (Ledger, Seq<PieceView>) {
        let filed = file_all(self.buckets, group.logs);
        let elapsed = group.time - self.last_time;
        if elapsed >= self.period {
            (
                Ledger { buckets: Seq::empty(), last_time: group.time, ..self },
                header(elapsed as nat) + lines(filed, elapsed as nat),
            )
        } else {
            (Ledger { buckets: filed, ..self }, Seq::empty())
        }
    }
}

/// No bucket is empty, and no two have one section.
pub open spec fn sound(buckets: Seq<Tally>) -> bool {
    &&& forall|i: int| 0 <= i < buckets.len() ==> (#[trigger] buckets[i]).logs.len() > 0
    &&& forall|i: int, j: int|
        0 <= i < j < buckets.len() ==> (#[trigger] buckets[i]).section != (
        #[trigger] buckets[j]).section
}

/// The first bucket with the section stands at its place; where there is
/// none, the place is behind them all.
pub proof fn lemma_place(buckets: Seq<Tally>, section: Seq<char>, at: int)
    requires
        0 <= at <= buckets.len(),
        forall|k: int| 0 <= k < at ==> (#[trigger] buckets[k]).section != section,
        at < buckets.len() ==> buckets[at].section == section,
    ensures
        place(buckets, section) == at,
    decreases buckets.len(),
{
    if buckets.len() > 0 && at > 0 {
        let rest = buckets.drop_first();
        assert(buckets[0].section != section);
        assert forall|k: int| 0 <= k < at - 1 implies (#[trigger] rest[k]).section
            != section by {
            assert(rest[k] == buckets[k + 1]);
        }
        if at < buckets.len() {
            assert(rest[at - 1] == buckets[at]);
        }
        lemma_place(rest, section, at - 1);
    }
}

/// The bytes of the records come to no more than the largest size times
/// their number.
pub proof fn lemma_bytes_bound(logs: Seq<HttpLog>)
    ensures
        bytes(logs) <= logs.len() * usize::MAX,
    decreases logs.len(),
{
    if logs.len() > 0 {
        lemma_bytes_bound(logs.drop_last());
        assert((logs.len() - 1) * usize::MAX + usize::MAX == logs.len() * usize::MAX)
            by (nonlinear_arith);
    }
}

/// Filing a record keeps the buckets sound.
pub proof fn lemma_file_sound(buckets: Seq<Tally>, log: HttpLog)
    requires
        sound(buckets),
    ensures
        sound(file(buckets, log)),
{
    let section = log.request.section@;
    let at = place(buckets, section);
    lemma_place_found(buckets, section);
    let filed = file(buckets, log);
    assert forall|i: int, j: int| 0 <= i < j < filed.len() implies (#[trigger] filed[i]).section != (
    #[trigger] filed[j]).section by {
        if at < buckets.len() {
            assert(filed[i].section == buckets[i].section);
            assert(filed[j].section == buckets[j].section);
        } else {
            assert(filed[i] == buckets[i]);
            if j < buckets.len() {
                assert(filed[j] == buckets[j]);
            }
        }
    }
}

/// The place of a section is that of the first bucket with it, or lies
/// behind them all.
pub proof fn lemma_place_found(buckets: Seq<Tally>, section: Seq<char>)
    ensures
        0 <= place(buckets, section) <= buckets.len(),
        place(buckets, section) < buckets.len() ==> buckets[place(buckets, section)].section
            == section,
        forall|k: int|
            0 <= k < place(buckets, section) ==> (#[trigger] buckets[k]).section != section,
    decreases buckets.len(),
{
    if buckets.len() > 0 && buckets[0].section != section {
        let rest = buckets.drop_first();
        lemma_place_found(rest, section);
        assert forall|k: int| 0 <= k < place(buckets, section) implies (
        #[trigger] buckets[k]).section != section by {
            if k > 0 {
                assert(buckets[k] == rest[k - 1]);
            }
        }
        if place(buckets, section) < buckets.len() {
            assert(buckets[place(buckets, section)] == rest[place(rest, section)]);
        }
    }
}

/// The records of one section since the last flush.
#[derive(Debug, PartialEq)]
struct SectionLogs {
    section: String,
    logs: Vec<HttpLog>,
}

impl Clone for SectionLogs {
    fn clone(&self) -> (res: Self)
        ensures
            res@ == self@,
    {
        let mut logs: Vec<HttpLog> = Vec::new();
        let mut i: usize = 0;
        while i < self.logs.len()
            invariant
                i <= self.logs.len(),
                logs@ == self.logs@.take(i as int),
            decreases self.logs.len() - i,
        {
            logs.push(self.logs[i].clone());
            assert(logs@ =~= self.logs@.take(i + 1));
            i += 1;
        }
        assert(logs@ =~= self.logs@);
        SectionLogs { section: self.section.clone(), logs }
    }
}

impl View for SectionLogs {
    type V = Tally;

    closed spec fn view(&self) -> Tally {
        Tally { section: self.section@, logs: self.logs@ }
    }
}

/// The models of the buckets, one by one.
spec fn tallies(buffer: Seq<SectionLogs>) -> Seq<Tally> {
    buffer.map_values(|b: SectionLogs| b@)
}

/// Files a copy of `log` in the bucket of its section, opening the bucket
/// if need be.
fn file_record(buffer: &mut Vec<SectionLogs>, log: &HttpLog)
    requires
        sound(tallies(old(buffer)@)),
    ensures
        sound(tallies(final(buffer)@)),
        tallies(final(buffer)@) == file(tallies(old(buffer)@), *log),
{
    let ghost before = tallies(buffer@);
    let mut at: usize = 0;
    while at < buffer.len() && !(buffer[at].section == log.request.section)
        invariant
            at <= buffer.len(),
            forall|k: int|
                0 <= k < at ==> (#[trigger] tallies(buffer@)[k]).section
                    != log.request.section@,
        decreases buffer.len() - at,
    {
        at += 1;
    }
    proof {
        lemma_place(before, log.request.section@, at as int);
        lemma_file_sound(before, *log);
    }
    if at < buffer.len() {
        buffer[at].logs.push(log.clone());
        assert(tallies(buffer@) =~= file(before, *log));
    } else {
        let mut logs = Vec::new();
        logs.push(log.clone());
        buffer.push(SectionLogs { section: log.request.section.clone(), logs });
        assert(tallies(buffer@) =~= file(before, *log));
    }
}

/// Adds up the bytes of the records.
fn sum_bytes(logs: &Vec<HttpLog>) -> (sum: u128)
    ensures
        sum == bytes(logs@),
{
    let mut sum: u128 = 0;
    let mut i: usize = 0;
    while i < logs.len()
        invariant
            i <= logs.len(),
            sum == bytes(logs@.take(i as int)),
        decreases logs.len() - i,
    {
        proof {
            lemma_bytes_bound(logs@.take(i as int));
            assert(logs@.take(i + 1).drop_last() =~= logs@.take(i as int));
            assert(i * usize::MAX + usize::MAX <= u128::MAX) by (nonlinear_arith)
                requires
                    i < usize::MAX,
                    usize::MAX <= 0xffff_ffff_ffff_ffff,
            ;
        }
        sum = sum + logs[i].bytes as u128;
        i += 1;
    }
    proof {
        assert(logs@.take(i as int) =~= logs@);
    }
    sum
}

/// Writes the head of a block of statistics.
fn write_header(elapsed: usize) -> (block: Vec<Piece>)
    ensures
        piece_views(block@) == header(elapsed as nat),
{
    let mut head = String::from_str("\nSTATS (");
    head.append(decimal_text(elapsed as u128).as_str());
    head.append("s):\n********\n");
    let mut block = Vec::new();
    block.push(Piece::Text(head));
    assert(piece_views(block@) =~= header(elapsed as nat));
    block
}

/// Writes the line of one section behind what `block` holds.
fn write_line(bucket: &SectionLogs, elapsed: usize, block: &mut Vec<Piece>)
    requires
        bucket@.logs.len() > 0,
    ensures
        piece_views(final(block)@) == piece_views(old(block)@) + line(bucket@, elapsed as nat),
{
    let total_reqs = bucket.logs.len();
    let total_bytes = sum_bytes(&bucket.logs);
    let avg_bytes = total_bytes / total_reqs as u128;
    let mut head = String::from_str("Section: ");
    head.append(bucket.section.as_str());
    head.append(", Total Hits: ");
    head.append(decimal_text(total_reqs as u128).as_str());
    head.append(", Avg Reqs/Sec: ");
    let mut tail = String::from_str("s, Avg Bytes: ");
    tail.append(decimal_text(avg_bytes).as_str());
    tail.append("\n");
    let ghost before = piece_views(block@);
    block.push(Piece::Text(head));
    block.push(Piece::Ratio(total_reqs as u128, elapsed as u128));
    block.push(Piece::Text(String::from_str(", Avg Time: ")));
    block.push(Piece::Ratio(elapsed as u128, total_reqs as u128));
    block.push(Piece::Text(tail));
    assert(piece_views(block@) =~= before + line(bucket@, elapsed as nat));
}

/// The statistics by section.
#[derive(Debug, PartialEq)]
pub struct Stats {
    period_in_secs: usize,
    buffer: Vec<SectionLogs>,
    last_time: usize,
}

impl View for Stats {
    type V = Ledger;

    closed spec fn view(&self) -> Ledger {
        Ledger {
            period: self.period_in_secs,
            buckets: tallies(self.buffer@),
            last_time: self.last_time,
        }
    }
}

impl Clone for Stats {
    fn clone(&self) -> (res: Self)
        ensures
            res@ == self@,
    {
        proof {
            use_type_invariant(self);
        }
        let mut buffer: Vec<SectionLogs> = Vec::new();
        let mut i: usize = 0;
        while i < self.buffer.len()
            invariant
                i <= self.buffer.len(),
                tallies(buffer@) == tallies(self.buffer@).take(i as int),
            decreases self.buffer.len() - i,
        {
            let ghost copied = buffer@;
            let bucket = self.buffer[i].clone();
            assert(bucket@ == tallies(self.buffer@)[i as int]);
            buffer.push(bucket);
            assert(tallies(buffer@) =~= tallies(copied).push(bucket@));
            assert(tallies(buffer@) =~= tallies(self.buffer@).take(i + 1));
            i += 1;
        }
        assert(tallies(buffer@) =~= tallies(self.buffer@));
        Stats { period_in_secs: self.period_in_secs, buffer, last_time: self.last_time }
    }
}

impl Stats {
    /// The invariant of the statistics: that of their model.
    pub open spec fn wf(&self) -> bool {
        self@.wf()
    }

    #[verifier::type_invariant]
    spec fn kept(&self) -> bool {
        self.wf()
    }

    /// Statistics that are flushed every `period_in_secs` seconds.
    pub fn new(period_in_secs: usize) -> (stats: Self)
        ensures
            stats.wf(),
            stats@ == Ledger::start(period_in_secs),
    {
        let buffer: Vec<SectionLogs> = Vec::new();
        assert(tallies(buffer@) =~= Seq::<Tally>::empty());
        Self { period_in_secs, buffer, last_time: 0 }
    }

    /// The statistics after one group, and the block that is due.
    fn processed(self, log_group: &GroupedHttpLogs) -> (after: (Self, Vec<Piece>))
        ensures
            (after.0@, piece_views(after.1@)) == self@.step(log_group@),
    {
        proof {
            use_type_invariant(&self);
        }
        let ghost before = self@.buckets;
        let Stats { period_in_secs, buffer, last_time } = self;
        let mut buffer = buffer;
        let mut i: usize = 0;
        while i < log_group.logs.len()
            invariant
                i <= log_group.logs.len(),
                sound(tallies(buffer@)),
                tallies(buffer@) == file_all(before, log_group.logs@.take(i as int)),
            decreases log_group.logs.len() - i,
        {
            proof {
                assert(log_group.logs@.take(i + 1).drop_last() =~= log_group.logs@.take(i as int));
            }
            file_record(&mut buffer, &log_group.logs[i]);
            i += 1;
        }
        proof {
            assert(log_group.logs@.take(i as int) =~= log_group.logs@);
        }
        if log_group.time >= last_time && log_group.time - last_time >= period_in_secs {
            let diff_time = log_group.time - last_time;
            let mut block = write_header(diff_time);
            let ghost filed = tallies(buffer@);
            let mut k: usize = 0;
            assert(filed.take(0) =~= Seq::<Tally>::empty());
            while k < buffer.len()
                invariant
                    k <= buffer.len(),
                    filed == tallies(buffer@),
                    sound(filed),
                    piece_views(block@) == header(diff_time as nat) + lines(
                        filed.take(k as int),
                        diff_time as nat,
                    ),
                decreases buffer.len() - k,
            {
                proof {
                    assert(filed.take(k + 1).drop_last() =~= filed.take(k as int));
                    assert(filed[k as int] == buffer@[k as int]@);
                    assert(filed[k as int].logs.len() > 0);
                }
                write_line(&buffer[k], diff_time, &mut block);
                proof {
                    assert(header(diff_time as nat) + lines(filed.take(k as int), diff_time as nat)
                        + line(filed[k as int], diff_time as nat) =~= header(diff_time as nat)
                        + lines(filed.take(k + 1), diff_time as nat));
                }
                k += 1;
            }
            proof {
                assert(filed.take(k as int) =~= filed);
            }
            buffer.clear();
            assert(tallies(buffer@) =~= Seq::<Tally>::empty());
            (Stats { period_in_secs, buffer, last_time: log_group.time }, block)
        } else {
            let block: Vec<Piece> = Vec::new();
            assert(piece_views(block@) =~= Seq::<PieceView>::empty());
            (Stats { period_in_secs, buffer, last_time }, block)
        }
    }
}

impl Processor for Stats {
    /// The statistics answer as their model does, never fail, and keep
    /// their invariant.
    open spec fn handles(
        &self,
        group: Group,
        next: &Self,
        outcome: Result<Seq<PieceView>, ProcessError>,
    ) -> bool {
        &&& next.wf()
        &&& (next@, outcome) == (self@.step(group).0, Ok::<Seq<PieceView>, ProcessError>(
            self@.step(group).1,
        ))
    }

    fn process(&mut self, log_group: &GroupedHttpLogs) -> (outcome: Outcome) {
        let mut taken = Stats::new(0);
        core::mem::swap(self, &mut taken);
        let (after, block) = taken.processed(log_group);
        *self = after;
        proof {
            use_type_invariant(&*self);
        }
        Ok(block)
    }
}

/// Two runs of the statistics over the same groups, from states that are
/// alike, are alike up to any point.
proof fn lemma_stats_runs_agree(
    first: Seq<Stats>,
    second: Seq<Stats>,
    groups: Seq<Group>,
    first_seen: Seq<Result<Seq<PieceView>, ProcessError>>,
    second_seen: Seq<Result<Seq<PieceView>, ProcessError>>,
    upto: int,
)
    requires
        chained(first, groups, first_seen),
        chained(second, groups, second_seen),
        first[0]@ == second[0]@,
        0 <= upto <= groups.len(),
    ensures
        first[upto]@ == second[upto]@,
        forall|k: int| 0 <= k < upto ==> first_seen[k] == second_seen[k],
    decreases upto,
{
    if upto > 0 {
        lemma_stats_runs_agree(first, second, groups, first_seen, second_seen, upto - 1);
        let k = upto - 1;
        assert(first[k].handles(groups[k], &first[k + 1], first_seen[k]));
        assert(second[k].handles(groups[k], &second[k + 1], second_seen[k]));
    }
}

/// Replay. The statistics leave nothing open: two runs over the same
/// groups, from states that are alike, write the same and end alike.
pub proof fn lemma_stats_replay(
    first: Seq<Stats>,
    second: Seq<Stats>,
    groups: Seq<Group>,
    first_seen: Seq<Result<Seq<PieceView>, ProcessError>>,
    second_seen: Seq<Result<Seq<PieceView>, ProcessError>>,
)
    requires
        chained(first, groups, first_seen),
        chained(second, groups, second_seen),
        first[0]@ == second[0]@,
    ensures
        first_seen == second_seen,
        first.last()@ == second.last()@,
{
    lemma_stats_runs_agree(first, second, groups, first_seen, second_seen, groups.len() as int);
    assert(first_seen =~= second_seen);
}

} // verus!
