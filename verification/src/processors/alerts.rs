//! The traffic alarm: the average rate of requests over a trailing window,
//! held against a threshold.

use std::collections::VecDeque;
use vstd::prelude::*;
use vstd::string::StringExecFns;
use crate::buffered_logs::GroupedHttpLogs;
use crate::processors::{chained, outcome_view, Outcome, ProcessError, Processor};
use crate::reorder::Group;
use crate::report::{decimal, decimal_text, piece_views, Piece, PieceView};

verus! {

/// How many requests one second brought.
#[derive(Debug, Clone, Copy, PartialEq, Eq)]
pub struct LogCounter {
    pub time: usize,
    pub req_count: usize,
}

impl From<&GroupedHttpLogs> for LogCounter {
    fn from(g: &GroupedHttpLogs) -> (counter: Self) {
        LogCounter { time: g.time, req_count: g.logs.len() }
    }
}

impl vstd::std_specs::convert::FromSpecImpl<&GroupedHttpLogs> for LogCounter {
    open spec fn obeys_from_spec() -> bool {
        true
    }

    /// The sample of a group: its second, and how many records it holds.
    open spec fn from_spec(g: &GroupedHttpLogs) -> Self {
        LogCounter { time: g.time, req_count: g.logs@.len() as usize }
    }
}

/// The requests that `samples` count, all together.
pub open spec fn total(samples: Seq<LogCounter>) -> nat
    decreases samples.len(),
{
    if samples.len() == 0 {
        0
    } else {
        total(samples.drop_last()) + samples.last().req_count as nat
    }
}

/// Those of `samples` that do not lie below `floor`, in their order.
pub open spec fn retained(samples: Seq<LogCounter>, floor: usize) -> Seq<LogCounter>
    decreases samples.len(),
{
    if samples.len() == 0 {
        samples
    } else if samples.last().time >= floor {
        retained(samples.drop_last(), floor).push(samples.last())
    } else {
        retained(samples.drop_last(), floor)
    }
}

/// Whether the oldest of `samples` lies `span` seconds or more behind
/// `origin`.
pub open spec fn lagging(samples: Seq<LogCounter>, origin: usize, span: usize) -> bool {
    exists|i: int| 0 <= i < samples.len() && (#[trigger] samples[i]).time + span <= origin
}

/// The marker of an alarm where the terminal takes no colours.
pub open spec fn plain_prefix() -> Seq<char> {
    "\n>>> ALERT\n"@
}

/// The marker of an alarm where the terminal takes colours: red and bold.
pub open spec fn styled_prefix() -> Seq<char> {
    "\x1b[31m\x1b[1m\n>>> ALERT\n\x1b[0m"@
}

/// A message with `marker` in front of it, as a piece of its own. Where
/// there is no message, there is no marker.
pub open spec fn marked(marker: Seq<char>, message: Seq<PieceView>) -> Seq<PieceView> {
    if message.len() == 0 {
        message
    } else {
        seq![PieceView::Text(marker)] + message
    }
}

/// The message that the rate has risen above the threshold.
pub open spec fn high_traffic(hits: nat, span: nat, time: nat) -> Seq<PieceView> {
    seq![
        PieceView::Text("High traffic generated an alert - hits = "@),
        PieceView::Ratio(hits, span),
        PieceView::Text(", triggered at "@ + decimal(time) + "\n"@),
    ]
}

/// The message that the rate has come back to the threshold or below it.
pub open spec fn recovered(hits: nat, span: nat, time: nat) -> Seq<PieceView> {
    seq![
        PieceView::Text("Normal traffic recovered - hits = "@),
        PieceView::Ratio(hits, span),
        PieceView::Text(", recovered at "@ + decimal(time) + "\n"@),
    ]
}

/// The state of the alarm.
pub struct Window {
    /// The rate, in requests per second, above which the alarm is raised.
    pub threshold: usize,
    /// The length of the window, in seconds.
    pub span: usize,
    /// The floor: no group below it is taken.
    pub floor: usize,
    /// The origin: the latest second seen.
    pub origin: usize,
    /// The samples of the window, in arrival order.
    pub samples: Seq<LogCounter>,
    /// Whether the alarm is raised.
    pub alerting: bool,
}

impl Window {
    /// The state before any group, with the alarm down.
    pub open spec fn start(threshold: usize, span: usize) -> Window {
        Window { threshold, span, floor: 0, origin: 0, samples: Seq::empty(), alerting: false }
    }

    /// The invariant: every sample lies between the floor and the origin,
    /// and no more than the span behind the origin; the alarm is raised
    /// if and only if the requests of the window, over the span, come to
    /// more than the threshold.
    pub open spec fn wf(self) -> bool {
        &&& forall|i: int|
            0 <= i < self.samples.len() ==> self.floor <= (#[trigger] self.samples[i]).time
                <= self.origin
        &&& forall|i: int|
            0 <= i < self.samples.len() ==> self.origin <= (#[trigger] self.samples[i]).time
                + self.span
        &&& self.alerting <==> total(self.samples) > self.threshold * self.span
    }

    /// What one sample does. The first sample sets floor and origin. A
    /// later one below the floor is refused, and nothing changes. Else the
    /// sample joins the window and the origin moves up to it; where the
    /// oldest sample then lies `span` seconds or more behind the origin,
    /// the floor rises to `span` below the origin and the samples below it
    /// leave. The rate is the requests of the window over `span`; a
    /// message is due where the rate crosses the threshold: one when it
    /// gets above, one when it is no longer above.
    pub open spec fn step(self, sample: LogCounter) -> (
        Window,
        Result<Seq<PieceView>, ProcessError>,
    ) {
        let first = self.samples.len() == 0;
        if !first && sample.time < self.floor {
            (self, Err(ProcessError::OutOfOrder { time: sample.time, floor: self.floor }))
        } else {
            let origin = if first || sample.time > self.origin {
                sample.time
            } else {
                self.origin
            };
            let pushed = self.samples.push(sample);
            let raise = lagging(pushed, origin, self.span);
            let floor = if raise {
                (origin - self.span) as usize
            } else if first {
                sample.time
            } else {
                self.floor
            };
            let samples = if raise {
                retained(pushed, floor)
            } else {
                pushed
            };
            let hits = total(samples);
            let above = hits > self.threshold * self.span;
            let next = Window { floor, origin, samples, alerting: above, ..self };
            let output = if above && !self.alerting {
                high_traffic(hits, self.span as nat, sample.time as nat)
            } else if !above && self.alerting {
                recovered(hits, self.span as nat, sample.time as nat)
            } else {
                Seq::empty()
            };
            (next, Ok(output))
        }
    }
}

/// The requests of the samples come to no more than the largest count
/// times their number.
pub proof fn lemma_total_bound(samples: Seq<LogCounter>)
    ensures
        total(samples) <= samples.len() * usize::MAX,
    decreases samples.len(),
{
    if samples.len() > 0 {
        lemma_total_bound(samples.drop_last());
        assert((samples.len() - 1) * usize::MAX + usize::MAX == samples.len() * usize::MAX)
            by (nonlinear_arith);
    }
}

/// What is kept of samples between two marks lies between them still.
pub proof fn lemma_retained_within(samples: Seq<LogCounter>, floor: usize, origin: usize)
    requires
        forall|i: int| 0 <= i < samples.len() ==> (#[trigger] samples[i]).time <= origin,
    ensures
        forall|i: int|
            0 <= i < retained(samples, floor).len() ==> floor <= (#[trigger] retained(
                samples,
                floor,
            )[i]).time <= origin,
    decreases samples.len(),
{
    if samples.len() > 0 {
        let front = samples.drop_last();
        assert forall|i: int| 0 <= i < front.len() implies (#[trigger] front[i]).time
            <= origin by {
            assert(front[i] == samples[i]);
        }
        lemma_retained_within(front, floor, origin);
        let kept = retained(samples, floor);
        assert forall|i: int| 0 <= i < kept.len() implies floor <= (#[trigger] kept[i]).time
            <= origin by {
            if i < retained(front, floor).len() {
                assert(kept[i] == retained(front, floor)[i]);
            } else {
                assert(kept[i] == samples.last());
            }
        }
    }
}

/// Adds up the requests of the samples.
fn sum_requests(buffer: &VecDeque<LogCounter>) -> (hits: u128)
    ensures
        hits == total(buffer@),
{
    let mut hits: u128 = 0;
    let mut i: usize = 0;
    while i < buffer.len()
        invariant
            i <= buffer.len(),
            hits == total(buffer@.take(i as int)),
        decreases buffer.len() - i,
    {
        proof {
            lemma_total_bound(buffer@.take(i as int));
            assert(buffer@.take(i + 1).drop_last() =~= buffer@.take(i as int));
            assert(i * usize::MAX + usize::MAX <= u128::MAX) by (nonlinear_arith)
                requires
                    i < usize::MAX,
                    usize::MAX <= 0xffff_ffff_ffff_ffff,
            ;
        }
        hits = hits + buffer[i].req_count as u128;
        i += 1;
    }
    proof {
        assert(buffer@.take(i as int) =~= buffer@);
    }
    hits
}

/// Whether a sample lies at or below `mark`.
fn any_at_or_below(buffer: &VecDeque<LogCounter>, mark: usize) -> (found: bool)
    ensures
        found == exists|i: int| 0 <= i < buffer@.len() && (#[trigger] buffer@[i]).time <= mark,
{
    let mut i: usize = 0;
    while i < buffer.len()
        invariant
            i <= buffer.len(),
            forall|k: int| 0 <= k < i ==> (#[trigger] buffer@[k]).time > mark,
        decreases buffer.len() - i,
    {
        if buffer[i].time <= mark {
            return true;
        }
        i += 1;
    }
    false
}

/// Drops the samples below `floor`; the others keep their order.
fn evict_below(buffer: &mut VecDeque<LogCounter>, floor: usize)
    ensures
        final(buffer)@ == retained(old(buffer)@, floor),
{
    let ghost before = buffer@;
    let count = buffer.len();
    let mut i: usize = 0;
    assert(before.skip(0) + retained(before.take(0), floor) =~= before);
    while i < count
        invariant
            i <= count,
            count == before.len(),
            buffer@ == before.skip(i as int) + retained(before.take(i as int), floor),
        decreases count - i,
    {
        proof {
            assert(before.take(i + 1).drop_last() =~= before.take(i as int));
            assert(before.skip(i as int)[0] == before[i as int]);
        }
        let ghost kept = retained(before.take(i as int), floor);
        if let Some(sample) = buffer.pop_front() {
            assert(buffer@ =~= before.skip(i + 1) + kept);
            if sample.time >= floor {
                buffer.push_back(sample);
                assert(buffer@ =~= before.skip(i + 1) + kept.push(sample));
            }
        }
        i += 1;
    }
    proof {
        assert(before.take(count as int) =~= before);
        assert(buffer@ =~= retained(before, floor));
    }
}

/// Writes the message that the rate has risen above the threshold.
pub fn high_traffic_message(hits: u128, span: usize, time: usize) -> (message: Vec<Piece>)
    ensures
        piece_views(message@) == high_traffic(hits as nat, span as nat, time as nat),
{
    let mut tail = String::from_str(", triggered at ");
    tail.append(decimal_text(time as u128).as_str());
    tail.append("\n");
    let mut message = Vec::new();
    message.push(Piece::Text(String::from_str("High traffic generated an alert - hits = ")));
    message.push(Piece::Ratio(hits, span as u128));
    message.push(Piece::Text(tail));
    assert(piece_views(message@) =~= high_traffic(hits as nat, span as nat, time as nat));
    message
}

/// Writes the message that the rate has come back to the threshold or
/// below it.
pub fn recovered_message(hits: u128, span: usize, time: usize) -> (message: Vec<Piece>)
    ensures
        piece_views(message@) == recovered(hits as nat, span as nat, time as nat),
{
    let mut tail = String::from_str(", recovered at ");
    tail.append(decimal_text(time as u128).as_str());
    tail.append("\n");
    let mut message = Vec::new();
    message.push(Piece::Text(String::from_str("Normal traffic recovered - hits = ")));
    message.push(Piece::Ratio(hits, span as u128));
    message.push(Piece::Text(tail));
    assert(piece_views(message@) =~= recovered(hits as nat, span as nat, time as nat));
    message
}

/// The marker of an alarm on the terminal. Calls `console::style` on the
/// marker's text, then `bold` and `red` on the styled text, and writes it
/// out with `to_string`. Taken on trust from there: the text is the marker
/// as it stands where `console` finds colours switched off, and the marker
/// between the escape codes for red and bold and the code that resets them
/// where it finds colours switched on. Which of the two depends on the
/// terminal and the environment, and may differ from call to call.
#[verifier::external_body]
fn alert_prefix() -> (prefix: String)
    ensures
        prefix@ == plain_prefix() || prefix@ == styled_prefix(),
{
    console::style("\n>>> ALERT\n").bold().red().to_string()
}

/// Puts `marker` in front of a message, as a piece of its own. Where there
/// is no message, nothing is put.
pub fn mark(marker: &str, message: Vec<Piece>) -> (shown: Vec<Piece>)
    ensures
        piece_views(shown@) == marked(marker@, piece_views(message@)),
{
    if message.len() == 0 {
        return message;
    }
    let mut message = message;
    let ghost said = message@;
    let mut shown = Vec::new();
    shown.push(Piece::Text(String::from_str(marker)));
    shown.append(&mut message);
    assert(piece_views(shown@) =~= seq![PieceView::Text(marker@)] + piece_views(said));
    shown
}

/// Shows a message of the alarm on the terminal: with the marker of an
/// alarm in front of it, in colours where the terminal takes them. The
/// message itself stays as it is.
pub fn announce(message: Vec<Piece>) -> (shown: Vec<Piece>)
    ensures
        piece_views(shown@) == marked(plain_prefix(), piece_views(message@)) || piece_views(
            shown@,
        ) == marked(styled_prefix(), piece_views(message@)),
{
    let marker = alert_prefix();
    mark(marker.as_str(), message)
}

/// The traffic alarm.
#[derive(Debug, PartialEq)]
pub struct Alerts {
    avg_req_sec_threshold: usize,
    minor_time: usize,
    major_time: usize,
    buffer: VecDeque<LogCounter>,
    is_alert_set: bool,
    window_size_in_secs: usize,
}

impl View for Alerts {
    type V = Window;

    closed spec fn view(&self) -> Window {
        Window {
            threshold: self.avg_req_sec_threshold,
            span: self.window_size_in_secs,
            floor: self.minor_time,
            origin: self.major_time,
            samples: self.buffer@,
            alerting: self.is_alert_set,
        }
    }
}

impl Clone for Alerts {
    fn clone(&self) -> (res: Self)
        ensures
            res@ == self@,
    {
        proof {
            use_type_invariant(self);
        }
        let mut buffer: VecDeque<LogCounter> = VecDeque::new();
        let mut i: usize = 0;
        while i < self.buffer.len()
            invariant
                i <= self.buffer.len(),
                buffer@ == self.buffer@.take(i as int),
            decreases self.buffer.len() - i,
        {
            let sample = self.buffer[i];
            buffer.push_back(sample);
            assert(buffer@ =~= self.buffer@.take(i + 1));
            i += 1;
        }
        assert(buffer@ =~= self.buffer@);
        Alerts {
            avg_req_sec_threshold: self.avg_req_sec_threshold,
            minor_time: self.minor_time,
            major_time: self.major_time,
            buffer,
            is_alert_set: self.is_alert_set,
            window_size_in_secs: self.window_size_in_secs,
        }
    }
}

impl Alerts {
    /// The invariant of the alarm: that of its model.
    pub open spec fn wf(&self) -> bool {
        self@.wf()
    }

    #[verifier::type_invariant]
    spec fn kept(&self) -> bool {
        self.wf()
    }

    /// An alarm that is raised above `avg_req_sec_threshold` requests per
    /// second, on the average of a window of `window_size_in_secs` seconds.
    pub fn new(avg_req_sec_threshold: usize, window_size_in_secs: usize) -> (alerts: Self)
        ensures
            alerts.wf(),
            alerts@ == Window::start(avg_req_sec_threshold, window_size_in_secs),
    {
        Self {
            avg_req_sec_threshold,
            minor_time: 0,
            major_time: 0,
            buffer: VecDeque::new(),
            is_alert_set: false,
            window_size_in_secs,
        }
    }

    /// The alarm after the sample of one second, and the message that is
    /// due.
    fn evaluated(self, sample: LogCounter) -> (after: (Self, Outcome))
        ensures
            (after.0@, outcome_view(after.1)) == self@.step(sample),
    {
        proof {
            use_type_invariant(&self);
        }
        let ghost before = self@;
        let first = self.buffer.len() == 0;
        if !first && sample.time < self.minor_time {
            let floor = self.minor_time;
            return (self, Err(ProcessError::OutOfOrder { time: sample.time, floor }));
        }
        let Alerts {
            avg_req_sec_threshold,
            minor_time,
            major_time,
            buffer,
            is_alert_set,
            window_size_in_secs,
        } = self;
        let mut buffer = buffer;
        let mut floor: usize = if first {
            sample.time
        } else {
            minor_time
        };
        let origin: usize = if first || sample.time > major_time {
            sample.time
        } else {
            major_time
        };
        buffer.push_back(sample);
        let ghost pushed = buffer@;
        proof {
            assert forall|i: int| 0 <= i < pushed.len() implies floor <= (
            #[trigger] pushed[i]).time <= origin by {
                if i < before.samples.len() {
                    assert(pushed[i] == before.samples[i]);
                }
            }
        }
        if origin >= window_size_in_secs && any_at_or_below(
            &buffer,
            origin - window_size_in_secs,
        ) {
            floor = origin - window_size_in_secs;
            proof {
                lemma_retained_within(pushed, floor, origin);
            }
            evict_below(&mut buffer, floor);
        }
        let hits = sum_requests(&buffer);
        assert(avg_req_sec_threshold * window_size_in_secs <= u128::MAX) by (nonlinear_arith)
            requires
                avg_req_sec_threshold <= 0xffff_ffff_ffff_ffff,
                window_size_in_secs <= 0xffff_ffff_ffff_ffff,
        ;
        let is_above_threshold = hits > avg_req_sec_threshold as u128 * window_size_in_secs as u128;
        let message = if is_above_threshold && !is_alert_set {
            high_traffic_message(hits, window_size_in_secs, sample.time)
        } else if is_alert_set && !is_above_threshold {
            recovered_message(hits, window_size_in_secs, sample.time)
        } else {
            Vec::new()
        };
        proof {
            assert(!(is_above_threshold && !is_alert_set) && !(is_alert_set
                && !is_above_threshold) ==> piece_views(message@) =~= Seq::<PieceView>::empty());
        }
        let after = Alerts {
            avg_req_sec_threshold,
            minor_time: floor,
            major_time: origin,
            buffer,
            is_alert_set: is_above_threshold,
            window_size_in_secs,
        };
        (after, Ok(message))
    }

    /// Takes the sample of one second, and writes the message that is due.
    pub fn evaluate(&mut self, sample: LogCounter) -> (outcome: Outcome)
        ensures
            final(self).wf(),
            (final(self)@, outcome_view(outcome)) == old(self)@.step(sample),
    {
        let mut taken = Alerts::new(0, 0);
        core::mem::swap(self, &mut taken);
        let (after, outcome) = taken.evaluated(sample);
        *self = after;
        proof {
            use_type_invariant(&*self);
        }
        outcome
    }
}

impl Processor for Alerts {
    /// The alarm answers as its model does on the sample of the group,
    /// and keeps its invariant.
    open spec fn handles(
        &self,
        group: Group,
        next: &Self,
        outcome: Result<Seq<PieceView>, ProcessError>,
    ) -> bool {
        &&& next.wf()
        &&& (next@, outcome) == self@.step(
            LogCounter { time: group.time, req_count: group.logs.len() as usize },
        )
    }

    fn process(&mut self, log_group: &GroupedHttpLogs) -> (outcome: Outcome) {
        self.evaluate(LogCounter::from(log_group))
    }
}

/// Two runs of the alarm over the same groups, from states that are
/// alike, are alike up to any point.
proof fn lemma_alerts_runs_agree(
    first: Seq<Alerts>,
    second: Seq<Alerts>,
    groups: Seq<Group>,
    first_seen: Seq<Result<Seq<PieceView>, ProcessError>>,
    second_seen: Seq<Result<Seq<PieceView>, ProcessError>>,
    upto: int,
)
    requires
        chained(first, groups, first_seen),
        chained(second, groups, second_seen),
        first[0]@ == second[0]@,
        0 <= upto <= groups.len(),
    ensures
        first[upto]@ == second[upto]@,
        forall|k: int| 0 <= k < upto ==> first_seen[k] == second_seen[k],
    decreases upto,
{
    if upto > 0 {
        lemma_alerts_runs_agree(first, second, groups, first_seen, second_seen, upto - 1);
        let k = upto - 1;
        assert(first[k].handles(groups[k], &first[k + 1], first_seen[k]));
        assert(second[k].handles(groups[k], &second[k + 1], second_seen[k]));
    }
}

/// Replay. The alarm leaves nothing open: two runs over the same groups,
/// from states that are alike, write the same and end alike.
pub proof fn lemma_alerts_replay(
    first: Seq<Alerts>,
    second: Seq<Alerts>,
    groups: Seq<Group>,
    first_seen: Seq<Result<Seq<PieceView>, ProcessError>>,
    second_seen: Seq<Result<Seq<PieceView>, ProcessError>>,
)
    requires
        chained(first, groups, first_seen),
        chained(second, groups, second_seen),
        first[0]@ == second[0]@,
    ensures
        first_seen == second_seen,
        first.last()@ == second.last()@,
{
    lemma_alerts_runs_agree(first, second, groups, first_seen, second_seen, groups.len() as int);
    assert(first_seen =~= second_seen);
}

} // verus!
