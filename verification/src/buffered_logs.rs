//! The resequencer: buffers records by timestamp and hands them on second
//! by second, in order, once the reorder window has passed.

use std::collections::HashMap;
use vstd::prelude::*;
use crate::reader::{HttpLog, LogResult};
use crate::reorder::{Answer, Decision, Group, Reorder};
use crate::reorder_laws::{
    bounded_skew, emitted_at, flattened, increasing, lemma_absorb_wf, lemma_feed_wf,
    lemma_never_suspends, lemma_release_wf, lemma_resequenced_groups_whole, lemma_resequenced_in_order,
    lemma_resequenced_keeps_records, lemma_resequenced_union, lemma_run_emit, parsed, records_at,
    uniform,
};

verus! {

/// The records of one second, in arrival order.
#[derive(Debug, PartialEq, Eq)]
pub struct GroupedHttpLogs {
    pub time: usize,
    pub logs: Vec<HttpLog>,
}

impl Clone for GroupedHttpLogs {
    fn clone(&self) -> (res: Self)
        ensures
            res@ == self@,
    {
        let mut logs: Vec<HttpLog> = Vec::new();
        let mut i: usize = 0;
        while i < self.logs.len()
            invariant
                i <= self.logs.len(),
                logs@ == self.logs@.take(i as int),
            decreases self.logs.len() - i,
        {
            logs.push(self.logs[i].clone());
            assert(logs@ =~= self.logs@.take(i + 1));
            i += 1;
        }
        assert(logs@ =~= self.logs@);
        GroupedHttpLogs { time: self.time, logs }
    }
}

impl View for GroupedHttpLogs {
    type V = Group;

    open spec fn view(&self) -> Group {
        Group { time: self.time, logs: self.logs@ }
    }
}

/// What the caller of the resequencer is to do next.
#[derive(Debug, PartialEq, Eq)]
pub enum Action {
    /// Pull the next item from the source and hand back its answer.
    Pull,
    /// Pass this group on.
    Emit(GroupedHttpLogs),
    /// Wait until the source is ready, then resume.
    Suspend,
    /// Stop: the sequence has ended.
    End,
}

impl View for Action {
    type V = Decision;

    open spec fn view(&self) -> Decision {
        match self {
            Action::Pull => Decision::Pull,
            Action::Emit(group) => Decision::Emit(group@),
            Action::Suspend => Decision::Suspend,
            Action::End => Decision::End,
        }
    }
}

/// The models of `groups`, one by one.
pub open spec fn views(groups: Seq<GroupedHttpLogs>) -> Seq<Group> {
    groups.map_values(|g: GroupedHttpLogs| g@)
}

/// Whether `keys` falls strictly from each item to the next.
pub open spec fn descending(keys: Seq<usize>) -> bool {
    forall|i: int, j: int| 0 <= i < j < keys.len() ==> keys[i] > keys[j]
}

/// Puts `t` into the falling list `keys`, at its place.
fn insert_descending(keys: &mut Vec<usize>, t: usize)
    requires
        descending(old(keys)@),
        !old(keys)@.contains(t),
    ensures
        descending(final(keys)@),
        forall|u: usize| final(keys)@.contains(u) <==> old(keys)@.contains(u) || u == t,
{
    let mut at: usize = 0;
    while at < keys.len() && keys[at] > t
        invariant
            at <= keys.len(),
            forall|i: int| 0 <= i < at ==> keys[i] > t,
        decreases keys.len() - at,
    {
        at += 1;
    }
    let ghost before = keys@;
    keys.insert(at, t);
    proof {
        assert(keys@ == before.insert(at as int, t));
        assert forall|i: int, j: int| 0 <= i < j < keys.len() implies keys[i] > keys[j] by {
            if j < at {
                assert(keys[i] == before[i] && keys[j] == before[j]);
            } else if j == at {
                assert(keys[i] == before[i]);
            } else if i < at {
                assert(keys[i] == before[i] && keys[j] == before[j - 1]);
                assert(before.contains(before[j - 1]));
            } else if i == at {
                assert(keys[j] == before[j - 1]);
                assert(before.contains(before[j - 1]));
                if j - 1 > at {
                    assert(before[at as int] > before[j - 1]);
                }
            } else {
                assert(keys[i] == before[i - 1] && keys[j] == before[j - 1]);
            }
        }
        assert forall|u: usize| keys@.contains(u) <==> before.contains(u) || u == t by {
            if keys@.contains(u) {
                let k = choose|k: int| 0 <= k < keys@.len() && keys@[k] == u;
                if k < at {
                    assert(before[k] == u);
                } else if k > at {
                    assert(before[k - 1] == u);
                }
            }
            if before.contains(u) {
                let k = choose|k: int| 0 <= k < before.len() && before[k] == u;
                if k < at {
                    assert(keys@[k] == u);
                } else {
                    assert(keys@[k + 1] == u);
                }
            }
            if u == t {
                assert(keys@[at as int] == u);
            }
        }
    }
}

/// A group that has come out may be counted with what came out before it.
proof fn lemma_push_front(done: Seq<Group>, group: Group, tail: Seq<Group>)
    ensures
        done.push(group) + tail == done + (seq![group] + tail),
{
    assert(done.push(group) + tail =~= done + (seq![group] + tail));
}

/// The models of groups, one more pushed.
proof fn lemma_views_push(groups: Seq<GroupedHttpLogs>, group: GroupedHttpLogs)
    ensures
        views(groups.push(group)) == views(groups).push(group@),
{
    assert(views(groups.push(group)) =~= views(groups).push(group@));
}

/// One group leaves: what has come out and what is still to come out stay,
/// together, what they were.
proof fn lemma_emit_step(
    prior: Reorder,
    items: Seq<LogResult>,
    groups: Seq<GroupedHttpLogs>,
    group: GroupedHttpLogs,
)
    requires
        prior.wf(),
        prior.decide().1 == Decision::Emit(group@),
    ensures
        prior.release().wf(),
        prior.release().groups.dom().len() < prior.groups.dom().len(),
        views(groups.push(group)) + prior.release().run(items) == views(groups) + prior.run(
            items,
        ),
{
    lemma_release_wf(prior);
    lemma_run_emit(prior, items, group@);
    lemma_views_push(groups, group);
    lemma_push_front(views(groups), group@, prior.release().run(items));
}

/// The resequencer's buffer and watermarks. It reads no source itself: its
/// caller pulls when told to and hands back what the source answered.
///
/// A record that arrives behind the low watermark is taken like any other:
/// the low watermark moves down to it, and its group is the next to leave.
/// So no record is ever dropped; the groups come out in order as long as
/// no record arrives more than the window behind an earlier one.
#[derive(Debug)]
pub struct BufferedLogs {
    seconds: usize,
    time_buffer: HashMap<usize, Vec<HttpLog>>,
    ordered_time_buffer: Vec<usize>,
    minor_time_in_buffer: usize,
    major_time_in_buffer: usize,
    started: bool,
    done: bool,
    failures: usize,
}

/// The model of a buffer that holds `time_buffer` and these marks.
spec fn model_of(
    seconds: usize,
    time_buffer: HashMap<usize, Vec<HttpLog>>,
    minor: usize,
    major: usize,
    started: bool,
    done: bool,
    failures: usize,
) -> Reorder {
    Reorder {
        window: seconds,
        groups: Map::new(|t: usize| time_buffer@.contains_key(t), |t: usize| time_buffer@[t]@),
        low: minor,
        high: major,
        started,
        exhausted: done,
        failures,
    }
}

/// Whether `keys` is the strictly falling list of the seconds that
/// `time_buffer` holds.
spec fn lists(keys: Seq<usize>, time_buffer: HashMap<usize, Vec<HttpLog>>) -> bool {
    &&& descending(keys)
    &&& forall|t: usize| time_buffer@.contains_key(t) <==> keys.contains(t)
}

impl View for BufferedLogs {
    type V = Reorder;

    closed spec fn view(&self) -> Reorder {
        model_of(
            self.seconds,
            self.time_buffer,
            self.minor_time_in_buffer,
            self.major_time_in_buffer,
            self.started,
            self.done,
            self.failures,
        )
    }
}

impl BufferedLogs {
    /// The invariant of the buffer: that of its model, and that of its
    /// own book-keeping. It holds of every buffer at all times.
    pub open spec fn wf(&self) -> bool {
        &&& self@.wf()
        &&& self.indexed()
    }

    /// The list of buffered timestamps falls strictly and names each
    /// buffered second.
    pub closed spec fn indexed(&self) -> bool {
        lists(self.ordered_time_buffer@, self.time_buffer)
    }

    #[verifier::type_invariant]
    spec fn kept(&self) -> bool {
        self.wf()
    }

    /// An empty buffer with a reorder window of `seconds`.
    pub fn new(seconds: usize) -> (buffer: Self)
        ensures
            buffer.wf(),
            buffer@ == Reorder::start(seconds),
    {
        let time_buffer: HashMap<usize, Vec<HttpLog>> = HashMap::new();
        proof {
            assert(model_of(seconds, time_buffer, 0, 0, false, false, 0).groups =~= Map::empty());
        }
        BufferedLogs {
            seconds,
            time_buffer,
            ordered_time_buffer: Vec::new(),
            minor_time_in_buffer: 0,
            major_time_in_buffer: 0,
            started: false,
            done: false,
            failures: 0,
        }
    }

    /// How many lines that could not be parsed have been passed over.
    pub fn failures(&self) -> (count: usize)
        ensures
            count == self@.failures,
    {
        self.failures
    }

    /// Whether the source is to be pulled next: it has not ended, and the
    /// watermarks lie no more than the window apart.
    pub fn wants_input(&self) -> (wanted: bool)
        ensures
            wanted == self@.wants_input(),
    {
        proof {
            use_type_invariant(self);
        }
        !self.done && self.major_time_in_buffer - self.minor_time_in_buffer <= self.seconds
    }

    /// The buffer after a record has been taken in: the watermarks widen
    /// to its timestamp, and it joins the group of its second, which is
    /// opened if need be.
    fn absorbed(self, log: HttpLog) -> (after: Self)
        requires
            !self@.exhausted,
        ensures
            after@ == self@.absorb(log),
    {
        broadcast use vstd::std_specs::hash::group_hash_axioms;

        proof {
            use_type_invariant(&self);
            lemma_absorb_wf(self@, log);
        }
        let ghost before = self@;
        let BufferedLogs {
            seconds,
            time_buffer,
            ordered_time_buffer,
            minor_time_in_buffer,
            major_time_in_buffer,
            started,
            done,
            failures,
        } = self;
        let mut time_buffer = time_buffer;
        let mut ordered_time_buffer = ordered_time_buffer;
        let t = log.time;
        let minor: usize = if !started || t < minor_time_in_buffer {
            t
        } else {
            minor_time_in_buffer
        };
        let major: usize = if !started || t > major_time_in_buffer {
            t
        } else {
            major_time_in_buffer
        };
        if !time_buffer.contains_key(&t) {
            insert_descending(&mut ordered_time_buffer, t);
        }
        let logs = time_buffer.entry(t).or_insert(Vec::new());
        logs.push(log);
        proof {
            let now = model_of(seconds, time_buffer, minor, major, true, done, failures);
            assert(now.groups =~= before.absorb(log).groups);
            assert(now == before.absorb(log));
        }
        BufferedLogs {
            seconds,
            time_buffer,
            ordered_time_buffer,
            minor_time_in_buffer: minor,
            major_time_in_buffer: major,
            started: true,
            done,
            failures,
        }
    }

    /// The buffer after what comes next, and what that is.
    fn resumed(self) -> (after: (Self, Action))
        ensures
            (after.0@, after.1@) == self@.decide(),
            !(after.1 is Suspend),
    {
        broadcast use vstd::std_specs::hash::group_hash_axioms;

        proof {
            use_type_invariant(&self);
            lemma_never_suspends(self@);
        }
        if self.wants_input() {
            return (self, Action::Pull);
        }
        let ghost before = self@;
        let ghost keys = self.ordered_time_buffer@;
        proof {
            if !before.groups.dom().is_empty() {
                lemma_release_wf(before);
                assert(self.time_buffer@.contains_key(before.low));
                assert(keys.contains(before.low));
                let k = choose|k: int| 0 <= k < keys.len() && keys[k] == before.low;
                assert(keys.contains(keys.last()));
                assert(self.time_buffer@.contains_key(keys.last()));
                assert(before.groups.dom().contains(keys.last()));
                assert(keys.last() == before.low);
            } else {
                assert(keys.len() == 0) by {
                    if keys.len() > 0 {
                        assert(keys.contains(keys[0]));
                        assert(before.groups.dom().contains(keys[0]));
                    }
                }
            }
        }
        let BufferedLogs {
            seconds,
            time_buffer,
            ordered_time_buffer,
            minor_time_in_buffer,
            major_time_in_buffer,
            started,
            done,
            failures,
        } = self;
        let mut time_buffer = time_buffer;
        let mut ordered_time_buffer = ordered_time_buffer;
        if let Some(log_time) = ordered_time_buffer.pop() {
            let left = ordered_time_buffer.len();
            let minor: usize = if left > 0 {
                ordered_time_buffer[left - 1]
            } else {
                major_time_in_buffer
            };
            if let Some(logs) = time_buffer.remove(&log_time) {
                proof {
                    let rest = ordered_time_buffer@;
                    let now = model_of(
                        seconds,
                        time_buffer,
                        minor,
                        major_time_in_buffer,
                        started,
                        done,
                        failures,
                    );
                    assert(rest == keys.drop_last());
                    assert(now.groups =~= before.groups.remove(before.low));
                    assert forall|t: usize| time_buffer@.contains_key(t) <==> rest.contains(t) by {
                        if rest.contains(t) {
                            let k = choose|k: int| 0 <= k < rest.len() && rest[k] == t;
                            assert(keys[k] == t);
                            assert(keys.contains(t));
                        }
                        if time_buffer@.contains_key(t) {
                            assert(keys.contains(t));
                            let k = choose|k: int| 0 <= k < keys.len() && keys[k] == t;
                            assert(rest[k] == t);
                        }
                    }
                    if left > 0 {
                        let m = rest.last();
                        assert(rest.contains(m));
                        assert(now.groups.dom().contains(m));
                        assert forall|u: usize| now.groups.dom().contains(u) implies m <= u by {
                            assert(rest.contains(u));
                            let k = choose|k: int| 0 <= k < rest.len() && rest[k] == u;
                        }
                        assert(m == before.release().low);
                    } else {
                        assert(now.groups.dom().is_empty()) by {
                            if !now.groups.dom().is_empty() {
                                let u = choose|u: usize| now.groups.dom().contains(u);
                                assert(rest.contains(u));
                            }
                        }
                    }
                    assert(now == before.release());
                }
                let after = BufferedLogs {
                    seconds,
                    time_buffer,
                    ordered_time_buffer,
                    minor_time_in_buffer: minor,
                    major_time_in_buffer,
                    started,
                    done,
                    failures,
                };
                return (after, Action::Emit(GroupedHttpLogs { time: log_time, logs }));
            }
        }
        let after = BufferedLogs {
            seconds,
            time_buffer,
            ordered_time_buffer,
            minor_time_in_buffer,
            major_time_in_buffer,
            started,
            done,
            failures,
        };
        if done {
            (after, Action::End)
        } else {
            (after, Action::Suspend)
        }
    }

    /// Decides what comes next, on entry and on every re-entry: a pull while
    /// the watermarks lie within the window and the source has not ended;
    /// else the group of the smallest buffered second, which leaves the
    /// buffer; else the end.
    pub fn resume(&mut self) -> (action: Action)
        ensures
            final(self).wf(),
            (final(self)@, action@) == old(self)@.decide(),
            !(action is Suspend),
    {
        let mut taken = BufferedLogs::new(0);
        core::mem::swap(self, &mut taken);
        let (after, action) = taken.resumed();
        *self = after;
        proof {
            use_type_invariant(&*self);
        }
        action
    }

    /// Takes the source's answer to a pull, and decides what comes next. A
    /// record is buffered; a line that could not be parsed is counted and
    /// passed over; where the source is not ready, the caller is to wait,
    /// and nothing changes; where it has ended, what is buffered drains.
    pub fn advance(&mut self, answer: Answer) -> (action: Action)
        requires
            old(self)@.wants_input(),
        ensures
            final(self).wf(),
            (final(self)@, action@) == old(self)@.advance(answer),
            action is Suspend <==> answer is NotReady,
    {
        proof {
            use_type_invariant(&*self);
        }
        match answer {
            Answer::Item(Ok(log)) => {
                let mut taken = BufferedLogs::new(0);
                core::mem::swap(self, &mut taken);
                *self = taken.absorbed(log);
                self.resume()
            },
            Answer::Item(Err(_)) => {
                if self.failures < usize::MAX {
                    self.failures += 1;
                }
                self.resume()
            },
            Answer::NotReady => Action::Suspend,
            Answer::Exhausted => {
                self.done = true;
                self.resume()
            },
        }
    }

    /// Passes on the groups that are due: `action`, decided in state `at`,
    /// and every group decided after it, until something else is decided.
    fn pump(
        &mut self,
        action: Action,
        groups: &mut Vec<GroupedHttpLogs>,
        Ghost(at): Ghost<Reorder>,
        Ghost(items): Ghost<Seq<LogResult>>,
    ) -> (last: Action)
        requires
            at.wf(),
            at.decide() == (old(self)@, action@),
        ensures
            final(self).wf(),
            !(last is Emit),
            final(self)@.decide() == (final(self)@, last@),
            final(self)@.exhausted == at.exhausted,
            views(final(groups)@) + final(self)@.run(items) == views(old(groups)@) + at.run(items),
    {
        proof {
            use_type_invariant(&*self);
        }
        let mut action = action;
        let ghost mut prior = at;
        loop
            invariant_except_break
                self.wf(),
                prior.wf(),
                prior.decide() == (self@, action@),
                prior.exhausted == at.exhausted,
                views(groups@) + prior.run(items) == views(old(groups)@) + at.run(items),
            ensures
                self.wf(),
                !(action is Emit),
                self@.decide() == (self@, action@),
                self@.exhausted == at.exhausted,
                views(groups@) + self@.run(items) == views(old(groups)@) + at.run(items),
            decreases prior.groups.dom().len(),
        {
            match action {
                Action::Emit(group) => {
                    proof {
                        lemma_emit_step(prior, items, groups@, group);
                        prior = self@;
                    }
                    groups.push(group);
                    action = self.resume();
                },
                other => {
                    action = other;
                    break ;
                },
            }
        }
        action
    }
}

/// Resequences a whole source that is at hand: pulls it item by item, and
/// returns the groups in the order in which they come out.
pub fn resequence(source: Vec<LogResult>, seconds: usize) -> (groups: Vec<GroupedHttpLogs>)
    ensures
        views(groups@) == Reorder::start(seconds).run(source@),
        uniform(views(groups@)),
        forall|t: usize| #[trigger] emitted_at(views(groups@), t) == records_at(source@, t),
        flattened(views(groups@)).to_multiset() == parsed(source@).to_multiset(),
        bounded_skew(source@, seconds) ==> increasing(views(groups@)),
        bounded_skew(source@, seconds) ==> forall|k: int|
            0 <= k < groups.len() ==> (#[trigger] groups[k]).logs@ == records_at(
                source@,
                groups[k].time,
            ),
{
    let mut buffer = BufferedLogs::new(seconds);
    let mut groups: Vec<GroupedHttpLogs> = Vec::new();
    let ghost all = source@;
    let ghost whole = Reorder::start(seconds).run(all);
    assert(views(groups@) =~= Seq::<Group>::empty());
    assert(all.skip(0) =~= all);
    for item in it: source
        invariant
            it.seq() == all,
            buffer.wf(),
            buffer@.wants_input(),
            views(groups@) + buffer@.run(all.skip(it.index())) == whole,
    {
        let ghost at = buffer@;
        let ghost rest = all.skip(it.index() + 1);
        proof {
            lemma_feed_wf(at, item);
            assert(all.skip(it.index())[0] == item);
            assert(all.skip(it.index()).drop_first() =~= rest);
            assert(at.run(all.skip(it.index())) == at.feed(item).run(rest));
        }
        let action = buffer.advance(Answer::Item(item));
        let last = buffer.pump(action, &mut groups, Ghost(at.feed(item)), Ghost(rest));
    }
    let ghost at = buffer@;
    let ghost none = Seq::<LogResult>::empty();
    proof {
        assert(all.skip(all.len() as int) =~= none);
        assert(at.run(none) == at.close().run(none));
    }
    let action = buffer.advance(Answer::Exhausted);
    let last = buffer.pump(action, &mut groups, Ghost(at.close()), Ghost(none));
    proof {
        assert(buffer@.run(none) =~= Seq::<Group>::empty());
        assert forall|t: usize| #[trigger]
            emitted_at(views(groups@), t) == records_at(all, t) by {
            lemma_resequenced_keeps_records(seconds, all, t);
        }
        lemma_resequenced_keeps_records(seconds, all, 0);
        lemma_resequenced_union(seconds, all);
        if bounded_skew(all, seconds) {
            lemma_resequenced_in_order(seconds, all);
            assert forall|k: int| 0 <= k < groups.len() implies (#[trigger] groups[k]).logs@
                == records_at(all, groups[k].time) by {
                lemma_resequenced_groups_whole(seconds, all, k);
                assert(views(groups@)[k] == groups[k]@);
            }
        }
    }
    groups
}

} // verus!
