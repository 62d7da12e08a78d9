//! The mathematical model of the resequencer: what is buffered, the two
//! watermarks, and what one pull does to them.

use vstd::prelude::*;
use crate::reader::{HttpLog, LogResult};

verus! {

/// The records of one second, in arrival order.
pub struct Group {
    pub time: usize,
    pub logs: Seq<HttpLog>,
}

/// What the resequencer does next.
pub enum Decision {
    /// Ask the source for its next item.
    Pull,
    /// Hand this group to the consumer.
    Emit(Group),
    /// Wait until the source is ready again.
    Suspend,
    /// The sequence has ended.
    End,
}

/// What the source answered to one pull.
#[derive(Debug, PartialEq, Eq)]
pub enum Answer {
    /// The next item: a record, or a line that could not be parsed.
    Item(LogResult),
    /// Nothing yet.
    NotReady,
    /// Nothing any more.
    Exhausted,
}

/// The state of the resequencer.
pub struct Reorder {
    /// The reorder window, in seconds.
    pub window: usize,
    /// The buffered records by timestamp.
    pub groups: Map<usize, Seq<HttpLog>>,
    /// The low watermark.
    pub low: usize,
    /// The high watermark.
    pub high: usize,
    /// Whether a record has been seen.
    pub started: bool,
    /// Whether the source has ended.
    pub exhausted: bool,
    /// How many lines could not be parsed; the count stops at the largest
    /// number that it can hold.
    pub failures: usize,
}

/// The smallest member of `keys`, where there is one.
#[verifier::opaque]
pub open spec fn least(keys: Set<usize>) -> usize {
    choose|t: usize| keys.contains(t) && forall|u: usize| keys.contains(u) ==> t <= u
}

impl Reorder {
    /// The state before any pull.
    pub open spec fn start(window: usize) -> Reorder {
        Reorder {
            window,
            groups: Map::empty(),
            low: 0,
            high: 0,
            started: false,
            exhausted: false,
            failures: 0,
        }
    }

    /// The records buffered under `t`.
    pub open spec fn held(self, t: usize) -> Seq<HttpLog> {
        if self.groups.dom().contains(t) {
            self.groups[t]
        } else {
            Seq::empty()
        }
    }

    /// The invariant: every buffered group is non-empty and holds records of
    /// its own second only; the low watermark is the smallest buffered
    /// timestamp and the high watermark bounds them all; until the source
    /// ends, the second of the high watermark is still buffered.
    pub open spec fn wf(self) -> bool {
        &&& self.groups.dom().finite()
        &&& forall|t: usize| #[trigger]
            self.groups.dom().contains(t) ==> self.groups[t].len() > 0 && self.low <= t
                <= self.high
        &&& forall|t: usize, i: int|
            self.groups.dom().contains(t) && 0 <= i < self.groups[t].len() ==> (
            #[trigger] self.groups[t][i]).time == t
        &&& self.low <= self.high
        &&& !self.groups.dom().is_empty() ==> self.started && self.groups.dom().contains(
            self.low,
        )
        &&& self.groups.dom().is_empty() ==> self.low == self.high
        &&& self.started && !self.exhausted ==> self.groups.dom().contains(self.high)
    }

    /// Whether the next thing to do is to pull from the source.
    pub open spec fn wants_input(self) -> bool {
        !self.exhausted && self.high - self.low <= self.window
    }

    /// The state after a record arrived.
    pub open spec fn absorb(self, log: HttpLog) -> Reorder {
        let t = log.time;
        Reorder {
            groups: self.groups.insert(t, self.held(t).push(log)),
            low: if !self.started || t < self.low {
                t
            } else {
                self.low
            },
            high: if !self.started || t > self.high {
                t
            } else {
                self.high
            },
            started: true,
            ..self
        }
    }

    /// The state after an item arrived: a line that could not be parsed is
    /// counted, and changes nothing else.
    pub open spec fn feed(self, item: LogResult) -> Reorder {
        match item {
            Ok(log) => self.absorb(log),
            Err(_) => Reorder {
                failures: if self.failures < usize::MAX {
                    (self.failures + 1) as usize
                } else {
                    self.failures
                },
                ..self
            },
        }
    }

    /// The state after the source ended.
    pub open spec fn close(self) -> Reorder {
        Reorder { exhausted: true, ..self }
    }

    /// The group that leaves next: the one of the smallest buffered timestamp.
    pub open spec fn front(self) -> Group {
        let t = least(self.groups.dom());
        Group { time: t, logs: self.groups[t] }
    }

    /// The state after the front group left: the low watermark moves to the
    /// smallest timestamp that is left, or to the high watermark.
    pub open spec fn release(self) -> Reorder {
        let rest = self.groups.remove(least(self.groups.dom()));
        Reorder {
            groups: rest,
            low: if rest.dom().is_empty() {
                self.high
            } else {
                least(rest.dom())
            },
            ..self
        }
    }

    /// What happens next, and the state after it.
    pub open spec fn decide(self) -> (Reorder, Decision) {
        if self.wants_input() {
            (self, Decision::Pull)
        } else if !self.groups.dom().is_empty() {
            (self.release(), Decision::Emit(self.front()))
        } else if self.exhausted {
            (self, Decision::End)
        } else {
            (self, Decision::Suspend)
        }
    }

    /// What happens once the source has answered a pull.
    pub open spec fn advance(self, answer: Answer) -> (Reorder, Decision) {
        match answer {
            Answer::Item(item) => self.feed(item).decide(),
            Answer::NotReady => (self, Decision::Suspend),
            Answer::Exhausted => self.close().decide(),
        }
    }

    /// The groups that come out when the source yields `items` without ever
    /// making the resequencer wait, and then ends.
    pub open spec fn run(self, items: Seq<LogResult>) -> Seq<Group>
        decreases
                items.len(),
                (if self.exhausted {
                    0nat
                } else {
                    1nat
                }),
                self.groups.dom().len(),
        when self.wf()
    {
        match self.decide().1 {
            Decision::Pull => if items.len() > 0 {
                self.feed(items[0]).run(items.drop_first())
            } else {
                self.close().run(items)
            },
            Decision::Emit(group) => {
                proof {
                    reveal(least);
                }
                seq![group] + self.release().run(items)
            },
            _ => Seq::empty(),
        }
    }
}

} // verus!
