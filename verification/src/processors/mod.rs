//! The analytic processors, and what they have in common.

pub mod alerts;
pub mod stats;

pub use alerts::Alerts;
use alerts::{announce, marked, plain_prefix, styled_prefix};
pub use stats::Stats;

use vstd::prelude::*;
use vstd::string::StringExecFns;
use crate::buffered_logs::GroupedHttpLogs;
use crate::reorder::Group;
use crate::report::{piece_views, Piece, PieceView};

verus! {

/// Why a processor could not take a group.
#[derive(Debug, PartialEq, Eq)]
pub enum ProcessError {
    /// The group's timestamp lies below the floor that the processor has
    /// reached: the groups did not come in order.
    OutOfOrder { time: usize, floor: usize },
    /// Any other failure inside a processor; the text says what failed.
    Failed(String),
}

impl ProcessError {
    /// The text of the error.
    pub open spec fn text(self) -> Seq<char> {
        match self {
            ProcessError::OutOfOrder { .. } =>
                "Log group time is less than the minor time. Try to adjust the BufferedLogs seconds property."@,
            ProcessError::Failed(text) => text@,
        }
    }

    /// Says what went wrong.
    pub fn message(&self) -> (text: String)
        ensures
            text@ == self.text(),
    {
        match self {
            ProcessError::OutOfOrder { .. } => String::from_str(
                "Log group time is less than the minor time. Try to adjust the BufferedLogs seconds property.",
            ),
            ProcessError::Failed(text) => text.clone(),
        }
    }
}

/// What a processor answers to one group.
pub type Outcome = Result<Vec<Piece>, ProcessError>;

/// The model of an outcome: that of its output, or the error.
pub open spec fn outcome_view(outcome: Outcome) -> Result<Seq<PieceView>, ProcessError> {
    match outcome {
        Ok(pieces) => Ok(piece_views(pieces@)),
        Err(error) => Err(error),
    }
}

/// An analysis that is fed the groups one by one, in order, and answers
/// each with what is to be written.
pub trait Processor {
    /// The invariant of the processor's state. A processor that states
    /// none is always ready.
    open spec fn ready(&self) -> bool {
        true
    }

    /// Whether, in this state, the processor may answer `group` with
    /// `outcome` and go on in state `next`. A processor that states nothing
    /// of itself may answer anything.
    open spec fn handles(
        &self,
        group: Group,
        next: &Self,
        outcome: Result<Seq<PieceView>, ProcessError>,
    ) -> bool {
        true
    }

    /// Takes one group.
    fn process(&mut self, log_group: &GroupedHttpLogs) -> (outcome: Outcome)
        requires
            old(self).ready(),
        ensures
            final(self).ready(),
            old(self).handles(log_group@, final(self), outcome_view(outcome)),
    ;
}

/// Whether `states` tells how one processor went through `groups`: from
/// each state to the next by one group, with the outcomes given.
pub open spec fn chained<P: Processor>(
    states: Seq<P>,
    groups: Seq<Group>,
    outcomes: Seq<Result<Seq<PieceView>, ProcessError>>,
) -> bool {
    &&& states.len() == groups.len() + 1
    &&& outcomes.len() == groups.len()
    &&& forall|k: int|
        0 <= k < groups.len() ==> (#[trigger] states[k]).handles(
            groups[k],
            &states[k + 1],
            outcomes[k],
        )
}

/// One of the processors of this library, so that both can stand in one
/// list.
#[derive(Debug, Clone, PartialEq)]
pub enum Analysis {
    Alerts(Alerts),
    Stats(Stats),
}

impl Analysis {
    /// Shows what the processor has answered on the terminal: a message
    /// of the alarm gets the marker of an alarm in front of it, in colours
    /// where the terminal takes them; a block of statistics stays as it is.
    pub fn for_terminal(&self, message: Vec<Piece>) -> (shown: Vec<Piece>)
        ensures
            match self {
                Analysis::Alerts(_) => piece_views(shown@) == marked(
                    plain_prefix(),
                    piece_views(message@),
                ) || piece_views(shown@) == marked(styled_prefix(), piece_views(message@)),
                Analysis::Stats(_) => shown@ == message@,
            },
    {
        match self {
            Analysis::Alerts(_) => announce(message),
            Analysis::Stats(_) => message,
        }
    }
}

impl Processor for Analysis {
    /// The processor inside answers, and stays the kind it is.
    open spec fn handles(
        &self,
        group: Group,
        next: &Self,
        outcome: Result<Seq<PieceView>, ProcessError>,
    ) -> bool {
        match (self, next) {
            (Analysis::Alerts(alerts), Analysis::Alerts(after)) => alerts.handles(
                group,
                after,
                outcome,
            ),
            (Analysis::Stats(stats), Analysis::Stats(after)) => stats.handles(
                group,
                after,
                outcome,
            ),
            _ => false,
        }
    }

    fn process(&mut self, log_group: &GroupedHttpLogs) -> (outcome: Outcome) {
        match self {
            Analysis::Alerts(alerts) => alerts.process(log_group),
            Analysis::Stats(stats) => stats.process(log_group),
        }
    }
}

} // verus!
