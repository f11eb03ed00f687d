//! The task between a source of directions and the navigation channel.
//!
//! It hands destinations and positions to the source and sends on what the source
//! says. It ends when nobody takes what it sends, or when one of its inputs closes.
use crate::channels::nav::NavInstruction;
use vstd::prelude::*;

verus! {

/// How the task is set.
#[derive(Debug, Clone, Copy, PartialEq, Eq, Structural)]
pub struct NavRunnerConfig {
    /// Whether the source's instruction is sent before anything has come.
    pub emit_initial: bool,
}

impl Default for NavRunnerConfig {
    fn default() -> (r: Self)
        ensures
            !r.emit_initial,
    {
        NavRunnerConfig { emit_initial: false }
    }
}

/// What happens to the task.
#[derive(Debug)]
pub enum RunnerEvent {
    /// It begins; this is the source's instruction.
    Started(Option<NavInstruction>),
    /// The source took a destination or a position and says this.
    Said(Option<NavInstruction>),
    /// The source failed.
    Failed,
    /// What is sent is not taken.
    NotTaken,
    /// No more destinations can come.
    DestinationsClosed,
    /// No more positions can come.
    PositionsClosed,
}

/// What the task does next.
#[derive(Debug)]
pub enum RunnerStep {
    /// Send this.
    Send(NavInstruction),
    /// Wait for a destination or a position.
    Wait,
    /// End.
    Exit,
}

/// What the task does after an event.
pub fn next(cfg: &NavRunnerConfig, event: RunnerEvent) -> (r: RunnerStep)
    ensures
        match event {
            RunnerEvent::Started(Some(i)) if cfg.emit_initial => r matches RunnerStep::Send(x) && x
                == i,
            RunnerEvent::Started(_) => r is Wait,
            RunnerEvent::Said(Some(i)) => r matches RunnerStep::Send(x) && x == i,
            RunnerEvent::Said(None) => r is Wait,
            RunnerEvent::Failed => r is Wait,
            RunnerEvent::NotTaken => r is Exit,
            RunnerEvent::DestinationsClosed => r is Exit,
            RunnerEvent::PositionsClosed => r is Exit,
        },
        r is Exit <==> event is NotTaken || event is DestinationsClosed
            || event is PositionsClosed,
        event matches RunnerEvent::Said(Some(i)) ==> r == RunnerStep::Send(i),
        r matches RunnerStep::Send(x) ==> event == RunnerEvent::Said(Some(x)) || (event
            == RunnerEvent::Started(Some(x)) && cfg.emit_initial),
{
    match event {
        RunnerEvent::Started(current) => match current {
            Some(i) => {
                if cfg.emit_initial {
                    RunnerStep::Send(i)
                } else {
                    RunnerStep::Wait
                }
            },
            None => RunnerStep::Wait,
        },
        RunnerEvent::Said(said) => match said {
            Some(i) => RunnerStep::Send(i),
            None => RunnerStep::Wait,
        },
        RunnerEvent::Failed => RunnerStep::Wait,
        RunnerEvent::NotTaken => RunnerStep::Exit,
        RunnerEvent::DestinationsClosed => RunnerStep::Exit,
        RunnerEvent::PositionsClosed => RunnerStep::Exit,
    }
}

} // verus!
