use vstd::prelude::*;
use std::time::Duration;

verus! {

/// What a scheduled job asks for after a run.
pub enum ScheduleResult {
    /// Run again after the same delay.
    Repeat,
    /// Run again after the given delay.
    RepeatAfter(Duration),
    /// Stop.
    Break,
}

impl ScheduleResult {
    /// The delay before the next run of a job that last waited `delay`;
    /// `None` when the job is over.
    pub fn next_delay(&self, delay: Duration) -> (r: Option<Duration>)
        ensures
            r == (match self {
                ScheduleResult::Repeat => Some(delay),
                ScheduleResult::RepeatAfter(d) => Some(*d),
                ScheduleResult::Break => None,
            }),
    {
        match self {
            ScheduleResult::Repeat => Some(delay),
            ScheduleResult::RepeatAfter(d) => Some(*d),
            ScheduleResult::Break => None,
        }
    }
}

} // verus!
