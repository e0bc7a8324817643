//! What the game screen shows of a run, and the run's clock: the status of
//! each daemon, the summary and report lines of a finished run, and when the
//! time limit runs out. Times are nanoseconds on the caller's clock.

use vstd::prelude::*;
use crate::engine::{Cell, EngineView, GameEngine, GameError, GameResult, TerminalReason, lemma_after_move_wf};
use crate::text::{decimal_text, u64_text, usize_text};

verus! {

/// How a daemon stands on the screen: uploaded, out of reach, or still possible.
#[derive(Clone, Copy, Debug, PartialEq, Eq, Structural)]
pub enum SequenceStatus {
    Installed,
    Failed,
    Pending,
}

/// The status of daemon `idx`, with `progress` of its tokens already at the
/// end of the buffer and room for `remaining_buffer` more picks.
pub open spec fn status_of(v: EngineView, idx: int, progress: int, remaining_buffer: int) -> SequenceStatus {
    let remaining_tokens = if v.sequences[idx].len() >= progress { v.sequences[idx].len() - progress } else { 0 };
    if v.uploaded[idx] {
        SequenceStatus::Installed
    } else if v.terminal is Some || remaining_tokens > remaining_buffer || !v.can_upload(idx) {
        SequenceStatus::Failed
    } else {
        SequenceStatus::Pending
    }
}

/// The status of daemon `idx`: installed once uploaded; failed where the run
/// is over, its missing tokens do not fit, or it cannot upload any more;
/// pending otherwise.
pub fn sequence_status(engine: &GameEngine, idx: usize, progress: usize, remaining_buffer: usize) -> (status: SequenceStatus)
    requires
        engine@.wf(),
        idx < engine@.sequences.len(),
    ensures
        status == status_of(engine@, idx as int, progress as int, remaining_buffer as int),
{
    if engine.state.uploaded_results[idx] {
        return SequenceStatus::Installed;
    }
    let length = engine.state.sequences[idx].len();
    let remaining_tokens = if length >= progress { length - progress } else { 0 };
    if engine.is_terminal() || remaining_tokens > remaining_buffer || !engine.can_sequence_still_upload(idx) {
        SequenceStatus::Failed
    } else {
        SequenceStatus::Pending
    }
}

/// How a finished run reads: every daemon, some, or none uploaded.
#[derive(Clone, Copy, Debug, PartialEq, Eq, Structural)]
pub enum TerminalTone {
    Success,
    Partial,
    Failure,
}

/// The headline of a finished run: a title, the reason, and its tone.
pub struct TerminalSummary {
    pub title: &'static str,
    pub reason: &'static str,
    pub tone: TerminalTone,
}

/// Every daemon of the run was uploaded, and there was at least one.
pub open spec fn all_installed(result: GameResult) -> bool {
    result.total_sequences > 0 && result.sequences_uploaded == result.total_sequences
}

/// The headline of a finished run.
pub fn terminal_summary(result: &GameResult, _buffer_size: usize) -> (summary: TerminalSummary)
    ensures
        summary.title@ == (if all_installed(*result) {
            "UPLOAD COMPLETE"@
        } else if result.success {
            "UPLOAD PARTIAL"@
        } else {
            "UPLOAD FAILED"@
        }),
        summary.reason@ == (if all_installed(*result) {
            "All daemons installed"@
        } else if result.success {
            "Some daemons installed"@
        } else if result.out_of_time {
            "Breach time expired"@
        } else if result.buffer_full {
            "Buffer capacity reached"@
        } else if result.terminal_reason == Some(TerminalReason::NoCompletableSequences) {
            "No daemon can still upload"@
        } else {
            "No legal breach path remains"@
        }),
        summary.tone == (if all_installed(*result) {
            TerminalTone::Success
        } else if result.success {
            TerminalTone::Partial
        } else {
            TerminalTone::Failure
        }),
{
    let all_uploaded = result.total_sequences > 0 && result.sequences_uploaded == result.total_sequences;
    let no_fit = match result.terminal_reason {
        Some(TerminalReason::NoCompletableSequences) => true,
        _ => false,
    };
    TerminalSummary {
        title: if all_uploaded {
            "UPLOAD COMPLETE"
        } else if result.success {
            "UPLOAD PARTIAL"
        } else {
            "UPLOAD FAILED"
        },
        reason: if all_uploaded {
            "All daemons installed"
        } else if result.success {
            "Some daemons installed"
        } else if result.out_of_time {
            "Breach time expired"
        } else if result.buffer_full {
            "Buffer capacity reached"
        } else if no_fit {
            "No daemon can still upload"
        } else {
            "No legal breach path remains"
        },
        tone: if all_uploaded {
            TerminalTone::Success
        } else if result.success {
            TerminalTone::Partial
        } else {
            TerminalTone::Failure
        },
    }
}

/// Why the run ended, as the report names it.
pub open spec fn exit_text(result: GameResult) -> Seq<char> {
    if result.terminal_reason == Some(TerminalReason::AllUploaded) {
        "ALL DAEMONS"@
    } else if result.out_of_time {
        "TIMEOUT"@
    } else if result.buffer_full {
        "BUFFER FULL"@
    } else if result.terminal_reason == Some(TerminalReason::NoCompletableSequences) {
        "NO FIT"@
    } else {
        "PATH CLOSED"@
    }
}

/// `count/total` in decimal digits.
pub open spec fn ratio_text(count: nat, total: nat) -> Seq<char> {
    decimal_text(count) + "/"@ + decimal_text(total)
}

/// `count/total` in decimal digits.
fn ratio_string(count: usize, total: usize) -> (text: String)
    ensures
        text@ == ratio_text(count as nat, total as nat),
{
    let mut text = usize_text(count);
    text.append("/");
    text.append(usize_text(total).as_str());
    text
}

/// A report line of a label and a value.
fn report_line(label: &str, value: String) -> (line: (String, String))
    ensures
        line.0@ == label@,
        line.1@ == value@,
{
    (String::from_str(label), value)
}

/// The report of a finished run, label by label: its score, the daemons
/// uploaded of all, the buffer used of its size, why it ended, and whether
/// anything was installed.
pub fn result_report_lines(result: &GameResult, buffer_size: usize) -> (lines: Vec<(String, String)>)
    ensures
        lines@.len() == 5,
        lines@[0].0@ == "SCORE"@,
        lines@[0].1@ == decimal_text(result.score as nat),
        lines@[1].0@ == "DAEMONS"@,
        lines@[1].1@ == ratio_text(result.sequences_uploaded as nat, result.total_sequences as nat),
        lines@[2].0@ == "BUFFER"@,
        lines@[2].1@ == ratio_text(result.buffer_used as nat, buffer_size as nat),
        lines@[3].0@ == "EXIT"@,
        lines@[3].1@ == exit_text(*result),
        lines@[4].0@ == "STATUS"@,
        lines@[4].1@ == (if result.success { "INSTALLED"@ } else { "FAILED"@ }),
{
    let all_daemons = match result.terminal_reason {
        Some(TerminalReason::AllUploaded) => true,
        _ => false,
    };
    let no_fit = match result.terminal_reason {
        Some(TerminalReason::NoCompletableSequences) => true,
        _ => false,
    };
    let status = if result.success { "INSTALLED" } else { "FAILED" };
    let reason = if all_daemons {
        "ALL DAEMONS"
    } else if result.out_of_time {
        "TIMEOUT"
    } else if result.buffer_full {
        "BUFFER FULL"
    } else if no_fit {
        "NO FIT"
    } else {
        "PATH CLOSED"
    };
    let mut lines: Vec<(String, String)> = Vec::new();
    lines.push(report_line("SCORE", u64_text(result.score as u64)));
    lines.push(report_line("DAEMONS", ratio_string(result.sequences_uploaded, result.total_sequences)));
    lines.push(report_line("BUFFER", ratio_string(result.buffer_used, buffer_size)));
    lines.push(report_line("EXIT", String::from_str(reason)));
    lines.push(report_line("STATUS", String::from_str(status)));
    lines
}

/// Nanoseconds in a second.
pub const NANOS_PER_SECOND: u128 = 1_000_000_000;

/// A run on the game screen with its clock: when the first pick came, when
/// the run ended, and when the last pick came.
pub struct Session {
    pub engine: GameEngine,
    pub started_at: Option<u128>,
    pub ended_at: Option<u128>,
    pub last_pick_at: Option<u128>,
}

/// What is left of the time limit at `now`, or `None` where there is no
/// limit: all of it before the first pick; the clock runs from the first pick
/// and stops when the run ends.
pub open spec fn remaining_at(s: Session, now: int) -> Option<int> {
    let total = s.engine@.time_limit_seconds * NANOS_PER_SECOND;
    if s.engine@.time_limit_seconds == 0 {
        None
    } else {
        match s.started_at {
            None => Some(total),
            Some(start) => {
                let end = match s.ended_at {
                    Some(e) => e as int,
                    None => now,
                };
                let elapsed = if end >= start { end - start } else { 0 };
                Some(if total >= elapsed { total - elapsed } else { 0 })
            },
        }
    }
}

/// The end time of a session after a change at `now`: kept once set, else
/// `now` where the run is over.
pub open spec fn end_after(ended_at: Option<u128>, engine: EngineView, now: u128) -> Option<u128> {
    if ended_at is None && engine.terminal is Some { Some(now) } else { ended_at }
}

impl Session {
    /// A session on a run that has not started its clock.
    pub fn new(engine: GameEngine) -> (session: Self)
        ensures
            session.engine == engine,
            session.started_at is None,
            session.ended_at is None,
            session.last_pick_at is None,
    {
        Session { engine, started_at: None, ended_at: None, last_pick_at: None }
    }

    /// Picks `cell` at `now`: where the engine accepts the pick, the clock
    /// starts if it had not, the pick time is kept, and a run that the pick
    /// ended gets its end time; a refused pick changes nothing.
    pub fn apply_move(&mut self, cell: Cell, now: u128) -> (r: Result<(), GameError>)
        requires
            old(self).engine@.wf(),
        ensures
            final(self).engine@.wf(),
            old(self).engine@.terminal is None && old(self).engine@.legal(cell) ==> {
                &&& r is Ok
                &&& final(self).engine@ == old(self).engine@.after_move(cell)
                &&& final(self).last_pick_at == Some(now)
                &&& final(self).started_at == (if old(self).started_at is Some { old(self).started_at } else { Some(now) })
                &&& final(self).ended_at == end_after(old(self).ended_at, final(self).engine@, now)
            },
            !(old(self).engine@.terminal is None && old(self).engine@.legal(cell)) ==> {
                &&& r == Err::<(), GameError>(GameError::InvalidMove(cell))
                &&& *final(self) == *old(self)
            },
    {
        let ghost before = self.engine@;
        match self.engine.apply_move(cell) {
            Ok(()) => {},
            Err(e) => {
                return Err(e);
            },
        }
        proof {
            lemma_after_move_wf(before, cell);
        }
        self.last_pick_at = Some(now);
        if self.started_at.is_none() {
            self.started_at = Some(now);
        }
        self.capture_terminal_end(now);
        Ok(())
    }

    /// Checks the clock at `now`: a run with a time limit whose clock runs
    /// and has run out is timed out and gets its end time.
    pub fn tick_timer(&mut self, now: u128)
        ensures
            ({
                let fire = old(self).engine@.time_limit_seconds != 0 && old(self).started_at is Some
                    && old(self).ended_at is None && remaining_at(*old(self), now as int) == Some(0int);
                &&& fire ==> {
                    &&& final(self).engine@ == (EngineView {
                        terminal: if old(self).engine@.terminal is None {
                            Some(TerminalReason::OutOfTime)
                        } else {
                            old(self).engine@.terminal
                        },
                        ..old(self).engine@
                    })
                    &&& final(self).ended_at == Some(now)
                    &&& final(self).started_at == old(self).started_at
                    &&& final(self).last_pick_at == old(self).last_pick_at
                }
                &&& !fire ==> *final(self) == *old(self)
            }),
    {
        if self.engine.config.time_limit_seconds == 0 || self.started_at.is_none() || self.ended_at.is_some() {
            return;
        }
        let remaining = self.remaining_nanos(now);
        if remaining == Some(0u128) {
            self.engine.force_timeout();
            self.capture_terminal_end(now);
        }
    }

    /// What is left of the time limit at `now`, or `None` where there is no limit.
    pub fn remaining_nanos(&self, now: u128) -> (r: Option<u128>)
        ensures
            match remaining_at(*self, now as int) {
                Some(n) => r == Some(n as u128),
                None => r is None,
            },
            remaining_at(*self, now as int) matches Some(n) ==> 0 <= n <= u128::MAX,
    {
        let total_seconds = self.engine.config.time_limit_seconds;
        if total_seconds == 0 {
            return None;
        }
        let total = (total_seconds as u128) * NANOS_PER_SECOND;
        match self.started_at {
            None => Some(total),
            Some(start) => {
                let end = match self.ended_at {
                    Some(e) => e,
                    None => now,
                };
                let elapsed = if end >= start { end - start } else { 0 };
                Some(if total >= elapsed { total - elapsed } else { 0 })
            },
        }
    }

    /// Whether the run has an end time.
    pub fn has_ended(&self) -> (r: bool)
        ensures
            r == self.ended_at is Some,
    {
        self.ended_at.is_some()
    }

    /// Keeps `now` as the end time of a run that is over and has none yet.
    fn capture_terminal_end(&mut self, now: u128)
        ensures
            final(self).engine == old(self).engine,
            final(self).started_at == old(self).started_at,
            final(self).last_pick_at == old(self).last_pick_at,
            final(self).ended_at == end_after(old(self).ended_at, old(self).engine@, now),
    {
        if self.engine.is_terminal() && self.ended_at.is_none() {
            self.ended_at = Some(now);
        }
    }
}

} // verus!
