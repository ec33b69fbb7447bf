//! Stepping through a run's snapshots, and the challenge mode in which the user
//! clicks the node the algorithm visits next.

use vstd::prelude::*;
use crate::algorithm::state::AlgorithmResult;
use super::AppState;

verus! {

/// What one step of the animation did.
#[derive(Debug, Clone, Copy, PartialEq, Eq, Structural)]
pub struct Advance {
    /// The snapshot to show now, if there was one left.
    pub shown: Option<usize>,
    /// The run has played to its end.
    pub finished: bool,
}

/// The answer to a click in challenge mode.
#[derive(Debug, Clone, Copy, PartialEq, Eq, Structural)]
pub enum ChallengeOutcome {
    /// No node was expected; nothing happens.
    NoTarget,
    /// The clicked node was the expected one; the animation moved on one step.
    Correct { step: Advance },
    /// Another node was clicked.
    Wrong,
}

/// The node the user should click: the one processed in the next snapshot to show.
pub open spec fn expected_node(result: Option<&AlgorithmResult>, index: usize) -> Option<usize> {
    match result {
        Some(r) => if index < r.snapshots.len() {
            Some(r.snapshots@[index as int].current_node)
        } else {
            None
        },
        None => None,
    }
}

/// Position in the animation of a run, and the challenge score.
#[derive(Debug, Clone)]
pub struct Playback {
    /// Index of the next snapshot to show.
    pub snapshot_index: usize,
    pub app_state: AppState,
    /// The user guesses each visited node.
    pub challenge_mode: bool,
    /// Correct guesses in a row.
    pub challenge_score: u32,
    /// Wrong guesses.
    pub challenge_wrong: u32,
    /// The node the user should click next.
    pub challenge_expected: Option<usize>,
}

impl Playback {
    /// Nothing to play; editing, challenge mode off.
    pub fn new() -> (p: Self)
        ensures
            p.snapshot_index == 0,
            p.app_state == AppState::Editing,
            !p.challenge_mode,
            p.challenge_score == 0,
            p.challenge_wrong == 0,
            p.challenge_expected is None,
    {
        Playback {
            snapshot_index: 0,
            app_state: AppState::Editing,
            challenge_mode: false,
            challenge_score: 0,
            challenge_wrong: 0,
            challenge_expected: None,
        }
    }

    /// Back to editing: no snapshot shown, scores cleared; challenge mode stays as set.
    pub fn reset(&mut self)
        ensures
            final(self).snapshot_index == 0,
            final(self).app_state == AppState::Editing,
            final(self).challenge_mode == old(self).challenge_mode,
            final(self).challenge_score == 0,
            final(self).challenge_wrong == 0,
            final(self).challenge_expected is None,
    {
        self.snapshot_index = 0;
        self.app_state = AppState::Editing;
        self.challenge_expected = None;
        self.challenge_score = 0;
        self.challenge_wrong = 0;
    }

    /// Points the challenge at the node of the next snapshot to show.
    pub fn update_expected(&mut self, result: Option<&AlgorithmResult>)
        ensures
            final(self).challenge_expected == expected_node(result, old(self).snapshot_index),
            final(self).snapshot_index == old(self).snapshot_index,
            final(self).app_state == old(self).app_state,
            final(self).challenge_mode == old(self).challenge_mode,
            final(self).challenge_score == old(self).challenge_score,
            final(self).challenge_wrong == old(self).challenge_wrong,
    {
        self.challenge_expected = match result {
            Some(r) => if self.snapshot_index < r.snapshots.len() {
                Some(r.snapshots[self.snapshot_index].current_node)
            } else {
                None
            },
            None => None,
        };
    }

    /// A new run starts from its first snapshot: paused with fresh scores and the first
    /// node expected in challenge mode, running otherwise.
    pub fn start_run(&mut self, result: Option<&AlgorithmResult>)
        ensures
            final(self).snapshot_index == 0,
            final(self).challenge_mode == old(self).challenge_mode,
            old(self).challenge_mode ==> final(self).app_state == AppState::Paused && final(self).challenge_score == 0
                && final(self).challenge_wrong == 0 && final(self).challenge_expected == expected_node(result, 0),
            !old(self).challenge_mode ==> final(self).app_state == AppState::Running && final(self).challenge_score
                == old(self).challenge_score && final(self).challenge_wrong == old(self).challenge_wrong
                && final(self).challenge_expected == old(self).challenge_expected,
    {
        self.snapshot_index = 0;
        if self.challenge_mode {
            self.app_state = AppState::Paused;
            self.challenge_score = 0;
            self.challenge_wrong = 0;
            self.update_expected(result);
        } else {
            self.app_state = AppState::Running;
        }
    }

    /// One step of the animation over `total` snapshots: the next snapshot is shown if
    /// any is left, and the run is finished once all have been shown (at once when there
    /// are none).
    pub fn advance(&mut self, total: usize) -> (a: Advance)
        ensures
            a.shown == if old(self).snapshot_index < total {
                Some(old(self).snapshot_index)
            } else {
                None::<usize>
            },
            final(self).snapshot_index == if old(self).snapshot_index < total {
                (old(self).snapshot_index + 1) as usize
            } else {
                old(self).snapshot_index
            },
            a.finished == (final(self).snapshot_index >= total),
            final(self).app_state == if a.finished {
                AppState::Finished
            } else {
                old(self).app_state
            },
            final(self).challenge_mode == old(self).challenge_mode,
            final(self).challenge_score == old(self).challenge_score,
            final(self).challenge_wrong == old(self).challenge_wrong,
            final(self).challenge_expected == old(self).challenge_expected,
    {
        if total == 0 {
            self.app_state = AppState::Finished;
            return Advance { shown: None, finished: true };
        }
        let mut shown = None;
        if self.snapshot_index < total {
            shown = Some(self.snapshot_index);
            self.snapshot_index = self.snapshot_index + 1;
        }
        let finished = self.snapshot_index >= total;
        if finished {
            self.app_state = AppState::Finished;
        }
        Advance { shown, finished }
    }

    /// The run button: from editing or a finished run it asks for a new run (`true`,
    /// nothing changes here); it pauses a running animation and resumes a paused one.
    pub fn toggle_run(&mut self) -> (start_new: bool)
        ensures
            start_new == (old(self).app_state == AppState::Editing || old(self).app_state == AppState::Finished),
            final(self).app_state == match old(self).app_state {
                AppState::Running => AppState::Paused,
                AppState::Paused => AppState::Running,
                _ => old(self).app_state,
            },
            final(self).snapshot_index == old(self).snapshot_index,
            final(self).challenge_mode == old(self).challenge_mode,
            final(self).challenge_score == old(self).challenge_score,
            final(self).challenge_wrong == old(self).challenge_wrong,
            final(self).challenge_expected == old(self).challenge_expected,
    {
        match self.app_state {
            AppState::Editing | AppState::Finished => true,
            AppState::Running => {
                self.app_state = AppState::Paused;
                false
            },
            AppState::Paused => {
                self.app_state = AppState::Running;
                false
            },
        }
    }

    /// The single-step button of a paused animation: one step, then paused unless the
    /// run is over.
    pub fn step_once(&mut self, total: usize) -> (a: Advance)
        ensures
            a.shown == if old(self).snapshot_index < total {
                Some(old(self).snapshot_index)
            } else {
                None::<usize>
            },
            final(self).snapshot_index == if old(self).snapshot_index < total {
                (old(self).snapshot_index + 1) as usize
            } else {
                old(self).snapshot_index
            },
            a.finished == (final(self).snapshot_index >= total),
            final(self).app_state == if a.finished || old(self).app_state == AppState::Finished {
                AppState::Finished
            } else {
                AppState::Paused
            },
            final(self).challenge_mode == old(self).challenge_mode,
            final(self).challenge_score == old(self).challenge_score,
            final(self).challenge_wrong == old(self).challenge_wrong,
            final(self).challenge_expected == old(self).challenge_expected,
    {
        let a = self.advance(total);
        if self.app_state != AppState::Finished {
            self.app_state = AppState::Paused;
        }
        a
    }

    /// A click on node `clicked` in challenge mode. The expected node extends the streak
    /// of correct guesses and moves the animation on one step (a running animation is
    /// paused, and the next node is expected unless the run is over); any other node
    /// counts as wrong and breaks the streak.
    pub fn challenge_click(&mut self, clicked: usize, result: Option<&AlgorithmResult>) -> (o: ChallengeOutcome)
        requires
            old(self).challenge_score < u32::MAX,
            old(self).challenge_wrong < u32::MAX,
        ensures
            old(self).challenge_expected is None ==> o == ChallengeOutcome::NoTarget && *final(self) == *old(self),
            old(self).challenge_expected matches Some(e) && e != clicked ==> o == ChallengeOutcome::Wrong
                && *final(self) == (Playback {
                    challenge_wrong: (old(self).challenge_wrong + 1) as u32,
                    challenge_score: 0,
                    ..*old(self)
                }),
            old(self).challenge_expected == Some(clicked) ==> ({
                let total = match result {
                    Some(r) => r.snapshots.len(),
                    None => 0,
                };
                let idx = if old(self).snapshot_index < total {
                    (old(self).snapshot_index + 1) as usize
                } else {
                    old(self).snapshot_index
                };
                let finished = idx >= total;
                &&& o == ChallengeOutcome::Correct {
                    step: Advance {
                        shown: if old(self).snapshot_index < total {
                            Some(old(self).snapshot_index)
                        } else {
                            None::<usize>
                        },
                        finished,
                    },
                }
                &&& final(self).snapshot_index == idx
                &&& final(self).challenge_score == old(self).challenge_score + 1
                &&& final(self).challenge_wrong == old(self).challenge_wrong
                &&& final(self).challenge_mode == old(self).challenge_mode
                &&& final(self).app_state == if finished {
                    AppState::Finished
                } else if old(self).app_state == AppState::Running {
                    AppState::Paused
                } else {
                    old(self).app_state
                }
                &&& final(self).challenge_expected == if finished || old(self).app_state == AppState::Finished {
                    None
                } else {
                    expected_node(result, idx)
                }
            }),
    {
        let expected = match self.challenge_expected {
            Some(e) => e,
            None => {
                return ChallengeOutcome::NoTarget;
            },
        };
        if clicked == expected {
            self.challenge_score = self.challenge_score + 1;
            let total = match result {
                Some(r) => r.snapshots.len(),
                None => 0,
            };
            let step = self.advance(total);
            if self.app_state == AppState::Finished {
                self.challenge_expected = None;
            } else {
                self.update_expected(result);
                if self.app_state == AppState::Running {
                    self.app_state = AppState::Paused;
                }
            }
            ChallengeOutcome::Correct { step }
        } else {
            self.challenge_wrong = self.challenge_wrong + 1;
            self.challenge_score = 0;
            ChallengeOutcome::Wrong
        }
    }
}

} // verus!
