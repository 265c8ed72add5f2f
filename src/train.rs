use vstd::prelude::*;

use crate::metrics::{exceeds, f1_exceeds, F1Score};

verus! {

/// How long training may run.
#[derive(Clone, Copy, Debug, PartialEq, Eq, Structural)]
pub struct TrainConfig {
    /// The most epochs that run.
    pub n_epochs: u32,
    /// How many epochs in a row may fail to improve the best held-out F1
    /// before training stops; `0` acts as `1`.
    pub early_stop_patience: u8,
}

impl TrainConfig {
    /// 100 epochs, stopping after 20 without improvement.
    pub fn default() -> (c: TrainConfig)
        ensures
            c.n_epochs == 100,
            c.early_stop_patience == 20,
    {
        TrainConfig { n_epochs: 100, early_stop_patience: 20 }
    }
}

/// Why training ended.
#[derive(Clone, Copy, Debug, PartialEq, Eq, Structural)]
pub enum StopReason {
    MaxEpochsReached,
    EarlyStopped,
}

/// Whether training goes on.
#[derive(Clone, Copy, Debug, PartialEq, Eq, Structural)]
pub enum TrainerStatus {
    Running,
    Stopped(StopReason),
}

/// The trainer's state between epochs. The checkpoint to persist is the one
/// captured after epoch `best_epoch` (`0`: the initial parameters).
#[derive(Clone, Copy, Debug, PartialEq, Eq, Structural)]
pub struct TrainingState {
    /// Epochs run so far.
    pub epoch: u32,
    /// Epochs in a row since the best F1 last improved.
    pub patience_counter: u8,
    /// The best held-out F1 so far, `0 / 1` at first.
    pub best_f1: F1Score,
    /// The epoch that reached `best_f1`.
    pub best_epoch: u32,
    pub status: TrainerStatus,
}

/// What one epoch's score leads to.
#[derive(Clone, Copy, Debug, PartialEq, Eq, Structural)]
pub struct EpochOutcome {
    /// The score improved on the best: the current parameters are the new
    /// checkpoint.
    pub improved: bool,
    /// Training ends after this epoch: persist the checkpoint.
    pub stop: Option<StopReason>,
}

/// The smallest F1, `0 / 1`.
pub open spec fn zero_f1() -> F1Score {
    F1Score { numerator: 0, denominator: 1 }
}

/// The patience in effect: at least one epoch.
pub open spec fn patience_limit(config: TrainConfig) -> nat {
    if config.early_stop_patience == 0 {
        1
    } else {
        config.early_stop_patience as nat
    }
}

/// The state before the first epoch.
pub open spec fn initial_state(config: TrainConfig) -> TrainingState {
    TrainingState {
        epoch: 0,
        patience_counter: 0,
        best_f1: zero_f1(),
        best_epoch: 0,
        status: if config.n_epochs == 0 {
            TrainerStatus::Stopped(StopReason::MaxEpochsReached)
        } else {
            TrainerStatus::Running
        },
    }
}

/// The state after an epoch that scored `f1`; a stopped state stays as it is.
pub open spec fn next_state(config: TrainConfig, s: TrainingState, f1: F1Score) -> TrainingState {
    if s.status != TrainerStatus::Running {
        s
    } else {
        let epoch = (s.epoch + 1) as u32;
        let at_max = epoch >= config.n_epochs;
        if exceeds(f1, s.best_f1) {
            TrainingState {
                epoch,
                patience_counter: 0,
                best_f1: f1,
                best_epoch: epoch,
                status: if at_max {
                    TrainerStatus::Stopped(StopReason::MaxEpochsReached)
                } else {
                    TrainerStatus::Running
                },
            }
        } else {
            let counter = (s.patience_counter + 1) as u8;
            TrainingState {
                epoch,
                patience_counter: counter,
                status: if counter >= patience_limit(config) {
                    TrainerStatus::Stopped(StopReason::EarlyStopped)
                } else if at_max {
                    TrainerStatus::Stopped(StopReason::MaxEpochsReached)
                } else {
                    TrainerStatus::Running
                },
                ..s
            }
        }
    }
}

/// The state after the epochs scored `scores`, in order.
pub open spec fn run(config: TrainConfig, scores: Seq<F1Score>) -> TrainingState
    decreases scores.len(),
{
    if scores.len() == 0 {
        initial_state(config)
    } else {
        next_state(config, run(config, scores.drop_last()), scores.last())
    }
}

/// The best score of `scores` and its epoch (counted from `1`), a score
/// counting only when it strictly exceeds every earlier one and `0 / 1`.
pub open spec fn running_best(scores: Seq<F1Score>) -> (F1Score, nat)
    decreases scores.len(),
{
    if scores.len() == 0 {
        (zero_f1(), 0)
    } else {
        let (best, at) = running_best(scores.drop_last());
        if exceeds(scores.last(), best) {
            (scores.last(), scores.len())
        } else {
            (best, at)
        }
    }
}

impl TrainingState {
    /// A state that epochs can be recorded in.
    pub open spec fn valid(self, config: TrainConfig) -> bool {
        &&& self.best_epoch <= self.epoch
        &&& self.patience_counter == self.epoch - self.best_epoch
        &&& self.status == TrainerStatus::Running ==> self.epoch < config.n_epochs
            && self.patience_counter < patience_limit(config)
    }

    /// The state before the first epoch: nothing run, best F1 `0`, the
    /// initial parameters as checkpoint; already stopped when no epoch may
    /// run.
    pub fn new(config: &TrainConfig) -> (s: TrainingState)
        ensures
            s == initial_state(*config),
            s.valid(*config),
    {
        TrainingState {
            epoch: 0,
            patience_counter: 0,
            best_f1: F1Score { numerator: 0, denominator: 1 },
            best_epoch: 0,
            status: if config.n_epochs == 0 {
                TrainerStatus::Stopped(StopReason::MaxEpochsReached)
            } else {
                TrainerStatus::Running
            },
        }
    }

    /// Records the held-out F1 of the epoch just run. A strict improvement
    /// on the best resets the patience counter and makes this epoch the
    /// checkpoint; otherwise the counter grows, and training stops early once
    /// it reaches the patience. Training also stops after the last epoch. A
    /// stopped state is left as it is.
    pub fn record_epoch(&mut self, config: &TrainConfig, f1: F1Score) -> (outcome: EpochOutcome)
        requires
            old(self).valid(*config),
        ensures
            *final(self) == next_state(*config, *old(self), f1),
            final(self).valid(*config),
            outcome.improved == (old(self).status == TrainerStatus::Running && exceeds(f1, old(self).best_f1)),
            outcome.stop == (match final(self).status {
                TrainerStatus::Running => None,
                TrainerStatus::Stopped(reason) => Some(reason),
            }),
    {
        if self.status != TrainerStatus::Running {
            return EpochOutcome {
                improved: false,
                stop: match self.status {
                    TrainerStatus::Running => None,
                    TrainerStatus::Stopped(reason) => Some(reason),
                },
            };
        }
        let epoch = self.epoch + 1;
        let at_max = epoch >= config.n_epochs;
        let improved = f1_exceeds(f1, self.best_f1);
        if improved {
            self.epoch = epoch;
            self.patience_counter = 0;
            self.best_f1 = f1;
            self.best_epoch = epoch;
            self.status = if at_max {
                TrainerStatus::Stopped(StopReason::MaxEpochsReached)
            } else {
                TrainerStatus::Running
            };
        } else {
            let counter = self.patience_counter + 1;
            let limit: u8 = if config.early_stop_patience == 0 {
                1
            } else {
                config.early_stop_patience
            };
            self.epoch = epoch;
            self.patience_counter = counter;
            self.status = if counter >= limit {
                TrainerStatus::Stopped(StopReason::EarlyStopped)
            } else if at_max {
                TrainerStatus::Stopped(StopReason::MaxEpochsReached)
            } else {
                TrainerStatus::Running
            };
        }
        EpochOutcome {
            improved,
            stop: match self.status {
                TrainerStatus::Running => None,
                TrainerStatus::Stopped(reason) => Some(reason),
            },
        }
    }
}

/// Over any run of epoch scores, the trainer's checkpoint is the epoch of the
/// last strict improvement of the best held-out F1, and no epoch after it
/// improved on that best. Training stops early exactly when the epochs since
/// that improvement reach the patience, and once stopped no further epoch
/// changes anything: the persisted checkpoint is the last improvement's, not
/// the final epoch's.
pub proof fn lemma_early_stopping(config: TrainConfig, scores: Seq<F1Score>)
    ensures
        run(config, scores).valid(config),
        run(config, scores).epoch <= scores.len(),
        (run(config, scores).best_f1, run(config, scores).best_epoch as nat) == running_best(
            scores.take(run(config, scores).epoch as int),
        ),
        forall|j: int|
            run(config, scores).best_epoch <= j < run(config, scores).epoch ==> !exceeds(
                #[trigger] scores[j],
                run(config, scores).best_f1,
            ),
        run(config, scores).status == TrainerStatus::Stopped(StopReason::EarlyStopped) ==> run(
            config,
            scores,
        ).epoch - run(config, scores).best_epoch == patience_limit(config),
        run(config, scores).status == TrainerStatus::Running ==> run(config, scores).epoch
            == scores.len(),
        run(config, scores).status != TrainerStatus::Running ==> forall|f1: F1Score| #[trigger]
            run(config, scores.push(f1)) == run(config, scores),
    decreases scores.len(),
{
    let s = run(config, scores);
    if scores.len() > 0 {
        let p = scores.drop_last();
        lemma_early_stopping(config, p);
        let ps = run(config, p);
        if ps.status == TrainerStatus::Running {
            assert(ps.epoch == p.len());
            assert(scores.take(s.epoch as int).drop_last() =~= p.take(ps.epoch as int));
            assert(scores.take(s.epoch as int).last() == scores.last());
            assert forall|j: int| s.best_epoch <= j < s.epoch implies !exceeds(
                #[trigger] scores[j],
                s.best_f1,
            ) by {
                if j < p.len() {
                    assert(scores[j] == p[j]);
                }
            }
        } else {
            assert(scores.take(s.epoch as int) =~= p.take(ps.epoch as int));
            assert forall|j: int| s.best_epoch <= j < s.epoch implies !exceeds(
                #[trigger] scores[j],
                s.best_f1,
            ) by {
                assert(scores[j] == p[j]);
            }
        }
    } else {
        assert(scores.take(0) =~= Seq::<F1Score>::empty());
    }
    assert forall|f1: F1Score| s.status != TrainerStatus::Running implies #[trigger] run(
        config,
        scores.push(f1),
    ) == s by {
        assert(scores.push(f1).drop_last() =~= scores);
    }
}

} // verus!
