//! Typed request and response shells of the service, and the service
//! counters.
//!
//! The transport itself — line framing, JSON, dispatch — lives outside
//! this crate; these are the plain values it exchanges with the core,
//! and the counter rules the service keeps between calls.

use vstd::prelude::*;

verus! {

/// A transport-level error: a numeric code with a message.
#[derive(Debug)]
pub struct JsonRpcError {
    pub code: i32,
    pub message: String,
}

/// Answer to a status request.
#[derive(Debug)]
pub struct StatusResult {
    pub trained: bool,
    pub training_pairs: usize,
    pub model_version: u64,
    pub last_trained: Option<String>,
}

/// Request to persist a checkpoint.
#[derive(Debug)]
pub struct SaveCheckpointParams {
    pub path: String,
    pub flags: u32,
}

/// Answer to a checkpoint request.
#[derive(Debug)]
pub struct SaveCheckpointResult {
    pub saved: bool,
}

/// The counters a service instance keeps: cumulative training steps,
/// cumulative labelled pairs seen, and a model version that grows by
/// one on every training call that took at least one step.
#[derive(Clone, Copy, Debug, PartialEq, Eq, Structural)]
pub struct ServiceCounters {
    pub train_steps: u64,
    pub training_pairs: usize,
    pub model_version: u64,
}

impl ServiceCounters {
    /// A fresh service: nothing trained, model version one.
    pub fn new() -> (r: ServiceCounters)
        ensures
            r.train_steps == 0,
            r.training_pairs == 0,
            r.model_version == 1,
    {
        ServiceCounters { train_steps: 0, training_pairs: 0, model_version: 1 }
    }

    /// Adopt the version stored in a loaded checkpoint.
    pub fn set_version(&mut self, version: u64)
        ensures
            final(self).model_version == version,
            final(self).train_steps == old(self).train_steps,
            final(self).training_pairs == old(self).training_pairs,
    {
        self.model_version = version;
    }

    /// Record the outcome of one training call: steps and labelled
    /// pairs accumulate (saturating at the top of their types), and
    /// the model version advances exactly when at least one step was
    /// taken.
    pub fn record_training(&mut self, steps: u64, pairs: usize)
        ensures
            final(self).train_steps == if old(self).train_steps + steps > u64::MAX {
                u64::MAX as int
            } else {
                old(self).train_steps + steps
            },
            final(self).training_pairs == if old(self).training_pairs + pairs > usize::MAX {
                usize::MAX as int
            } else {
                old(self).training_pairs + pairs
            },
            final(self).model_version == if steps > 0 {
                if old(self).model_version + 1 > u64::MAX {
                    u64::MAX as int
                } else {
                    old(self).model_version + 1
                }
            } else {
                old(self).model_version as int
            },
    {
        self.train_steps = if self.train_steps > u64::MAX - steps {
            u64::MAX
        } else {
            self.train_steps + steps
        };
        self.training_pairs = if self.training_pairs > usize::MAX - pairs {
            usize::MAX
        } else {
            self.training_pairs + pairs
        };
        if steps > 0 {
            self.model_version = if self.model_version == u64::MAX {
                u64::MAX
            } else {
                self.model_version + 1
            };
        }
    }

    /// The status a service reports: it counts as trained once any
    /// step has been taken.
    pub fn status(&self, last_trained: Option<String>) -> (r: StatusResult)
        ensures
            r.trained == (self.train_steps > 0),
            r.training_pairs == self.training_pairs,
            r.model_version == self.model_version,
            r.last_trained == last_trained,
    {
        StatusResult {
            trained: self.train_steps > 0,
            training_pairs: self.training_pairs,
            model_version: self.model_version,
            last_trained,
        }
    }
}

} // verus!
