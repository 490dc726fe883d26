//! The generation loop as a state machine.
//!
//! A generation starts with a prompt. The prompt's tokens but the last are
//! fed to the model so that it caches them; nothing is sampled for them.
//! From the position of the last prompt token on, each step feeds the
//! current token, takes the token that the sampler chose for it, and moves
//! one position on. It is over when the chosen token ends the sequence or
//! the step budget is used up. The machine decides; running the model and
//! the sampler is its driver's part.

use vstd::prelude::*;
use crate::error::EngineError;

verus! {

/// Where a generation stands.
#[derive(Clone, Copy, Debug, PartialEq, Eq, Structural)]
pub enum Phase {
    /// Nothing has been fed yet.
    Start,
    /// The current token is to be fed at `position`.
    Stepping { position: u32 },
    /// Nothing more is to be fed.
    Done,
}

/// One run of the forward pass that the machine asks for.
#[derive(Clone, Copy, Debug, PartialEq, Eq, Structural)]
pub struct Feed {
    pub token: u32,
    pub position: u32,
}

/// The positions that a run may use: the number asked for, or the whole
/// sequence length where none or more than that is asked for.
pub open spec fn spec_step_budget(requested: u32, seq_len: u32) -> u32 {
    if requested == 0 || requested > seq_len {
        seq_len
    } else {
        requested
    }
}

/// The positions that a run may use.
pub fn step_budget(requested: u32, seq_len: u32) -> (steps: u32)
    ensures
        steps == spec_step_budget(requested, seq_len),
        steps <= seq_len,
{
    if requested == 0 || requested > seq_len {
        seq_len
    } else {
        requested
    }
}

/// A position as the 32-bit number that an error reports: positions beyond
/// that range are reported as the largest.
pub open spec fn reported(position: int) -> u32 {
    if position > u32::MAX {
        u32::MAX
    } else {
        position as u32
    }
}

/// The runs that cache the prompt: every token but the last, each at its
/// own position.
pub open spec fn prefill(prompt: Seq<u32>) -> Seq<Feed> {
    Seq::new(
        (prompt.len() - 1) as nat,
        |i: int| Feed { token: prompt[i], position: i as u32 },
    )
}

/// A generation: its state, its limits, and the tokens produced so far.
#[derive(Debug)]
pub struct Generation {
    pub phase: Phase,
    /// The token to feed next, while stepping.
    pub token: u32,
    /// The position of the first step, once started.
    pub first: u32,
    /// Positions from `steps` on are not used.
    pub steps: u32,
    /// Positions from `seq_len` on do not exist.
    pub seq_len: u32,
    /// The token that ends a sequence.
    pub eos: u32,
    /// The tokens produced, in order.
    pub output: Vec<u32>,
}

impl Generation {
    /// Before the start nothing has been produced. While stepping, the
    /// position is within the budget and within the sequence, and one token
    /// has been produced for each position since the first.
    pub open spec fn wf(&self) -> bool {
        match self.phase {
            Phase::Start => self.output@.len() == 0,
            Phase::Stepping { position } => {
                &&& position < self.steps
                &&& position < self.seq_len
                &&& position == self.first + self.output@.len()
            },
            Phase::Done => true,
        }
    }

    /// A generation that has not started.
    pub fn new(steps: u32, seq_len: u32, eos: u32) -> (fresh: Generation)
        ensures
            fresh.phase == Phase::Start,
            fresh.steps == steps,
            fresh.seq_len == seq_len,
            fresh.eos == eos,
            fresh.output@.len() == 0,
            fresh.wf(),
    {
        Generation {
            phase: Phase::Start,
            token: 0,
            first: 0,
            steps,
            seq_len,
            eos,
            output: Vec::new(),
        }
    }

    /// Starts on a prompt.
    ///
    /// The last prompt token's position is where stepping begins. If it is
    /// not below the sequence length, the start fails with
    /// `SequenceOverflow`. If it is not within the budget, nothing is to be
    /// fed and the generation is over. Otherwise the runs that cache the
    /// prompt are returned, and the machine steps from the last prompt
    /// token on.
    pub fn start(&mut self, prompt: &[u32]) -> (feeds: Result<Vec<Feed>, EngineError>)
        requires
            old(self).phase == Phase::Start,
            old(self).wf(),
            prompt@.len() >= 1,
        ensures
            final(self).wf(),
            final(self).steps == old(self).steps,
            final(self).seq_len == old(self).seq_len,
            final(self).eos == old(self).eos,
            final(self).output@ == old(self).output@,
            match feeds {
                Err(e) => {
                    &&& prompt@.len() - 1 >= old(self).seq_len
                    &&& e == (EngineError::SequenceOverflow {
                        position: reported(prompt@.len() - 1),
                        seq_len: old(self).seq_len,
                    })
                    &&& final(self).phase == Phase::Done
                },
                Ok(runs) => {
                    &&& prompt@.len() - 1 < old(self).seq_len
                    &&& if prompt@.len() - 1 >= old(self).steps {
                        &&& runs@.len() == 0
                        &&& final(self).phase == Phase::Done
                    } else {
                        &&& runs@ == prefill(prompt@)
                        &&& final(self).phase == (Phase::Stepping {
                            position: (prompt@.len() - 1) as u32,
                        })
                        &&& final(self).token == prompt@[prompt@.len() - 1]
                        &&& final(self).first == prompt@.len() - 1
                    }
                },
            },
    {
        let last: usize = prompt.len() - 1;
        if last >= self.seq_len as usize {
            self.phase = Phase::Done;
            let position: u32 = if last > u32::MAX as usize {
                u32::MAX
            } else {
                last as u32
            };
            return Err(EngineError::SequenceOverflow { position, seq_len: self.seq_len });
        }
        let mut runs: Vec<Feed> = Vec::new();
        if last >= self.steps as usize {
            self.phase = Phase::Done;
            return Ok(runs);
        }
        let mut i: usize = 0;
        while i < last
            invariant
                i <= last,
                last == prompt@.len() - 1,
                last < 0xFFFF_FFFF,
                runs@ == prefill(prompt@).take(i as int),
            decreases last - i,
        {
            runs.push(Feed { token: prompt[i], position: i as u32 });
            i += 1;
            assert(runs@ =~= prefill(prompt@).take(i as int));
        }
        assert(runs@ =~= prefill(prompt@));
        self.token = prompt[last];
        self.first = last as u32;
        self.phase = Phase::Stepping { position: last as u32 };
        Ok(runs)
    }

    /// The run that the machine waits for: the current token at the current
    /// position while stepping, none before the start and after the end.
    pub fn pending(&self) -> (run: Option<Feed>)
        ensures
            run == match self.phase {
                Phase::Stepping { position } => Some(Feed { token: self.token, position }),
                _ => None::<Feed>,
            },
    {
        match self.phase {
            Phase::Stepping { position } => Some(Feed { token: self.token, position }),
            _ => None,
        }
    }

    /// Takes the token that was chosen for the current position.
    ///
    /// The token is appended to the output. The generation is over if the
    /// token ends the sequence or the next position is beyond the budget.
    /// If it is not over and the next position does not exist, the step
    /// fails with `SequenceOverflow`, and the generation is over as well.
    /// Otherwise the token becomes the current one, at the next position.
    pub fn advance(&mut self, next: u32) -> (moved: Result<(), EngineError>)
        requires
            old(self).wf(),
            old(self).phase is Stepping,
        ensures
            final(self).wf(),
            final(self).steps == old(self).steps,
            final(self).seq_len == old(self).seq_len,
            final(self).eos == old(self).eos,
            final(self).first == old(self).first,
            final(self).output@ == old(self).output@.push(next),
            old(self).phase matches Phase::Stepping { position } && {
                if next == old(self).eos || position + 1 >= old(self).steps {
                    moved == Ok::<(), EngineError>(()) && final(self).phase == Phase::Done
                } else if position + 1 >= old(self).seq_len {
                    &&& moved == Err::<(), EngineError>(
                        EngineError::SequenceOverflow {
                            position: (position + 1) as u32,
                            seq_len: old(self).seq_len,
                        },
                    )
                    &&& final(self).phase == Phase::Done
                } else {
                    &&& moved == Ok::<(), EngineError>(())
                    &&& final(self).phase == (Phase::Stepping { position: (position + 1) as u32 })
                    &&& final(self).token == next
                }
            },
    {
        let position: u32 = match self.phase {
            Phase::Stepping { position } => position,
            _ => 0,
        };
        self.output.push(next);
        let following: u32 = position + 1;
        if next == self.eos || following >= self.steps {
            self.phase = Phase::Done;
            Ok(())
        } else if following >= self.seq_len {
            self.phase = Phase::Done;
            Err(EngineError::SequenceOverflow { position: following, seq_len: self.seq_len })
        } else {
            self.token = next;
            self.phase = Phase::Stepping { position: following };
            Ok(())
        }
    }
}

} // verus!
