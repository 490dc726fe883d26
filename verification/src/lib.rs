//! Verified core of a small transformer inference engine.
//!
//! The engine loads a pretrained language model from a flat checkpoint and
//! generates text from it token by token. This crate holds everything of it
//! that is decided in whole numbers, and proves it: the checkpoint header
//! and the layout of the tensors behind it, the run state and its key/value
//! cache, the schedule of a forward pass with every index in it, the
//! sampler, and the generation loop. The arithmetic on real numbers, the
//! files and the text are left to the program around it.
//!
//! Real numbers cross the boundary as bit patterns of IEEE-754 singles, in
//! `u32`: the weights in the checkpoint, the buffers of the run state, the
//! logits and probabilities that the sampler is handed, its temperature and
//! its threshold.
//!
//! * [`config`]: the model's dimensions and the header that carries them.
//! * [`weights`]: where each tensor lies in a checkpoint.
//! * [`state`]: the buffers of a forward pass and the key/value cache.
//! * [`forward`]: the steps of a forward pass, and what they read and write.
//! * [`transformer`]: a loaded model.
//! * [`ieee`]: bit patterns of singles: order, zero, fixed-point weight.
//! * [`sampler`]: from logits to a token.
//! * [`generate`]: the generation loop as a state machine.
//! * [`tokenizer`]: vocabulary entries.
//! * [`error`]: what can go wrong.

pub mod config;
pub mod error;
pub mod forward;
pub mod generate;
pub mod ieee;
pub mod sampler;
pub mod state;
pub mod tokenizer;
pub mod transformer;
pub mod weights;
