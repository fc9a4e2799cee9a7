//! The execution witness of one SHA-512 block compression.
use vstd::prelude::*;

use crate::constants::K;
use crate::spec::{feed_forward, round_step, schedule_step};

verus! {

/// Full execution witness for one SHA-512 block compression: the input chaining state, the
/// expanded message schedule W[0..79], the working state at each of the 81 round boundaries
/// (`round_states[0]` is the input state, `round_states[80]` the state after round 79, before
/// the feed-forward addition) and the output chaining state.
#[derive(Clone, Debug)]
pub struct BlockTrace {
    pub input_state: [u64; 8],
    pub words: [u64; 80],
    pub round_states: [[u64; 8]; 81],
    pub output_state: [u64; 8],
}

impl BlockTrace {
    /// The trace is internally consistent: the schedule follows its recurrence, the rounds
    /// follow the round function from the input state, and the output state is the
    /// feed-forward of the input state and the last working state.
    pub open spec fn is_consistent(&self) -> bool {
        &&& forall|i: int|
            16 <= i < 80 ==> #[trigger] self.words[i] == schedule_step(
                self.words[i - 2],
                self.words[i - 7],
                self.words[i - 15],
                self.words[i - 16],
            )
        &&& self.round_states[0]@ == self.input_state@
        &&& forall|i: int|
            0 <= i < 80 ==> (#[trigger] self.round_states[i + 1])@ == round_step(
                self.round_states[i]@,
                K[i],
                self.words[i],
            )
        &&& self.output_state@ == feed_forward(self.input_state@, self.round_states[80]@)
    }
}

} // verus!
