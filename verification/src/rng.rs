//! The generator's source of random choices: either the process random
//! number generator, or a scripted sequence of values that makes a run
//! reproducible.

use vstd::prelude::*;

verus! {

/// The index a raw value sequence picks from `bound` alternatives: the
/// first value reduced modulo `bound`, or 0 once the values have run out.
pub open spec fn pick_index(raws: Seq<u64>, bound: int) -> int {
    if raws.len() > 0 {
        raws[0] as int % bound
    } else {
        0
    }
}

/// The raw value sequence after one choice has been made.
pub open spec fn rest_of(raws: Seq<u64>) -> Seq<u64> {
    if raws.len() > 0 {
        raws.drop_first()
    } else {
        raws
    }
}

/// Where the generator's random choices come from.
pub enum RandomSource {
    /// Draws every choice from the process random number generator.
    External,
    /// Replays `values` from position `cursor`, consuming one value per
    /// choice; a value `v` picks index `v % bound`.  Once the values run
    /// out, every further choice picks index 0.
    Scripted { values: Vec<u64>, cursor: usize },
}

impl RandomSource {
    /// Whether this source replays a scripted value sequence.
    pub open spec fn is_scripted(self) -> bool {
        self is Scripted
    }

    /// The scripted values not yet consumed (empty for an external source).
    pub open spec fn remaining(self) -> Seq<u64> {
        match self {
            RandomSource::External => Seq::empty(),
            RandomSource::Scripted { values, cursor } => if cursor <= values@.len() {
                values@.skip(cursor as int)
            } else {
                Seq::empty()
            },
        }
    }

    /// A source that draws from the process random number generator.
    pub fn external() -> (s: RandomSource)
        ensures
            !s.is_scripted(),
    {
        RandomSource::External
    }

    /// A source that replays `values` from the start.
    pub fn scripted(values: Vec<u64>) -> (s: RandomSource)
        ensures
            s.is_scripted(),
            s.remaining() == values@,
    {
        let s = RandomSource::Scripted { values, cursor: 0 };
        proof {
            assert(s.remaining() =~= s->values@);
        }
        s
    }

    /// Draws the next choice: an index uniformly below `bound` for an
    /// external source, the next scripted value modulo `bound` for a
    /// scripted one.
    pub fn next_index(&mut self, bound: usize) -> (r: usize)
        requires
            1 <= bound,
        ensures
            r < bound,
            old(self).is_scripted() ==> final(self).is_scripted() && r == pick_index(
                old(self).remaining(),
                bound as int,
            ) && final(self).remaining() == rest_of(old(self).remaining()),
            !old(self).is_scripted() ==> !final(self).is_scripted(),
    {
        match self {
            RandomSource::External => sample_below(bound),
            RandomSource::Scripted { values, cursor } => {
                if *cursor < values.len() {
                    let v: u64 = values[*cursor];
                    let picked: usize = (v % (bound as u64)) as usize;
                    *cursor = *cursor + 1;
                    proof {
                        assert(final(self).remaining() =~= rest_of(old(self).remaining()));
                    }
                    picked
                } else {
                    0
                }
            },
        }
    }
}

/// Relies on `rand`: `rand::thread_rng()` hands out the thread's random
/// number generator, and `Rng::gen_range(0..bound)` on it returns a value
/// uniformly distributed over `[0, bound)`; it panics only on an empty
/// range, which `bound >= 1` rules out.
#[verifier::external_body]
fn sample_below(bound: usize) -> (r: usize)
    requires
        1 <= bound,
    ensures
        r < bound,
{
    rand::Rng::gen_range(&mut rand::thread_rng(), 0..bound)
}

} // verus!
