//! The sample-index stream of the progressive sampler.
//!
//! The sampler pre-generates `num_sets * num_samples` 2-D points and as
//! many shuffle indices, each drawn uniformly from the whole table (they
//! may repeat). A stream walks the table: every `num_samples` emissions —
//! at a pixel boundary — it re-chooses a jump `(draw % num_sets) *
//! num_samples`, and each step emits the shuffle index at
//! `jump + cursor % num_samples`, which the caller uses to look up its
//! pre-generated sample point. The point values themselves are not held
//! here; the stream's output is the index into that table.

use vstd::prelude::*;
use vstd::arithmetic::div_mod::{
    lemma_fundamental_div_mod, lemma_div_is_ordered, lemma_div_by_multiple, lemma_mod_bound,
};
use rand::Rng;
use rand::rngs::SmallRng;

verus! {

#[verifier::external_type_specification]
#[verifier::external_body]
pub struct ExSmallRng(SmallRng);

/// Relies on rand's `Rng::gen::<usize>`: an arbitrary machine word, of
/// whose value nothing is promised.
#[verifier::external_body]
fn rng_usize(rng: &mut SmallRng) -> usize {
    rng.gen()
}

/// Relies on rand's `Rng::gen_range(0, n)`: a value drawn from `[0, n)`.
/// The call panics on an empty range, which the precondition excludes.
#[verifier::external_body]
fn rng_below(rng: &mut SmallRng, n: usize) -> (r: usize)
    requires
        n > 0,
    ensures
        r < n,
{
    rng.gen_range(0, n)
}

/// How the pre-generated sample points are distributed over `[0,1)^2`.
#[derive(Copy, Clone)]
pub enum Distribution {
    Random,
    Jittered,
}

/// The integer side of the jittered sampler's square grid: the largest
/// `n` with `n * n <= num_samples`.
pub fn grid_side(num_samples: usize) -> (r: usize)
    requires
        num_samples > 0,
    ensures
        r * r <= num_samples,
        num_samples < (r + 1) * (r + 1),
        r >= 1,
{
    let mut r: usize = 1;
    loop
        invariant
            1 <= r <= num_samples,
            r * r <= num_samples,
        ensures
            1 <= r,
            r * r <= num_samples,
            num_samples < (r + 1) * (r + 1),
        decreases num_samples - r,
    {
        proof {
            assert(r < usize::MAX) by (nonlinear_arith)
                requires 1 <= r && r * r <= num_samples && num_samples <= usize::MAX;
        }
        if r + 1 <= num_samples / (r + 1) {
            proof {
                let a = r as int + 1;
                let q = num_samples as int / a;
                lemma_fundamental_div_mod(num_samples as int, a);
                assert(a * a <= a * q) by (nonlinear_arith)
                    requires a <= q && a > 0;
                assert(a * q <= num_samples) by (nonlinear_arith)
                    requires
                        num_samples == a * q + num_samples as int % a && num_samples as int % a
                            >= 0,
                ;
            }
            r = r + 1;
        } else {
            proof {
                let a = r as int + 1;
                if a * a <= num_samples {
                    lemma_div_is_ordered(a * a, num_samples as int, a);
                    lemma_div_by_multiple(a, a);
                    assert(a * a / a == a);
                    assert(false);
                }
            }
            break;
        }
    }
    r
}

/// The pre-drawn shuffle table of one sampler: `num_sets * num_samples`
/// indices, each uniform in `[0, num_sets * num_samples)`.
pub struct SampleIndices {
    pub num_samples: usize,
    pub num_sets: usize,
    pub shuffle: Vec<usize>,
}

impl SampleIndices {
    /// Length of the sample and shuffle tables.
    pub open spec fn total(self) -> int {
        self.num_sets * self.num_samples
    }

    pub open spec fn wf(self) -> bool {
        &&& self.num_samples > 0
        &&& self.num_sets > 0
        &&& self.total() <= usize::MAX
        &&& self.shuffle@.len() == self.total()
        &&& forall|i: int|
            0 <= i < self.shuffle@.len() ==> (#[trigger] self.shuffle@[i]) < self.total()
    }

    /// Draws the shuffle table. The indices are drawn with replacement, so
    /// the table is in general not a permutation.
    pub fn new(num_samples: usize, num_sets: usize, rng: &mut SmallRng) -> (r: SampleIndices)
        requires
            num_samples > 0,
            num_sets > 0,
            num_sets * num_samples <= usize::MAX,
        ensures
            r.wf(),
            r.num_samples == num_samples,
            r.num_sets == num_sets,
    {
        let total: usize = num_sets * num_samples;
        proof {
            assert(total > 0) by (nonlinear_arith)
                requires
                    num_sets > 0 && num_samples > 0 && total == num_sets * num_samples,
            ;
        }
        let mut shuffle: Vec<usize> = Vec::new();
        let mut i: usize = 0;
        while i < total
            invariant
                i <= total,
                total == num_sets * num_samples,
                total > 0,
                shuffle@.len() == i,
                forall|j: int| 0 <= j < i ==> (#[trigger] shuffle@[j]) < total,
            decreases total - i,
        {
            let v = rng_below(rng, total);
            shuffle.push(v);
            i = i + 1;
        }
        SampleIndices { num_samples, num_sets, shuffle }
    }

    /// Starts a fresh stream over this table, with its own generator.
    pub fn samples(&self, rng: SmallRng) -> (r: SampleStream<'_>)
        requires
            self.wf(),
        ensures
            r.wf(),
            r.data == self,
            r.cursor == 0,
            r.jump == 0,
    {
        let s = SampleStream { data: self, cursor: 0, jump: 0, rng };
        proof {
            assert(0 * self.num_samples == 0) by (nonlinear_arith);
            assert(s.wf());
        }
        s
    }
}

/// The jump chosen at a step: re-drawn at a pixel boundary, kept
/// otherwise.
pub open spec fn spec_jump_of(data: SampleIndices, jump: int, cursor: int, draw: int) -> int {
    if cursor % data.num_samples as int == 0 {
        (draw % data.num_sets as int) * data.num_samples
    } else {
        jump
    }
}

/// The shuffle-table slot a stream at `(jump, cursor)` reads.
pub open spec fn spec_slot(data: SampleIndices, jump: int, cursor: int) -> int {
    jump + cursor % data.num_samples as int
}

/// One step of the stream: the state after it and the emitted index, as a
/// function of the state before it and the draw alone.
pub open spec fn spec_step(data: SampleIndices, cursor: int, jump: int, draw: int) -> (
    int,
    int,
    int,
) {
    let j2 = spec_jump_of(data, jump, cursor, draw);
    let c2 = cursor + 1;
    (c2, j2, data.shuffle@[spec_slot(data, j2, c2)] as int)
}

/// A walk through one shuffle table, with its own random generator for
/// the per-pixel jumps.
pub struct SampleStream<'a> {
    pub data: &'a SampleIndices,
    pub cursor: usize,
    pub jump: usize,
    pub rng: SmallRng,
}

impl<'a> SampleStream<'a> {
    pub open spec fn wf(self) -> bool {
        &&& self.data.wf()
        &&& exists|k: int|
            0 <= k < self.data.num_sets && self.jump == #[trigger] (k * self.data.num_samples)
    }

    /// Advances by one sample with the fresh draw supplied by the caller:
    /// the emitted index and the new position are `spec_step` of the old
    /// position and the draw, and nothing else.
    pub fn step(&mut self, draw: usize) -> (r: usize)
        requires
            old(self).wf(),
            old(self).cursor < usize::MAX,
        ensures
            final(self).wf(),
            final(self).data == old(self).data,
            final(self).rng == old(self).rng,
            (final(self).cursor as int, final(self).jump as int, r as int) == spec_step(
                *old(self).data,
                old(self).cursor as int,
                old(self).jump as int,
                draw as int,
            ),
            r < old(self).data.total(),
    {
        let data = self.data;
        let ghost pre = *self;
        if self.cursor % data.num_samples == 0 {
            let set = rand_mod(draw, data.num_sets);
            proof {
                assert(set * data.num_samples <= (data.num_sets - 1)
                    * data.num_samples) by (nonlinear_arith)
                    requires set <= data.num_sets - 1 && data.num_samples > 0;
                assert((data.num_sets - 1) * data.num_samples < data.num_sets
                    * data.num_samples) by (nonlinear_arith)
                    requires data.num_sets >= 1 && data.num_samples > 0;
                assert(set * data.num_samples >= 0) by (nonlinear_arith)
                    requires set >= 0 && data.num_samples > 0;
            }
            self.jump = set * data.num_samples;
        }
        proof {
            let k = choose|k: int|
                0 <= k < data.num_sets && self.jump == #[trigger] (k * data.num_samples);
            assert(k * data.num_samples <= (data.num_sets - 1) * data.num_samples)
                by (nonlinear_arith)
                requires k <= data.num_sets - 1 && data.num_samples > 0;
            assert((data.num_sets - 1) * data.num_samples + data.num_samples == data.num_sets
                * data.num_samples) by (nonlinear_arith);
            lemma_mod_bound((self.cursor + 1) as int, data.num_samples as int);
        }
        self.cursor = self.cursor + 1;
        let slot = self.jump + self.cursor % data.num_samples;
        let r = self.data.shuffle[slot];
        r
    }

    /// Advances by one sample, drawing from the stream's own generator.
    /// The jump after the call is some set's start either way; at a pixel
    /// boundary which set depends on the generator.
    pub fn next(&mut self) -> (r: usize)
        requires
            old(self).wf(),
            old(self).cursor < usize::MAX,
        ensures
            final(self).wf(),
            final(self).data == old(self).data,
            final(self).cursor == old(self).cursor + 1,
            old(self).cursor as int % old(self).data.num_samples as int != 0 ==> final(self).jump
                == old(self).jump,
            r as int == old(self).data.shuffle@[spec_slot(
                *old(self).data,
                final(self).jump as int,
                final(self).cursor as int,
            )],
            r < old(self).data.total(),
    {
        let draw = rng_usize(&mut self.rng);
        self.step(draw)
    }
}

/// `a % n` with the remainder's bounds stated.
fn rand_mod(a: usize, n: usize) -> (r: usize)
    requires
        n > 0,
    ensures
        r == a as int % n as int,
        r < n,
{
    proof {
        lemma_mod_bound(a as int, n as int);
    }
    a % n
}

/// The indices a stream emits from a given position under a given draw
/// sequence.
pub open spec fn spec_run(data: SampleIndices, cursor: int, jump: int, draws: Seq<int>) -> Seq<
    int,
>
    decreases draws.len(),
{
    if draws.len() == 0 {
        Seq::empty()
    } else {
        let s = spec_step(data, cursor, jump, draws[0]);
        seq![s.2] + spec_run(data, s.0, s.1, draws.skip(1))
    }
}

/// Sampling is deterministic in the draws: two streams over the same
/// table, starting at the same position and fed the same draw sequence,
/// emit the same index sequence. A render whose draws are fixed therefore
/// reads the same sample points both times.
pub proof fn lemma_stream_deterministic(
    a: SampleStream,
    b: SampleStream,
    draws: Seq<int>,
)
    requires
        *a.data == *b.data,
        a.cursor == b.cursor,
        a.jump == b.jump,
    ensures
        spec_run(*a.data, a.cursor as int, a.jump as int, draws) == spec_run(
            *b.data,
            b.cursor as int,
            b.jump as int,
            draws,
        ),
{
}

} // verus!
