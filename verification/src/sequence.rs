//! The colour sequence, read as if it repeated without end.

use vstd::prelude::*;
use vstd::arithmetic::div_mod::{lemma_mod_add_multiples_vanish, lemma_small_mod};
use crate::color::Color;

verus! {

/// The colours that a walk has to follow, one per step. It is never empty.
pub type Sequence = Vec<Color>;

/// The colour asked for at step `k`: the sequence starts over when it ends.
pub open spec fn step_color(s: Seq<Color>, k: nat) -> Color {
    s[(k % s.len()) as int]
}

/// The colour at step `n` of the sequence repeated without end.
pub fn nth_in_sequence(s: &Sequence, n: usize) -> (color: Color)
    requires
        s.len() > 0,
    ensures
        color == step_color(s@, n as nat),
{
    s[n % s.len()]
}

/// The colours come round again after as many steps as the sequence is long.
pub proof fn sequence_is_cyclic(s: Seq<Color>, n: nat)
    requires
        s.len() > 0,
    ensures
        step_color(s, n) == step_color(s, n + s.len()),
{
    lemma_mod_add_multiples_vanish(n as int, s.len() as int);
}

/// Every step asks for a colour that the sequence holds, at the position of
/// the step while the sequence lasts.
pub proof fn step_color_is_in_sequence(s: Seq<Color>, n: nat)
    requires
        s.len() > 0,
    ensures
        s.contains(step_color(s, n)),
        n < s.len() ==> step_color(s, n) == s[n as int],
{
    assert(0 <= n % s.len() < s.len());
    if n < s.len() {
        lemma_small_mod(n, s.len());
    }
}

/// A sequence of one colour asks for that colour at every step.
pub proof fn single_color_sequence(s: Seq<Color>, n: nat)
    requires
        s.len() == 1,
    ensures
        step_color(s, n) == s[0],
{
}

} // verus!
