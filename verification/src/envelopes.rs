//! The linear window of a crossfade.

use vstd::prelude::*;

verus! {

/// Whether a signal enters or leaves over the window.
#[derive(Clone, Copy, Debug, PartialEq, Eq, Structural)]
pub enum FadeDirection {
    /// The weight rises from nothing to full.
    FadeIn,
    /// The weight falls from full to nothing.
    FadeOut,
}

/// The weight at position `i` of a linear window over `size` positions, in
/// units of `1 / size`.
pub open spec fn envelope_weight(i: int, size: int, fade: FadeDirection) -> int {
    match fade {
        FadeDirection::FadeIn => i,
        FadeDirection::FadeOut => size - i,
    }
}

/// The weight at position `i` of a linear window over `size` positions, as a
/// count of `size`-ths: a sample is scaled by the result divided by `size`.
pub fn linear_envelope(i: usize, size: usize, fade: FadeDirection) -> (weight: usize)
    requires
        i <= size,
    ensures
        weight == envelope_weight(i as int, size as int, fade),
        weight <= size,
{
    match fade {
        FadeDirection::FadeIn => i,
        FadeDirection::FadeOut => size - i,
    }
}

/// At every position the weights of the two directions add up to the whole.
pub proof fn lemma_envelope_complement(i: int, size: int)
    ensures
        envelope_weight(i, size, FadeDirection::FadeIn) + envelope_weight(
            i,
            size,
            FadeDirection::FadeOut,
        ) == size,
{
}

/// The entering weight never falls and the leaving weight never rises along
/// the window, and they run from nothing to the whole and back.
pub proof fn lemma_envelope_monotonic(i: int, j: int, size: int)
    requires
        0 <= i <= j <= size,
    ensures
        envelope_weight(i, size, FadeDirection::FadeIn) <= envelope_weight(
            j,
            size,
            FadeDirection::FadeIn,
        ),
        envelope_weight(i, size, FadeDirection::FadeOut) >= envelope_weight(
            j,
            size,
            FadeDirection::FadeOut,
        ),
        envelope_weight(0, size, FadeDirection::FadeIn) == 0,
        envelope_weight(size, size, FadeDirection::FadeIn) == size,
        envelope_weight(0, size, FadeDirection::FadeOut) == size,
        envelope_weight(size, size, FadeDirection::FadeOut) == 0,
{
}

} // verus!
