use vstd::prelude::*;

use crate::image::{Image, ImageError};

verus! {

/// `after` is `before` with every sample replaced by `op` applied to it and
/// to the operand's sample at the same position.
pub open spec fn zipped_by<S, F: Fn(S, S) -> S>(op: F, before: Seq<S>, operand: Seq<S>, after: Seq<S>) -> bool {
    &&& after.len() == before.len()
    &&& forall|i: int| 0 <= i < after.len() ==> #[trigger] op.ensures((before[i], operand[i]), after[i])
}

/// `after` is `before` with every sample replaced by `op` applied to it.
pub open spec fn mapped_by<S, F: Fn(S) -> S>(op: F, before: Seq<S>, after: Seq<S>) -> bool {
    &&& after.len() == before.len()
    &&& forall|i: int| 0 <= i < after.len() ==> #[trigger] op.ensures((before[i],), after[i])
}

impl<S: Copy> Image<S> {
    /// Replaces each sample `a` by `op(a, b)`, where `b` is the operand's sample
    /// at the same coordinate.
    ///
    /// The shapes are compared first: when they differ the image is left as it
    /// was and `DimensionMismatch` comes back.
    pub fn apply_pixelwise<F: Fn(S, S) -> S>(&mut self, other: &Image<S>, op: &F) -> (r: Result<
        (),
        ImageError,
    >)
        requires
            old(self).wf(),
            other.wf(),
            forall|a: S, b: S| #[trigger] op.requires((a, b)),
        ensures
            !old(self).same_shape(other) ==> r == Err::<(), ImageError>(ImageError::DimensionMismatch)
                && *final(self) == *old(self),
            old(self).same_shape(other) ==> r is Ok && final(self).wf() && final(self).same_shape(
                old(self),
            ) && final(self).frame_type == old(self).frame_type && zipped_by(
                *op,
                old(self).samples@,
                other.samples@,
                final(self).samples@,
            ),
    {
        if self.width != other.width || self.height != other.height {
            return Err(ImageError::DimensionMismatch);
        }
        let ghost before = self.samples@;
        let n = self.samples.len();
        let mut i: usize = 0;
        while i < n
            invariant
                i <= n,
                n == before.len(),
                before.len() == other.samples@.len(),
                self.samples@.len() == n,
                self.width == old(self).width,
                self.height == old(self).height,
                self.frame_type == old(self).frame_type,
                before == old(self).samples@,
                forall|a: S, b: S| #[trigger] op.requires((a, b)),
                forall|j: int| i <= j < n ==> self.samples@[j] == before[j],
                forall|j: int|
                    0 <= j < i ==> #[trigger] op.ensures((before[j], other.samples@[j]), self.samples@[j]),
            decreases n - i,
        {
            let x = op(self.samples[i], other.samples[i]);
            self.samples.set(i, x);
            i = i + 1;
        }
        Ok(())
    }

    /// Replaces each sample `a` by `op(a)`.
    pub fn map_samples<F: Fn(S) -> S>(&mut self, op: &F)
        requires
            forall|a: S| #[trigger] op.requires((a,)),
        ensures
            final(self).wf() == old(self).wf(),
            final(self).same_shape(old(self)),
            final(self).frame_type == old(self).frame_type,
            mapped_by(*op, old(self).samples@, final(self).samples@),
    {
        let ghost before = self.samples@;
        let n = self.samples.len();
        let mut i: usize = 0;
        while i < n
            invariant
                i <= n,
                n == before.len(),
                self.samples@.len() == n,
                self.width == old(self).width,
                self.height == old(self).height,
                self.frame_type == old(self).frame_type,
                before == old(self).samples@,
                forall|a: S| #[trigger] op.requires((a,)),
                forall|j: int| i <= j < n ==> self.samples@[j] == before[j],
                forall|j: int| 0 <= j < i ==> #[trigger] op.ensures((before[j],), self.samples@[j]),
            decreases n - i,
        {
            let x = op(self.samples[i]);
            self.samples.set(i, x);
            i = i + 1;
        }
    }
}

/// A sample-wise map whose operation leaves every value as it is (scaling by
/// one) leaves the whole buffer as it is.
pub proof fn lemma_identity_map_keeps_samples<S, F: Fn(S) -> S>(op: F, before: Seq<S>, after: Seq<S>)
    requires
        mapped_by(op, before, after),
        forall|a: S, r: S| #[trigger] op.ensures((a,), r) ==> r == a,
    ensures
        after == before,
{
    assert forall|i: int| 0 <= i < after.len() implies after[i] == before[i] by {
        assert(op.ensures((before[i],), after[i]));
    }
    assert(after =~= before);
}

/// A sample-wise map whose operation always yields `z` (scaling by zero)
/// sets every sample to `z`.
pub proof fn lemma_constant_map_fills<S, F: Fn(S) -> S>(op: F, before: Seq<S>, after: Seq<S>, z: S)
    requires
        mapped_by(op, before, after),
        forall|a: S, r: S| #[trigger] op.ensures((a,), r) ==> r == z,
    ensures
        after.len() == before.len(),
        forall|i: int| 0 <= i < after.len() ==> after[i] == z,
{
    assert forall|i: int| 0 <= i < after.len() implies after[i] == z by {
        assert(op.ensures((before[i],), after[i]));
    }
}

/// With an operation that yields `z` whenever the operand's sample is `z`
/// (guarded division, with `z` zero), the result is `z` at every coordinate
/// where the operand holds `z`.
pub proof fn lemma_guarded_positions<S, F: Fn(S, S) -> S>(
    op: F,
    before: Seq<S>,
    operand: Seq<S>,
    after: Seq<S>,
    z: S,
)
    requires
        zipped_by(op, before, operand, after),
        forall|a: S, r: S| #[trigger] op.ensures((a, z), r) ==> r == z,
    ensures
        forall|i: int| 0 <= i < after.len() && operand[i] == z ==> after[i] == z,
{
    assert forall|i: int| 0 <= i < after.len() && operand[i] == z implies after[i] == z by {
        assert(op.ensures((before[i], operand[i]), after[i]));
    }
}

} // verus!
