//! Pairing predictions with sequential identifiers.
use vstd::prelude::*;

verus! {

/// One output line: an identifier and the predicted label.
#[derive(Debug, Clone, Copy, PartialEq, Eq, Structural)]
pub struct PredictionRow {
    pub id: u64,
    pub label: u64,
}

/// Pairs prediction `i` with identifier `offset + i`, in order.
pub fn assemble_results(predictions: &Vec<u64>, offset: u64) -> (r: Vec<PredictionRow>)
    requires
        offset + predictions@.len() <= u64::MAX + 1,
    ensures
        r@.len() == predictions@.len(),
        forall|i: int| 0 <= i < r@.len() ==> #[trigger] r@[i] == (PredictionRow {
            id: (offset + i) as u64,
            label: predictions@[i],
        }),
{
    let mut out: Vec<PredictionRow> = Vec::new();
    let mut i: usize = 0;
    while i < predictions.len()
        invariant
            i <= predictions@.len(),
            offset + predictions@.len() <= u64::MAX + 1,
            out@.len() == i,
            forall|j: int| 0 <= j < i ==> #[trigger] out@[j] == (PredictionRow {
                id: (offset + j) as u64,
                label: predictions@[j],
            }),
        decreases predictions@.len() - i,
    {
        out.push(PredictionRow { id: offset + i as u64, label: predictions[i] });
        i = i + 1;
    }
    out
}

} // verus!
