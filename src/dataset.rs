//! A feature matrix with an optional parallel label vector.
use vstd::prelude::*;
use crate::error::ForestError;
use crate::tree::{labels_wf, matrix, rows_wf};

verus! {

/// Rows of `width` features, and for training data one label (0 or 1) per row.
pub struct Dataset {
    width: usize,
    rows: Vec<Vec<u64>>,
    labels: Option<Vec<u64>>,
}

pub open spec fn labels_view(labels: Option<Vec<u64>>) -> Option<Seq<u64>> {
    match labels {
        Some(l) => Some(l@),
        None => None,
    }
}

/// What makes rows and labels a dataset.
pub open spec fn dataset_valid(width: nat, rows: Seq<Seq<u64>>, labels: Option<Seq<u64>>) -> bool {
    rows_wf(rows, width) && match labels {
        Some(l) => l.len() == rows.len() && labels_wf(l),
        None => true,
    }
}

impl Dataset {
    /// Number of features of every row.
    pub closed spec fn width(&self) -> nat {
        self.width as nat
    }

    /// The contents of the rows.
    pub closed spec fn rows(&self) -> Seq<Seq<u64>> {
        matrix(self.rows@)
    }

    pub closed spec fn labels(&self) -> Option<Seq<u64>> {
        labels_view(self.labels)
    }

    pub open spec fn wf(&self) -> bool {
        dataset_valid(self.width(), self.rows(), self.labels())
    }

    /// Pairs `rows` with `labels`. A row of another length than `width`, or a
    /// label count other than the row count, is a shape mismatch; a label
    /// other than 0 or 1 is malformed input.
    pub fn new(width: usize, rows: Vec<Vec<u64>>, labels: Option<Vec<u64>>) -> (r: Result<Dataset, ForestError>)
        ensures
            r is Ok <==> dataset_valid(width as nat, matrix(rows@), labels_view(labels)),
            r matches Ok(d) ==> d.wf() && d.width() == width && d.rows() == matrix(rows@) && d.labels()
                == labels_view(labels),
            !rows_wf(matrix(rows@), width as nat) ==> exists|i: int|
                0 <= i < rows@.len() && #[trigger] rows@[i]@.len() != width && (forall|k: int|
                    0 <= k < i ==> rows@[k]@.len() == width) && r == Err::<Dataset, ForestError>(
                    ForestError::ShapeMismatch { expected: width, found: rows@[i].len() },
                ),
            rows_wf(matrix(rows@), width as nat) && labels is Some && labels->0@.len() != rows@.len()
                ==> r == Err::<Dataset, ForestError>(
                ForestError::ShapeMismatch { expected: rows.len(), found: labels->0.len() },
            ),
            rows_wf(matrix(rows@), width as nat) && labels is Some && labels->0@.len() == rows@.len()
                && !labels_wf(labels->0@) ==> (r matches Err(ForestError::MalformedInput { field, row })
                && field@ == "label"@ && labels->0@[row as int] > 1 && forall|j: int|
                0 <= j < row ==> #[trigger] labels->0@[j] <= 1),
    {
        let mut i: usize = 0;
        while i < rows.len()
            invariant
                i <= rows@.len(),
                forall|j: int| 0 <= j < i ==> (#[trigger] rows@[j])@.len() == width,
            decreases rows@.len() - i,
        {
            if rows[i].len() != width {
                assert(rows@[i as int]@.len() != width);
                assert(matrix(rows@)[i as int].len() != width);
                return Err(ForestError::ShapeMismatch { expected: width, found: rows[i].len() });
            }
            i = i + 1;
        }
        if let Some(l) = &labels {
            assert(rows_wf(matrix(rows@), width as nat));
            if l.len() != rows.len() {
                return Err(ForestError::ShapeMismatch { expected: rows.len(), found: l.len() });
            }
            let mut j: usize = 0;
            while j < l.len()
                invariant
                    j <= l@.len(),
                    l@.len() == rows@.len(),
                    rows_wf(matrix(rows@), width as nat),
                    labels_view(labels) == Some(l@),
                    forall|k: int| 0 <= k < j ==> #[trigger] l@[k] <= 1,
                decreases l@.len() - j,
            {
                if l[j] > 1 {
                    return Err(ForestError::MalformedInput { field: String::from_str("label"), row: j });
                }
                j = j + 1;
            }
        }
        assert(rows_wf(matrix(rows@), width as nat));
        Ok(Dataset { width, rows, labels })
    }

    /// Number of features of every row.
    pub fn feature_count(&self) -> (r: usize)
        ensures
            r == self.width(),
    {
        self.width
    }

    /// Number of rows.
    pub fn row_count(&self) -> (r: usize)
        ensures
            r == self.rows().len(),
    {
        self.rows.len()
    }

    pub fn row_values(&self) -> (r: &Vec<Vec<u64>>)
        ensures
            matrix(r@) == self.rows(),
    {
        &self.rows
    }

    pub fn label_values(&self) -> (r: &Option<Vec<u64>>)
        ensures
            labels_view(*r) == self.labels(),
    {
        &self.labels
    }
}

} // verus!
