//! Patch operations: the six RFC 6902 operation kinds and ordered sequences
//! of them.

use crate::path::Path;
use crate::path::segs_view;
use crate::value::SpecValue;
use crate::value::Value;
use vstd::prelude::*;

verus! {

broadcast use vstd::std_specs::vec::group_vec_axioms, vstd::seq::group_seq_axioms;

/// Model of a single operation: paths as segment sequences, values as
/// [`SpecValue`].
pub enum SpecOp {
    Add { path: Seq<Seq<char>>, value: SpecValue },
    Remove { path: Seq<Seq<char>> },
    Replace { path: Seq<Seq<char>>, value: SpecValue },
    Move { from: Seq<Seq<char>>, path: Seq<Seq<char>> },
    Copy { from: Seq<Seq<char>>, path: Seq<Seq<char>> },
    Test { path: Seq<Seq<char>>, value: SpecValue },
}

/// A single patch operation.
#[derive(Debug, PartialEq, Eq)]
pub enum Op {
    /// Insert `value` at `path`; in an array later elements shift right, and
    /// the `-` segment appends.
    Add { path: Path, value: Value },
    /// Delete the value at `path`; in an array later elements shift left.
    Remove { path: Path },
    /// Overwrite the existing value at `path`.
    Replace { path: Path, value: Value },
    /// Remove the value at `from`, then insert it at `path`.
    Move { from: Path, path: Path },
    /// Insert at `path` a deep copy of the value at `from`.
    Copy { from: Path, path: Path },
    /// Assert that the value at `path` equals `value`; no mutation.
    Test { path: Path, value: Value },
}

impl View for Op {
    type V = SpecOp;

    open spec fn view(&self) -> SpecOp {
        match self {
            Op::Add { path, value } => SpecOp::Add { path: path@, value: value@ },
            Op::Remove { path } => SpecOp::Remove { path: path@ },
            Op::Replace { path, value } => SpecOp::Replace { path: path@, value: value@ },
            Op::Move { from, path } => SpecOp::Move { from: from@, path: path@ },
            Op::Copy { from, path } => SpecOp::Copy { from: from@, path: path@ },
            Op::Test { path, value } => SpecOp::Test { path: path@, value: value@ },
        }
    }
}

/// Model of a vector of operations, operation by operation.
pub open spec fn ops_view(s: Seq<Op>) -> Seq<SpecOp>
    decreases s,
{
    if s.len() == 0 {
        Seq::empty()
    } else {
        seq![s[0]@] + ops_view(s.skip(1))
    }
}

/// The view of a vector of operations has the same length and the
/// operations' views, index by index.
pub broadcast proof fn lemma_ops_view(s: Seq<Op>)
    ensures
        #![trigger ops_view(s)]
        ops_view(s).len() == s.len(),
        forall|i: int| 0 <= i < s.len() ==> ops_view(s)[i] == s[i]@,
    decreases s,
{
    if s.len() > 0 {
        lemma_ops_view(s.skip(1));
        assert(s.skip(1).len() == s.len() - 1);
        assert(ops_view(s) == seq![s[0]@] + ops_view(s.skip(1)));
        assert forall|i: int| 0 <= i < s.len() implies ops_view(s)[i] == s[i]@ by {
            if i > 0 {
                assert(ops_view(s)[i] == ops_view(s.skip(1))[i - 1]);
                assert(s.skip(1)[i - 1] == s[i]);
            }
        }
    }
}

/// The model of a concatenation is the concatenation of the models.
pub proof fn lemma_ops_view_concat(a: Seq<Op>, b: Seq<Op>)
    ensures
        ops_view(a + b) == ops_view(a) + ops_view(b),
{
    lemma_ops_view(a);
    lemma_ops_view(b);
    lemma_ops_view(a + b);
    assert(ops_view(a + b) =~= ops_view(a) + ops_view(b));
}

/// An ordered sequence of operations; order is significant, each operation
/// sees the result of all prior ones.
#[derive(Debug, PartialEq, Eq)]
pub struct Patch(pub Vec<Op>);

impl View for Patch {
    type V = Seq<SpecOp>;

    open spec fn view(&self) -> Seq<SpecOp> {
        ops_view(self.0@)
    }
}

} // verus!
