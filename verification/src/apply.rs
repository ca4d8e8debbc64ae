//! The patcher: sequential, all-or-nothing application of a patch to a
//! document, each operation resolved against the current state.

use crate::errors::PatchError;
use crate::op::Op;
use crate::op::Patch;
use crate::op::SpecOp;
use crate::op::lemma_ops_view;
use crate::path::IndexToken;
use crate::path::Path;
use crate::path::is_dash;
use crate::path::lemma_segs_view;
use crate::path::parse_index;
use crate::path::seg_index;
use crate::path::seg_is_dash;
use crate::value::SpecValue;
use crate::value::Value;
use crate::value::arr_view;
use crate::value::clone_arr_from;
use crate::value::deep_clone;
use crate::value::lemma_arr_view;
use crate::value::lemma_obj_view;
use crate::value::obj_del;
use crate::value::obj_del_from;
use crate::value::obj_find;
use crate::value::obj_get;
use crate::value::obj_set;
use crate::value::obj_set_from;
use crate::value::value_eq;
use vstd::prelude::*;

verus! {

broadcast use vstd::std_specs::vec::group_vec_axioms, vstd::seq::group_seq_axioms;

/// What reading the value at `p` in `v` yields.
pub open spec fn spec_get(v: SpecValue, p: Seq<Seq<char>>) -> Result<SpecValue, PatchError>
    decreases p.len(),
{
    if p.len() == 0 {
        Result::Ok(v)
    } else {
        match v {
            SpecValue::Obj(m) => match obj_get(m, p[0]) {
                Option::Some(c) => spec_get(c, p.skip(1)),
                Option::None => Result::Err(PatchError::PathNotFound),
            },
            SpecValue::Arr(a) => match seg_index(p[0]) {
                Option::Some(i) => if i < a.len() {
                    spec_get(a[i as int], p.skip(1))
                } else {
                    Result::Err(PatchError::IndexOutOfBounds)
                },
                Option::None => if is_dash(p[0]) {
                    Result::Err(PatchError::IndexOutOfBounds)
                } else {
                    Result::Err(PatchError::InvalidPathSyntax)
                },
            },
            _ => Result::Err(PatchError::TypeMismatch),
        }
    }
}

/// What inserting `new` at `p` in `v` yields: at the root the new document is
/// `new`; in an object the last segment is bound (a fresh key is allowed); in
/// an array later elements shift right, and the `-` segment appends.
pub open spec fn spec_add(v: SpecValue, p: Seq<Seq<char>>, new: SpecValue) -> Result<
    SpecValue,
    PatchError,
>
    decreases p.len(),
{
    if p.len() == 0 {
        Result::Ok(new)
    } else {
        match v {
            SpecValue::Obj(m) => if p.len() == 1 {
                Result::Ok(SpecValue::Obj(obj_set(m, p[0], new)))
            } else {
                match obj_get(m, p[0]) {
                    Option::Some(c) => match spec_add(c, p.skip(1), new) {
                        Result::Ok(nc) => Result::Ok(SpecValue::Obj(obj_set(m, p[0], nc))),
                        Result::Err(e) => Result::Err(e),
                    },
                    Option::None => Result::Err(PatchError::PathNotFound),
                }
            },
            SpecValue::Arr(a) => if p.len() == 1 {
                if is_dash(p[0]) {
                    Result::Ok(SpecValue::Arr(a.push(new)))
                } else {
                    match seg_index(p[0]) {
                        Option::Some(i) => if i <= a.len() {
                            Result::Ok(SpecValue::Arr(a.insert(i as int, new)))
                        } else {
                            Result::Err(PatchError::IndexOutOfBounds)
                        },
                        Option::None => Result::Err(PatchError::InvalidPathSyntax),
                    }
                }
            } else {
                match seg_index(p[0]) {
                    Option::Some(i) => if i < a.len() {
                        match spec_add(a[i as int], p.skip(1), new) {
                            Result::Ok(nc) => Result::Ok(SpecValue::Arr(a.update(i as int, nc))),
                            Result::Err(e) => Result::Err(e),
                        }
                    } else {
                        Result::Err(PatchError::IndexOutOfBounds)
                    },
                    Option::None => if is_dash(p[0]) {
                        Result::Err(PatchError::IndexOutOfBounds)
                    } else {
                        Result::Err(PatchError::InvalidPathSyntax)
                    },
                }
            },
            _ => Result::Err(PatchError::TypeMismatch),
        }
    }
}

/// What deleting the value at `p` in `v` yields: the new document and the
/// removed value. The root cannot be removed; in an array later elements
/// shift left.
pub open spec fn spec_remove(v: SpecValue, p: Seq<Seq<char>>) -> Result<
    (SpecValue, SpecValue),
    PatchError,
>
    decreases p.len(),
{
    if p.len() == 0 {
        Result::Err(PatchError::PathNotFound)
    } else {
        match v {
            SpecValue::Obj(m) => match obj_get(m, p[0]) {
                Option::Some(c) => if p.len() == 1 {
                    Result::Ok((SpecValue::Obj(obj_del(m, p[0])), c))
                } else {
                    match spec_remove(c, p.skip(1)) {
                        Result::Ok(r) => Result::Ok(
                            (SpecValue::Obj(obj_set(m, p[0], r.0)), r.1),
                        ),
                        Result::Err(e) => Result::Err(e),
                    }
                },
                Option::None => Result::Err(PatchError::PathNotFound),
            },
            SpecValue::Arr(a) => match seg_index(p[0]) {
                Option::Some(i) => if i < a.len() {
                    if p.len() == 1 {
                        Result::Ok((SpecValue::Arr(a.remove(i as int)), a[i as int]))
                    } else {
                        match spec_remove(a[i as int], p.skip(1)) {
                            Result::Ok(r) => Result::Ok(
                                (SpecValue::Arr(a.update(i as int, r.0)), r.1),
                            ),
                            Result::Err(e) => Result::Err(e),
                        }
                    }
                } else {
                    Result::Err(PatchError::IndexOutOfBounds)
                },
                Option::None => if is_dash(p[0]) {
                    Result::Err(PatchError::IndexOutOfBounds)
                } else {
                    Result::Err(PatchError::InvalidPathSyntax)
                },
            },
            _ => Result::Err(PatchError::TypeMismatch),
        }
    }
}

/// What overwriting the value at `p` in `v` with `new` yields: the addressed
/// value must exist.
pub open spec fn spec_replace(v: SpecValue, p: Seq<Seq<char>>, new: SpecValue) -> Result<
    SpecValue,
    PatchError,
>
    decreases p.len(),
{
    if p.len() == 0 {
        Result::Ok(new)
    } else {
        match v {
            SpecValue::Obj(m) => match obj_get(m, p[0]) {
                Option::Some(c) => if p.len() == 1 {
                    Result::Ok(SpecValue::Obj(obj_set(m, p[0], new)))
                } else {
                    match spec_replace(c, p.skip(1), new) {
                        Result::Ok(nc) => Result::Ok(SpecValue::Obj(obj_set(m, p[0], nc))),
                        Result::Err(e) => Result::Err(e),
                    }
                },
                Option::None => Result::Err(PatchError::PathNotFound),
            },
            SpecValue::Arr(a) => match seg_index(p[0]) {
                Option::Some(i) => if i < a.len() {
                    if p.len() == 1 {
                        Result::Ok(SpecValue::Arr(a.update(i as int, new)))
                    } else {
                        match spec_replace(a[i as int], p.skip(1), new) {
                            Result::Ok(nc) => Result::Ok(SpecValue::Arr(a.update(i as int, nc))),
                            Result::Err(e) => Result::Err(e),
                        }
                    }
                } else {
                    Result::Err(PatchError::IndexOutOfBounds)
                },
                Option::None => if is_dash(p[0]) {
                    Result::Err(PatchError::IndexOutOfBounds)
                } else {
                    Result::Err(PatchError::InvalidPathSyntax)
                },
            },
            _ => Result::Err(PatchError::TypeMismatch),
        }
    }
}

/// What one operation does to a document. A `move` removes at `from`, then
/// resolves `path` against the document after the removal; a `copy` reads at
/// `from` and inserts that value; a `test` leaves the document unchanged and
/// fails with `PatchTestFailed` when the value at `path` differs.
pub open spec fn spec_apply_op(doc: SpecValue, op: SpecOp) -> Result<SpecValue, PatchError> {
    match op {
        SpecOp::Add { path, value } => spec_add(doc, path, value),
        SpecOp::Remove { path } => match spec_remove(doc, path) {
            Result::Ok(r) => Result::Ok(r.0),
            Result::Err(e) => Result::Err(e),
        },
        SpecOp::Replace { path, value } => spec_replace(doc, path, value),
        SpecOp::Move { from, path } => match spec_remove(doc, from) {
            Result::Ok(r) => spec_add(r.0, path, r.1),
            Result::Err(e) => Result::Err(e),
        },
        SpecOp::Copy { from, path } => match spec_get(doc, from) {
            Result::Ok(x) => spec_add(doc, path, x),
            Result::Err(e) => Result::Err(e),
        },
        SpecOp::Test { path, value } => match spec_get(doc, path) {
            Result::Ok(x) => if x == value {
                Result::Ok(doc)
            } else {
                Result::Err(PatchError::PatchTestFailed)
            },
            Result::Err(e) => Result::Err(e),
        },
    }
}

/// What a whole patch does: operations apply strictly in order, each seeing
/// the result of all prior ones; the first failure aborts with its error.
pub open spec fn spec_apply(doc: SpecValue, ops: Seq<SpecOp>) -> Result<SpecValue, PatchError>
    decreases ops.len(),
{
    if ops.len() == 0 {
        Result::Ok(doc)
    } else {
        match spec_apply_op(doc, ops[0]) {
            Result::Ok(d) => spec_apply(d, ops.skip(1)),
            Result::Err(e) => Result::Err(e),
        }
    }
}

/// The model of a document result, error unchanged.
pub open spec fn res_view(r: Result<Value, PatchError>) -> Result<SpecValue, PatchError> {
    match r {
        Result::Ok(v) => Result::Ok(v@),
        Result::Err(e) => Result::Err(e),
    }
}

/// The model of a document-and-removed-value result, error unchanged.
pub open spec fn pair_view(r: Result<(Value, Value), PatchError>) -> Result<
    (SpecValue, SpecValue),
    PatchError,
> {
    match r {
        Result::Ok(p) => Result::Ok((p.0@, p.1@)),
        Result::Err(e) => Result::Err(e),
    }
}

/// Reads the value addressed by the segments of `p` from position `i` on.
pub fn get_at<'a>(v: &'a Value, p: &Path, i: usize) -> (r: Result<&'a Value, PatchError>)
    requires
        i <= p.segments@.len(),
    ensures
        match r {
            Result::Ok(found) => spec_get(v@, p@.skip(i as int)) == Result::Ok::<
                SpecValue,
                PatchError,
            >(found@),
            Result::Err(e) => spec_get(v@, p@.skip(i as int)) == Result::Err::<
                SpecValue,
                PatchError,
            >(e),
        },
    decreases p.segments@.len() - i,
{
    broadcast use lemma_segs_view, lemma_arr_view, lemma_obj_view;

    if i == p.segments.len() {
        proof {
            assert(p@.skip(i as int).len() == 0);
        }
        return Result::Ok(v);
    }
    let seg = &p.segments[i];
    proof {
        assert(p@.skip(i as int)[0] == p@[i as int]);
        assert(p@[i as int] == seg@);
        assert(p@.skip(i as int).skip(1) =~= p@.skip(i + 1));
    }
    match v {
        Value::Obj(m) => {
            proof {
                lemma_obj_view(m@);
                assert(m@.skip(0) =~= m@);
            }
            match obj_find(m, 0, seg) {
                Option::Some(child) => get_at(child, p, i + 1),
                Option::None => Result::Err(PatchError::PathNotFound),
            }
        },
        Value::Arr(a) => {
            let alen = a.len();
            proof {
                lemma_arr_view(a@);
            }
            match parse_index(seg) {
                IndexToken::Index(ix) => {
                    if ix < alen {
                        get_at(&a[ix], p, i + 1)
                    } else {
                        Result::Err(PatchError::IndexOutOfBounds)
                    }
                },
                IndexToken::TooLarge => {
                    proof {
                        assert(a@.len() <= usize::MAX as nat);
                    }
                    Result::Err(PatchError::IndexOutOfBounds)
                },
                IndexToken::NotNumeric => {
                    if seg_is_dash(seg) {
                        Result::Err(PatchError::IndexOutOfBounds)
                    } else {
                        Result::Err(PatchError::InvalidPathSyntax)
                    }
                },
            }
        },
        _ => Result::Err(PatchError::TypeMismatch),
    }
}

/// Builds the document with `new` inserted at the segments of `p` from
/// position `i` on; untouched parts are deep copies.
pub fn add_at(v: &Value, p: &Path, i: usize, new: Value) -> (r: Result<Value, PatchError>)
    requires
        i <= p.segments@.len(),
    ensures
        res_view(r) == spec_add(v@, p@.skip(i as int), new@),
    decreases p.segments@.len() - i,
{
    broadcast use lemma_segs_view, lemma_arr_view, lemma_obj_view;

    if i == p.segments.len() {
        proof {
            assert(p@.skip(i as int).len() == 0);
        }
        return Result::Ok(new);
    }
    let seg = &p.segments[i];
    let last = i + 1 == p.segments.len();
    proof {
        assert(p@.skip(i as int)[0] == p@[i as int]);
        assert(p@[i as int] == seg@);
        assert(p@.skip(i as int).skip(1) =~= p@.skip(i + 1));
        assert(last == (p@.skip(i as int).len() == 1));
    }
    match v {
        Value::Obj(m) => {
            proof {
                lemma_obj_view(m@);
                assert(m@.skip(0) =~= m@);
            }
            if last {
                Result::Ok(Value::Obj(obj_set_from(m, 0, seg, new)))
            } else {
                match obj_find(m, 0, seg) {
                    Option::Some(child) => match add_at(child, p, i + 1, new) {
                        Result::Ok(nc) => Result::Ok(Value::Obj(obj_set_from(m, 0, seg, nc))),
                        Result::Err(e) => Result::Err(e),
                    },
                    Option::None => Result::Err(PatchError::PathNotFound),
                }
            }
        },
        Value::Arr(a) => {
            let alen = a.len();
            proof {
                lemma_arr_view(a@);
                assert(a@.skip(0) =~= a@);
            }
            if last {
                if seg_is_dash(seg) {
                    let mut out = clone_arr_from(a, 0);
                    out.push(new);
                    proof {
                        assert(arr_view(out@) =~= arr_view(a@).push(new@));
                    }
                    Result::Ok(Value::Arr(out))
                } else {
                    match parse_index(seg) {
                        IndexToken::Index(ix) => {
                            if ix <= alen {
                                let mut out = clone_arr_from(a, 0);
                                out.insert(ix, new);
                                proof {
                                    assert(arr_view(out@) =~= arr_view(a@).insert(
                                        ix as int,
                                        new@,
                                    ));
                                }
                                Result::Ok(Value::Arr(out))
                            } else {
                                Result::Err(PatchError::IndexOutOfBounds)
                            }
                        },
                        IndexToken::TooLarge => {
                            proof {
                                assert(a@.len() <= usize::MAX as nat);
                            }
                            Result::Err(PatchError::IndexOutOfBounds)
                        },
                        IndexToken::NotNumeric => Result::Err(PatchError::InvalidPathSyntax),
                    }
                }
            } else {
                match parse_index(seg) {
                    IndexToken::Index(ix) => {
                        if ix < alen {
                            match add_at(&a[ix], p, i + 1, new) {
                                Result::Ok(nc) => {
                                    let mut out = clone_arr_from(a, 0);
                                    out[ix] = nc;
                                    proof {
                                        assert(arr_view(out@) =~= arr_view(a@).update(
                                            ix as int,
                                            out@[ix as int]@,
                                        ));
                                    }
                                    Result::Ok(Value::Arr(out))
                                },
                                Result::Err(e) => Result::Err(e),
                            }
                        } else {
                            Result::Err(PatchError::IndexOutOfBounds)
                        }
                    },
                    IndexToken::TooLarge => {
                        proof {
                            assert(a@.len() <= usize::MAX as nat);
                        }
                        Result::Err(PatchError::IndexOutOfBounds)
                    },
                    IndexToken::NotNumeric => {
                        if seg_is_dash(seg) {
                            Result::Err(PatchError::IndexOutOfBounds)
                        } else {
                            Result::Err(PatchError::InvalidPathSyntax)
                        }
                    },
                }
            }
        },
        _ => Result::Err(PatchError::TypeMismatch),
    }
}

/// Builds the document without the value at the segments of `p` from
/// position `i` on, together with that value; untouched parts are deep
/// copies.
pub fn remove_at(v: &Value, p: &Path, i: usize) -> (r: Result<(Value, Value), PatchError>)
    requires
        i <= p.segments@.len(),
    ensures
        pair_view(r) == spec_remove(v@, p@.skip(i as int)),
    decreases p.segments@.len() - i,
{
    broadcast use lemma_segs_view, lemma_arr_view, lemma_obj_view;

    if i == p.segments.len() {
        proof {
            assert(p@.skip(i as int).len() == 0);
        }
        return Result::Err(PatchError::PathNotFound);
    }
    let seg = &p.segments[i];
    let last = i + 1 == p.segments.len();
    proof {
        assert(p@.skip(i as int)[0] == p@[i as int]);
        assert(p@[i as int] == seg@);
        assert(p@.skip(i as int).skip(1) =~= p@.skip(i + 1));
        assert(last == (p@.skip(i as int).len() == 1));
    }
    match v {
        Value::Obj(m) => {
            proof {
                lemma_obj_view(m@);
                assert(m@.skip(0) =~= m@);
            }
            match obj_find(m, 0, seg) {
                Option::Some(child) => {
                    if last {
                        let removed = deep_clone(child);
                        Result::Ok((Value::Obj(obj_del_from(m, 0, seg)), removed))
                    } else {
                        match remove_at(child, p, i + 1) {
                            Result::Ok(pr) => Result::Ok(
                                (Value::Obj(obj_set_from(m, 0, seg, pr.0)), pr.1),
                            ),
                            Result::Err(e) => Result::Err(e),
                        }
                    }
                },
                Option::None => Result::Err(PatchError::PathNotFound),
            }
        },
        Value::Arr(a) => {
            let alen = a.len();
            proof {
                lemma_arr_view(a@);
                assert(a@.skip(0) =~= a@);
            }
            match parse_index(seg) {
                IndexToken::Index(ix) => {
                    if ix < alen {
                        if last {
                            let mut out = clone_arr_from(a, 0);
                            let removed = out.remove(ix);
                            proof {
                                assert(arr_view(out@) =~= arr_view(a@).remove(ix as int));
                            }
                            Result::Ok((Value::Arr(out), removed))
                        } else {
                            match remove_at(&a[ix], p, i + 1) {
                                Result::Ok(pr) => {
                                    let mut out = clone_arr_from(a, 0);
                                    out[ix] = pr.0;
                                    proof {
                                        assert(arr_view(out@) =~= arr_view(a@).update(
                                            ix as int,
                                            out@[ix as int]@,
                                        ));
                                    }
                                    Result::Ok((Value::Arr(out), pr.1))
                                },
                                Result::Err(e) => Result::Err(e),
                            }
                        }
                    } else {
                        Result::Err(PatchError::IndexOutOfBounds)
                    }
                },
                IndexToken::TooLarge => {
                    proof {
                        assert(a@.len() <= usize::MAX as nat);
                    }
                    Result::Err(PatchError::IndexOutOfBounds)
                },
                IndexToken::NotNumeric => {
                    if seg_is_dash(seg) {
                        Result::Err(PatchError::IndexOutOfBounds)
                    } else {
                        Result::Err(PatchError::InvalidPathSyntax)
                    }
                },
            }
        },
        _ => Result::Err(PatchError::TypeMismatch),
    }
}

/// Builds the document with the existing value at the segments of `p` from
/// position `i` on overwritten by `new`; untouched parts are deep copies.
pub fn replace_at(v: &Value, p: &Path, i: usize, new: Value) -> (r: Result<Value, PatchError>)
    requires
        i <= p.segments@.len(),
    ensures
        res_view(r) == spec_replace(v@, p@.skip(i as int), new@),
    decreases p.segments@.len() - i,
{
    broadcast use lemma_segs_view, lemma_arr_view, lemma_obj_view;

    if i == p.segments.len() {
        proof {
            assert(p@.skip(i as int).len() == 0);
        }
        return Result::Ok(new);
    }
    let seg = &p.segments[i];
    let last = i + 1 == p.segments.len();
    proof {
        assert(p@.skip(i as int)[0] == p@[i as int]);
        assert(p@[i as int] == seg@);
        assert(p@.skip(i as int).skip(1) =~= p@.skip(i + 1));
        assert(last == (p@.skip(i as int).len() == 1));
    }
    match v {
        Value::Obj(m) => {
            proof {
                lemma_obj_view(m@);
                assert(m@.skip(0) =~= m@);
            }
            match obj_find(m, 0, seg) {
                Option::Some(child) => {
                    if last {
                        Result::Ok(Value::Obj(obj_set_from(m, 0, seg, new)))
                    } else {
                        match replace_at(child, p, i + 1, new) {
                            Result::Ok(nc) => Result::Ok(Value::Obj(obj_set_from(m, 0, seg, nc))),
                            Result::Err(e) => Result::Err(e),
                        }
                    }
                },
                Option::None => Result::Err(PatchError::PathNotFound),
            }
        },
        Value::Arr(a) => {
            let alen = a.len();
            proof {
                lemma_arr_view(a@);
                assert(a@.skip(0) =~= a@);
            }
            match parse_index(seg) {
                IndexToken::Index(ix) => {
                    if ix < alen {
                        if last {
                            let mut out = clone_arr_from(a, 0);
                            out[ix] = new;
                            proof {
                                assert(arr_view(out@) =~= arr_view(a@).update(
                                    ix as int,
                                    out@[ix as int]@,
                                ));
                            }
                            Result::Ok(Value::Arr(out))
                        } else {
                            match replace_at(&a[ix], p, i + 1, new) {
                                Result::Ok(nc) => {
                                    let mut out = clone_arr_from(a, 0);
                                    out[ix] = nc;
                                    proof {
                                        assert(arr_view(out@) =~= arr_view(a@).update(
                                            ix as int,
                                            out@[ix as int]@,
                                        ));
                                    }
                                    Result::Ok(Value::Arr(out))
                                },
                                Result::Err(e) => Result::Err(e),
                            }
                        }
                    } else {
                        Result::Err(PatchError::IndexOutOfBounds)
                    }
                },
                IndexToken::TooLarge => {
                    proof {
                        assert(a@.len() <= usize::MAX as nat);
                    }
                    Result::Err(PatchError::IndexOutOfBounds)
                },
                IndexToken::NotNumeric => {
                    if seg_is_dash(seg) {
                        Result::Err(PatchError::IndexOutOfBounds)
                    } else {
                        Result::Err(PatchError::InvalidPathSyntax)
                    }
                },
            }
        },
        _ => Result::Err(PatchError::TypeMismatch),
    }
}

/// Applies one operation to `doc`, yielding the transformed document; `doc`
/// itself is never changed.
pub fn apply_op(doc: &Value, op: &Op) -> (r: Result<Value, PatchError>)
    ensures
        res_view(r) == spec_apply_op(doc@, op@),
{
    match op {
        Op::Add { path, value } => {
            proof {
                assert(path@.skip(0) =~= path@);
            }
            add_at(doc, path, 0, deep_clone(value))
        },
        Op::Remove { path } => {
            proof {
                assert(path@.skip(0) =~= path@);
            }
            match remove_at(doc, path, 0) {
                Result::Ok(pr) => Result::Ok(pr.0),
                Result::Err(e) => Result::Err(e),
            }
        },
        Op::Replace { path, value } => {
            proof {
                assert(path@.skip(0) =~= path@);
            }
            replace_at(doc, path, 0, deep_clone(value))
        },
        Op::Move { from, path } => {
            proof {
                assert(from@.skip(0) =~= from@);
                assert(path@.skip(0) =~= path@);
            }
            match remove_at(doc, from, 0) {
                Result::Ok(pr) => add_at(&pr.0, path, 0, pr.1),
                Result::Err(e) => Result::Err(e),
            }
        },
        Op::Copy { from, path } => {
            proof {
                assert(from@.skip(0) =~= from@);
                assert(path@.skip(0) =~= path@);
            }
            match get_at(doc, from, 0) {
                Result::Ok(x) => {
                    let copied = deep_clone(x);
                    add_at(doc, path, 0, copied)
                },
                Result::Err(e) => Result::Err(e),
            }
        },
        Op::Test { path, value } => {
            proof {
                assert(path@.skip(0) =~= path@);
            }
            match get_at(doc, path, 0) {
                Result::Ok(x) => {
                    if value_eq(x, value) {
                        Result::Ok(deep_clone(doc))
                    } else {
                        Result::Err(PatchError::PatchTestFailed)
                    }
                },
                Result::Err(e) => Result::Err(e),
            }
        },
    }
}

/// Applies a whole patch to `doc`: operations apply strictly in order
/// against a working copy, and the first failure aborts with its error,
/// leaving the caller's document untouched either way.
pub fn patch(doc: &Value, ops: &Patch) -> (r: Result<Value, PatchError>)
    ensures
        res_view(r) == spec_apply(doc@, ops@),
{
    broadcast use lemma_ops_view;

    let mut cur = deep_clone(doc);
    let n = ops.0.len();
    let mut i: usize = 0;
    proof {
        lemma_ops_view(ops.0@);
        assert(ops@.skip(0) =~= ops@);
    }
    while i < n
        invariant
            0 <= i <= n,
            n == ops.0@.len(),
            spec_apply(doc@, ops@) == spec_apply(cur@, ops@.skip(i as int)),
        decreases n - i,
    {
        proof {
            lemma_ops_view(ops.0@);
            assert(ops@.skip(i as int)[0] == ops@[i as int]);
            assert(ops@[i as int] == ops.0@[i as int]@);
            assert(ops@.skip(i as int).skip(1) =~= ops@.skip(i + 1));
        }
        match apply_op(&cur, &ops.0[i]) {
            Result::Ok(next) => {
                cur = next;
            },
            Result::Err(e) => {
                return Result::Err(e);
            },
        }
        i += 1;
    }
    proof {
        assert(ops@.skip(i as int).len() == 0);
        assert(ops@.skip(0) =~= ops@);
    }
    Result::Ok(cur)
}

} // verus!
