//! The differ: a recursive structural comparison of two documents, emitting
//! the ordered operation sequence that transforms the first into the second.

use crate::op::Op;
use crate::op::Patch;
use crate::op::SpecOp;
use crate::op::lemma_ops_view;
use crate::op::lemma_ops_view_concat;
use crate::op::ops_view;
use crate::path::Path;
use crate::path::clone_path;
use crate::path::dec_str;
use crate::path::fmt_index;
use crate::path::path_child;
use crate::value::SpecObj;
use crate::value::SpecValue;
use crate::value::Value;
use crate::value::arr_view;
use crate::value::deep_clone;
use crate::value::lemma_arr_view;
use crate::value::lemma_obj_view;
use crate::value::obj_find;
use crate::value::obj_get;
use crate::value::obj_view;
use crate::value::value_eq;
use vstd::prelude::*;

verus! {

broadcast use vstd::std_specs::vec::group_vec_axioms, vstd::seq::group_seq_axioms;

/// The operations that turn `l` into `r`, all paths below the prefix `at`.
///
/// Scalars and nodes of differing kinds that are unequal give one `replace`
/// with `r`'s whole value. Two objects are compared key by key: `l`'s keys in
/// `l`'s order (a `remove` where the key is gone, recursion where both have
/// it), then `r`'s extra keys in `r`'s order as `add`s. Two arrays are
/// compared index by index over the common length; extra elements of `r`
/// become `add`s in increasing index order, extra elements of `l` become
/// `remove`s in decreasing index order.
pub open spec fn diff_ops(l: SpecValue, r: SpecValue, at: Seq<Seq<char>>) -> Seq<SpecOp>
    decreases l, r, 2int, 0int,
{
    match (l, r) {
        (SpecValue::Obj(lm), SpecValue::Obj(rm)) => diff_obj_left(lm, rm, at) + diff_obj_right(
            lm,
            rm,
            at,
        ),
        (SpecValue::Arr(la), SpecValue::Arr(ra)) => diff_arr_com(la, ra, at, 0) + (
        if la.len() <= ra.len() {
            diff_arr_add(ra, at, la.len() as int)
        } else {
            diff_arr_del(at, ra.len() as int, la.len() as int)
        }),
        _ => if l == r {
            Seq::empty()
        } else {
            seq![SpecOp::Replace { path: at, value: r }]
        },
    }
}

/// The walk over `l`'s entries: a recursion where `rm` still has the key, a
/// `remove` where it does not.
pub open spec fn diff_obj_left(lm: SpecObj, rm: SpecObj, at: Seq<Seq<char>>) -> Seq<SpecOp>
    decreases lm, rm, 1int, 0int,
{
    if lm.len() == 0 {
        Seq::empty()
    } else {
        (match obj_get(rm, lm[0].0) {
            Option::Some(rv) => diff_ops(lm[0].1, rv, at.push(lm[0].0)),
            Option::None => seq![SpecOp::Remove { path: at.push(lm[0].0) }],
        }) + diff_obj_left(lm.skip(1), rm, at)
    }
}

/// The walk over `r`'s entries: an `add` for every key `lm` does not have.
pub open spec fn diff_obj_right(lm: SpecObj, rm: SpecObj, at: Seq<Seq<char>>) -> Seq<SpecOp>
    decreases lm, rm, 1int, 0int,
{
    if rm.len() == 0 {
        Seq::empty()
    } else {
        (match obj_get(lm, rm[0].0) {
            Option::Some(lv) => Seq::<SpecOp>::empty(),
            Option::None => seq![
                SpecOp::Add { path: at.push(rm[0].0), value: rm[0].1 },
            ],
        }) + diff_obj_right(lm, rm.skip(1), at)
    }
}

/// The element-by-element comparison of two arrays over their common length,
/// from index `i` on.
pub open spec fn diff_arr_com(
    la: Seq<SpecValue>,
    ra: Seq<SpecValue>,
    at: Seq<Seq<char>>,
    i: int,
) -> Seq<SpecOp>
    decreases la, ra, 1int, ra.len() - i,
{
    if i < 0 || i >= la.len() || i >= ra.len() {
        Seq::empty()
    } else {
        diff_ops(la[i], ra[i], at.push(dec_str(i as nat))) + diff_arr_com(la, ra, at, i + 1)
    }
}

/// The `add`s for `r`'s extra trailing elements, in increasing index order.
pub open spec fn diff_arr_add(ra: Seq<SpecValue>, at: Seq<Seq<char>>, i: int) -> Seq<SpecOp>
    decreases ra.len() - i,
{
    if i < 0 || i >= ra.len() {
        Seq::empty()
    } else {
        seq![SpecOp::Add { path: at.push(dec_str(i as nat)), value: ra[i] }] + diff_arr_add(
            ra,
            at,
            i + 1,
        )
    }
}

/// The `remove`s for `l`'s extra trailing elements, indices `hi - 1` down to
/// `lo`, in decreasing order so earlier removals do not shift later ones.
pub open spec fn diff_arr_del(at: Seq<Seq<char>>, lo: int, hi: int) -> Seq<SpecOp>
    decreases hi - lo,
{
    if hi <= lo {
        Seq::empty()
    } else {
        seq![SpecOp::Remove { path: at.push(dec_str((hi - 1) as nat)) }] + diff_arr_del(
            at,
            lo,
            hi - 1,
        )
    }
}

/// The patch that transforms `left` into `right`: deterministic, and never
/// failing. Only `add`, `remove` and `replace` operations are emitted, in
/// the depth-first, left-to-right order [`diff_ops`] describes.
pub fn diff(left: &Value, right: &Value) -> (r: Patch)
    ensures
        r@ == diff_ops(left@, right@, Seq::empty()),
{
    let root = Path { segments: Vec::new() };
    proof {
        assert(root@ =~= Seq::<Seq<char>>::empty());
    }
    let ops = diff_rec(left, right, &root);
    Patch(ops)
}

fn diff_rec(l: &Value, r: &Value, at: &Path) -> (out: Vec<Op>)
    ensures
        ops_view(out@) == diff_ops(l@, r@, at@),
    decreases l, r, 2int, 0int,
{
    broadcast use lemma_ops_view, lemma_arr_view, lemma_obj_view;

    match (l, r) {
        (Value::Obj(lm), Value::Obj(rm)) => {
            proof {
                lemma_obj_view(lm@);
                lemma_obj_view(rm@);
                assert(lm@.skip(0) =~= lm@);
                assert(rm@.skip(0) =~= rm@);
            }
            let mut out = diff_obj_left_rec(lm, 0, rm, at);
            let mut right_part = diff_obj_right_rec(lm, rm, 0, at);
            proof {
                lemma_ops_view(out@);
                lemma_ops_view(right_part@);
            }
            out.append(&mut right_part);
            proof {
                assert(ops_view(out@) =~= diff_obj_left(obj_view(lm@), obj_view(rm@), at@)
                    + diff_obj_right(obj_view(lm@), obj_view(rm@), at@));
            }
            out
        },
        (Value::Arr(la), Value::Arr(ra)) => {
            proof {
                lemma_arr_view(la@);
                lemma_arr_view(ra@);
            }
            let mut out = diff_arr_com_rec(la, ra, 0, at);
            let mut tail = if la.len() <= ra.len() {
                diff_arr_add_rec(ra, la.len(), at)
            } else {
                diff_arr_del_rec(ra.len(), la.len(), at)
            };
            proof {
                lemma_ops_view(out@);
                lemma_ops_view(tail@);
            }
            out.append(&mut tail);
            proof {
                assert(ops_view(out@) =~= diff_arr_com(arr_view(la@), arr_view(ra@), at@, 0) + (
                if arr_view(la@).len() <= arr_view(ra@).len() {
                    diff_arr_add(arr_view(ra@), at@, arr_view(la@).len() as int)
                } else {
                    diff_arr_del(at@, arr_view(ra@).len() as int, arr_view(la@).len() as int)
                }));
            }
            out
        },
        _ => {
            if value_eq(l, r) {
                let out: Vec<Op> = Vec::new();
                proof {
                    assert(ops_view(out@) =~= diff_ops(l@, r@, at@));
                }
                out
            } else {
                let mut out: Vec<Op> = Vec::new();
                out.push(Op::Replace { path: clone_path(at), value: deep_clone(r) });
                proof {
                    assert(ops_view(out@) =~= diff_ops(l@, r@, at@));
                }
                out
            }
        },
    }
}

fn diff_obj_left_rec(
    lm: &Vec<(String, Value)>,
    j: usize,
    rm: &Vec<(String, Value)>,
    at: &Path,
) -> (out: Vec<Op>)
    requires
        j <= lm@.len(),
    ensures
        ops_view(out@) == diff_obj_left(obj_view(lm@.skip(j as int)), obj_view(rm@), at@),
    decreases lm, rm, 1int, lm@.len() - j,
{
    broadcast use lemma_ops_view, lemma_obj_view;

    if j == lm.len() {
        let out: Vec<Op> = Vec::new();
        proof {
            assert(ops_view(out@) =~= diff_obj_left(
                obj_view(lm@.skip(j as int)),
                obj_view(rm@),
                at@,
            ));
        }
        return out;
    }
    proof {
        lemma_obj_view(lm@.skip(j as int));
        lemma_obj_view(lm@.skip(j + 1));
        assert(lm@.skip(j as int)[0] == lm@[j as int]);
        assert(lm@.skip(j as int).skip(1) =~= lm@.skip(j + 1));
        assert(obj_view(lm@.skip(j as int)).skip(1) =~= obj_view(lm@.skip(j + 1)));
        assert(rm@.skip(0) =~= rm@);
    }
    let child_at = path_child(at, lm[j].0.clone());
    let mut head: Vec<Op> = match obj_find(rm, 0, &lm[j].0) {
        Option::Some(rv) => diff_rec(&lm[j].1, rv, &child_at),
        Option::None => {
            let mut h: Vec<Op> = Vec::new();
            h.push(Op::Remove { path: child_at });
            h
        },
    };
    let mut rest = diff_obj_left_rec(lm, j + 1, rm, at);
    let ghost h0 = head@;
    let ghost r0 = rest@;
    head.append(&mut rest);
    proof {
        assert(head@ == h0 + r0);
        lemma_ops_view_concat(h0, r0);
        assert(ops_view(head@) =~= diff_obj_left(obj_view(lm@.skip(j as int)), obj_view(rm@), at@));
    }
    head
}

fn diff_obj_right_rec(
    lm: &Vec<(String, Value)>,
    rm: &Vec<(String, Value)>,
    j: usize,
    at: &Path,
) -> (out: Vec<Op>)
    requires
        j <= rm@.len(),
    ensures
        ops_view(out@) == diff_obj_right(obj_view(lm@), obj_view(rm@.skip(j as int)), at@),
    decreases lm, rm, 1int, rm@.len() - j,
{
    broadcast use lemma_ops_view, lemma_obj_view;

    if j == rm.len() {
        let out: Vec<Op> = Vec::new();
        proof {
            assert(ops_view(out@) =~= diff_obj_right(
                obj_view(lm@),
                obj_view(rm@.skip(j as int)),
                at@,
            ));
        }
        return out;
    }
    proof {
        lemma_obj_view(rm@.skip(j as int));
        lemma_obj_view(rm@.skip(j + 1));
        assert(rm@.skip(j as int)[0] == rm@[j as int]);
        assert(rm@.skip(j as int).skip(1) =~= rm@.skip(j + 1));
        assert(obj_view(rm@.skip(j as int)).skip(1) =~= obj_view(rm@.skip(j + 1)));
        assert(lm@.skip(0) =~= lm@);
    }
    let mut out: Vec<Op> = diff_obj_right_rec(lm, rm, j + 1, at);
    match obj_find(lm, 0, &rm[j].0) {
        Option::Some(_) => {
            proof {
                lemma_ops_view(out@);
                assert(ops_view(out@) =~= diff_obj_right(
                    obj_view(lm@),
                    obj_view(rm@.skip(j as int)),
                    at@,
                ));
            }
            out
        },
        Option::None => {
            let child_at = path_child(at, rm[j].0.clone());
            out.insert(0, Op::Add { path: child_at, value: deep_clone(&rm[j].1) });
            proof {
                lemma_ops_view(out@);
                assert(ops_view(out@) =~= diff_obj_right(
                    obj_view(lm@),
                    obj_view(rm@.skip(j as int)),
                    at@,
                ));
            }
            out
        },
    }
}

fn diff_arr_com_rec(la: &Vec<Value>, ra: &Vec<Value>, i: usize, at: &Path) -> (out: Vec<Op>)
    ensures
        ops_view(out@) == diff_arr_com(arr_view(la@), arr_view(ra@), at@, i as int),
    decreases la, ra, 1int, ra@.len() - i,
{
    broadcast use lemma_ops_view, lemma_arr_view;

    if i >= la.len() || i >= ra.len() {
        let out: Vec<Op> = Vec::new();
        proof {
            assert(ops_view(out@) =~= diff_arr_com(arr_view(la@), arr_view(ra@), at@, i as int));
        }
        return out;
    }
    let child_at = path_child(at, fmt_index(i));
    let mut head = diff_rec(&la[i], &ra[i], &child_at);
    let mut rest = diff_arr_com_rec(la, ra, i + 1, at);
    proof {
        lemma_ops_view(head@);
        lemma_ops_view(rest@);
    }
    head.append(&mut rest);
    proof {
        assert(ops_view(head@) =~= diff_arr_com(arr_view(la@), arr_view(ra@), at@, i as int));
    }
    head
}

fn diff_arr_add_rec(ra: &Vec<Value>, i: usize, at: &Path) -> (out: Vec<Op>)
    ensures
        ops_view(out@) == diff_arr_add(arr_view(ra@), at@, i as int),
    decreases ra@.len() - i,
{
    broadcast use lemma_ops_view, lemma_arr_view;

    if i >= ra.len() {
        let out: Vec<Op> = Vec::new();
        proof {
            assert(ops_view(out@) =~= diff_arr_add(arr_view(ra@), at@, i as int));
        }
        return out;
    }
    let child_at = path_child(at, fmt_index(i));
    let mut out: Vec<Op> = diff_arr_add_rec(ra, i + 1, at);
    out.insert(0, Op::Add { path: child_at, value: deep_clone(&ra[i]) });
    proof {
        lemma_ops_view(out@);
        assert(ops_view(out@) =~= diff_arr_add(arr_view(ra@), at@, i as int));
    }
    out
}

fn diff_arr_del_rec(lo: usize, hi: usize, at: &Path) -> (out: Vec<Op>)
    ensures
        ops_view(out@) == diff_arr_del(at@, lo as int, hi as int),
    decreases hi,
{
    broadcast use lemma_ops_view;

    if hi <= lo {
        let out: Vec<Op> = Vec::new();
        proof {
            assert(ops_view(out@) =~= diff_arr_del(at@, lo as int, hi as int));
        }
        return out;
    }
    let child_at = path_child(at, fmt_index(hi - 1));
    let mut out: Vec<Op> = Vec::new();
    out.push(Op::Remove { path: child_at });
    let mut rest = diff_arr_del_rec(lo, hi - 1, at);
    proof {
        lemma_ops_view(out@);
        lemma_ops_view(rest@);
    }
    out.append(&mut rest);
    proof {
        assert(ops_view(out@) =~= diff_arr_del(at@, lo as int, hi as int));
    }
    out
}

} // verus!
