//! Laws of the differ and the patcher, proved against their models.

use crate::apply::spec_apply;
use crate::apply::spec_apply_op;
use crate::apply::spec_get;
use crate::diff::diff_arr_add;
use crate::diff::diff_arr_com;
use crate::diff::diff_obj_left;
use crate::diff::diff_obj_right;
use crate::diff::diff_ops;
use crate::errors::PatchError;
use crate::op::SpecOp;
use crate::value::SpecObj;
use crate::value::SpecValue;
use crate::value::lemma_lex_irrefl;
use crate::value::obj_get;
use crate::value::sorted_keys;
use vstd::prelude::*;

verus! {

broadcast use vstd::seq::group_seq_axioms;

/// Looking a key up finds the entry that holds it: in an object with
/// strictly sorted keys, the binding of the `j`th key is the `j`th value.
pub proof fn lemma_obj_get_at(m: SpecObj, j: int)
    requires
        sorted_keys(m),
        0 <= j < m.len(),
    ensures
        obj_get(m, m[j].0) == Option::Some(m[j].1),
    decreases j,
{
    if j > 0 {
        assert(crate::value::lex_lt(m[0].0, m[j].0));
        lemma_lex_irrefl(m[0].0);
        assert(m[0].0 != m[j].0);
        assert forall|a: int, b: int|
            0 <= a < b < m.skip(1).len() implies crate::value::lex_lt(
            #[trigger] m.skip(1)[a].0,
            #[trigger] m.skip(1)[b].0,
        ) by {
            assert(m.skip(1)[a] == m[a + 1]);
            assert(m.skip(1)[b] == m[b + 1]);
        }
        assert(m.skip(1)[j - 1] == m[j]);
        lemma_obj_get_at(m.skip(1), j - 1);
    }
}

/// An empty patch changes nothing: applying no operations returns the
/// document as it is.
pub proof fn lemma_empty_patch(doc: SpecValue)
    ensures
        spec_apply(doc, Seq::empty()) == Result::Ok::<SpecValue, PatchError>(doc),
{
}

/// A lone `test` operation never changes the document: it returns the
/// document exactly when the value at `path` equals `value`, and fails with
/// `PatchTestFailed` when the path resolves to a different value.
pub proof fn lemma_test_op(doc: SpecValue, path: Seq<Seq<char>>, value: SpecValue)
    ensures
        spec_apply(doc, seq![SpecOp::Test { path, value }]) == (match spec_get(doc, path) {
            Result::Ok(x) => if x == value {
                Result::Ok::<SpecValue, PatchError>(doc)
            } else {
                Result::Err::<SpecValue, PatchError>(PatchError::PatchTestFailed)
            },
            Result::Err(e) => Result::Err::<SpecValue, PatchError>(e),
        }),
{
    let ops = seq![SpecOp::Test { path, value }];
    assert(ops.skip(1) =~= Seq::<SpecOp>::empty());
    assert(ops[0] == SpecOp::Test { path, value });
    assert(spec_apply(doc, Seq::<SpecOp>::empty()) == Result::Ok::<SpecValue, PatchError>(doc));
    assert(spec_apply_op(doc, ops[0]) == (match spec_get(doc, path) {
        Result::Ok(x) => if x == value {
            Result::Ok::<SpecValue, PatchError>(doc)
        } else {
            Result::Err::<SpecValue, PatchError>(PatchError::PatchTestFailed)
        },
        Result::Err(e) => Result::Err::<SpecValue, PatchError>(e),
    }));
}

/// Operations apply strictly in sequence: a patch split anywhere applies as
/// its first part, then its second part on the result, and a failure in the
/// first part is the failure of the whole.
pub proof fn lemma_apply_concat(doc: SpecValue, ops1: Seq<SpecOp>, ops2: Seq<SpecOp>)
    ensures
        spec_apply(doc, ops1 + ops2) == (match spec_apply(doc, ops1) {
            Result::Ok(d) => spec_apply(d, ops2),
            Result::Err(e) => Result::Err::<SpecValue, PatchError>(e),
        }),
    decreases ops1.len(),
{
    if ops1.len() == 0 {
        assert(ops1 + ops2 =~= ops2);
    } else {
        assert((ops1 + ops2)[0] == ops1[0]);
        assert((ops1 + ops2).skip(1) =~= ops1.skip(1) + ops2);
        match spec_apply_op(doc, ops1[0]) {
            Result::Ok(d) => {
                lemma_apply_concat(d, ops1.skip(1), ops2);
            },
            Result::Err(_) => {
            },
        }
    }
}

/// The round trip for documents the differ compares whole: where `a` and
/// `b` are not both objects and not both arrays, the differ emits at most
/// one `replace` of the whole document, and applying its patch to `a` yields
/// exactly `b`.
pub proof fn lemma_round_trip_whole(a: SpecValue, b: SpecValue)
    requires
        !(a is Obj && b is Obj),
        !(a is Arr && b is Arr),
    ensures
        spec_apply(a, diff_ops(a, b, Seq::empty())) == Result::Ok::<SpecValue, PatchError>(b),
{
    let ops = diff_ops(a, b, Seq::empty());
    if a == b {
        assert(ops == Seq::<SpecOp>::empty());
    } else {
        assert(ops =~= seq![SpecOp::Replace { path: Seq::empty(), value: b }]);
        assert(ops[0] == SpecOp::Replace { path: Seq::empty(), value: b });
        assert(spec_apply_op(a, ops[0]) == Result::Ok::<SpecValue, PatchError>(b));
        assert(ops.skip(1) =~= Seq::<SpecOp>::empty());
        assert(spec_apply(b, Seq::<SpecOp>::empty()) == Result::Ok::<SpecValue, PatchError>(b));
    }
}

/// The differ and the resolver agree on array indices: a segment the differ
/// prints for index `n` reads back as exactly `n`, and is never the append
/// token.
pub proof fn lemma_dec_str_reads_back(n: nat)
    ensures
        crate::path::seg_index(crate::path::dec_str(n)) == Option::Some(n),
        !crate::path::is_dash(crate::path::dec_str(n)),
    decreases n,
{
    let s = crate::path::dec_str(n);
    if n < 10 {
        assert(s == seq![crate::path::digit_char(n)]);
        assert(crate::path::is_digit(s[0]));
        assert(seq![crate::path::digit_char(n)].drop_last() =~= Seq::<char>::empty());
        assert(crate::path::digits_val(Seq::<char>::empty()) == 0);
        assert(s.last() == s[0]);
        assert(crate::path::digits_val(s) == crate::path::digit_val(s[0]));
        assert(s[0] != '-');
    } else {
        lemma_dec_str_reads_back(n / 10);
        let t = crate::path::dec_str((n / 10) as nat);
        assert(s == t.push(crate::path::digit_char(n % 10)));
        assert(s.drop_last() =~= t);
        assert(s.last() == crate::path::digit_char(n % 10));
        assert(crate::path::is_digit(s.last()));
        assert(crate::path::digits_val(s) == crate::path::digits_val(t) * 10
            + crate::path::digit_val(s.last()));
        assert(crate::path::digit_val(crate::path::digit_char(n % 10)) == n % 10);
        assert(crate::path::digits_val(s) == (n / 10) * 10 + n % 10);
        assert((n / 10) * 10 + n % 10 == n);
        assert forall|i: int| 0 <= i < s.len() implies crate::path::is_digit(
            #[trigger] s[i],
        ) by {
            if i < s.len() - 1 {
                assert(s[i] == t[i]);
            }
        }
        assert(s.len() >= 2);
    }
}

/// Diffing a well-formed document against itself yields the empty patch.
pub proof fn lemma_diff_self(v: SpecValue, at: Seq<Seq<char>>)
    requires
        v.wf(),
    ensures
        diff_ops(v, v, at) == Seq::<SpecOp>::empty(),
    decreases v, 2int, 0int,
{
    match v {
        SpecValue::Obj(m) => {
            assert forall|i: int| 0 <= i < m.len() implies obj_get(m, m[i].0) == Option::Some(
                m[i].1,
            ) by {
                lemma_obj_get_at(m, i);
            }
            lemma_diff_obj_left_self(m, m, at);
            lemma_diff_obj_right_self(m, m, at);
            assert(diff_ops(v, v, at) =~= Seq::<SpecOp>::empty());
        },
        SpecValue::Arr(a) => {
            lemma_diff_arr_com_self(a, at, 0);
            assert(diff_arr_add(a, at, a.len() as int) == Seq::<SpecOp>::empty());
            assert(diff_ops(v, v, at) =~= Seq::<SpecOp>::empty());
        },
        _ => {
            assert(diff_ops(v, v, at) =~= Seq::<SpecOp>::empty());
        },
    }
}

proof fn lemma_diff_obj_left_self(m: SpecObj, full: SpecObj, at: Seq<Seq<char>>)
    requires
        forall|i: int|
            0 <= i < m.len() ==> obj_get(full, (#[trigger] m[i]).0) == Option::Some(m[i].1),
        forall|i: int| 0 <= i < m.len() ==> (#[trigger] m[i]).1.wf(),
    ensures
        diff_obj_left(m, full, at) == Seq::<SpecOp>::empty(),
    decreases m, 1int, 0int,
{
    if m.len() > 0 {
        lemma_diff_self(m[0].1, at.push(m[0].0));
        assert forall|i: int|
            0 <= i < m.skip(1).len() implies obj_get(full, (#[trigger] m.skip(1)[i]).0)
            == Option::Some(m.skip(1)[i].1) by {
            assert(m.skip(1)[i] == m[i + 1]);
        }
        assert forall|i: int| 0 <= i < m.skip(1).len() implies (#[trigger] m.skip(1)[i]).1.wf() by {
            assert(m.skip(1)[i] == m[i + 1]);
        }
        lemma_diff_obj_left_self(m.skip(1), full, at);
        assert(diff_obj_left(m, full, at) =~= Seq::<SpecOp>::empty());
    }
}

proof fn lemma_diff_obj_right_self(full: SpecObj, m: SpecObj, at: Seq<Seq<char>>)
    requires
        forall|i: int| 0 <= i < m.len() ==> obj_get(full, (#[trigger] m[i]).0) is Some,
    ensures
        diff_obj_right(full, m, at) == Seq::<SpecOp>::empty(),
    decreases m.len(),
{
    if m.len() > 0 {
        assert forall|i: int|
            0 <= i < m.skip(1).len() implies obj_get(
            full,
            (#[trigger] m.skip(1)[i]).0,
        ) is Some by {
            assert(m.skip(1)[i] == m[i + 1]);
        }
        lemma_diff_obj_right_self(full, m.skip(1), at);
        assert(diff_obj_right(full, m, at) =~= Seq::<SpecOp>::empty());
    }
}

proof fn lemma_diff_arr_com_self(a: Seq<SpecValue>, at: Seq<Seq<char>>, i: int)
    requires
        forall|j: int| 0 <= j < a.len() ==> (#[trigger] a[j]).wf(),
        0 <= i,
    ensures
        diff_arr_com(a, a, at, i) == Seq::<SpecOp>::empty(),
    decreases a, 1int, a.len() - i,
{
    if i < a.len() {
        lemma_diff_self(a[i], at.push(crate::path::dec_str(i as nat)));
        lemma_diff_arr_com_self(a, at, i + 1);
        assert(diff_arr_com(a, a, at, i) =~= Seq::<SpecOp>::empty());
    }
}

} // verus!
