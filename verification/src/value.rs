//! The canonical JSON value model: a recursive sum type over nulls, booleans,
//! integers, strings, arrays and objects, together with its mathematical view.

use vstd::prelude::*;

verus! {

broadcast use vstd::std_specs::vec::group_vec_axioms, vstd::seq::group_seq_axioms;

/// Mathematical model of a document: the view of [`Value`].
///
/// Objects are sequences of key/value pairs; a well-formed object keeps its
/// keys strictly sorted (see [`SpecValue::wf`]), so that two objects denote
/// the same mapping exactly when they are equal as sequences.
pub enum SpecValue {
    Null,
    Bool(bool),
    Int(int),
    Str(Seq<char>),
    Arr(Seq<SpecValue>),
    Obj(Seq<(Seq<char>, SpecValue)>),
}

/// The entries of a modelled object: key/value pairs in key order.
pub type SpecObj = Seq<(Seq<char>, SpecValue)>;

/// A JSON-like document: null, boolean, integer number, string, array, or
/// object. Object entries are kept sorted by key (strict lexicographic order
/// on the key's characters), which makes structural equality coincide with
/// equality of the mappings the objects denote.
#[derive(Debug, PartialEq, Eq)]
pub enum Value {
    Null,
    Bool(bool),
    Int(i64),
    Str(String),
    Arr(Vec<Value>),
    Obj(Vec<(String, Value)>),
}

/// Model of a vector of documents, element by element.
pub open spec fn arr_view(s: Seq<Value>) -> Seq<SpecValue>
    decreases s,
{
    if s.len() == 0 {
        Seq::empty()
    } else {
        seq![s[0]@] + arr_view(s.skip(1))
    }
}

/// Model of a vector of object entries, entry by entry.
pub open spec fn obj_view(s: Seq<(String, Value)>) -> SpecObj
    decreases s,
{
    if s.len() == 0 {
        Seq::empty()
    } else {
        seq![(s[0].0@, s[0].1@)] + obj_view(s.skip(1))
    }
}

impl View for Value {
    type V = SpecValue;

    open spec fn view(&self) -> SpecValue
        decreases self,
    {
        match self {
            Value::Null => SpecValue::Null,
            Value::Bool(b) => SpecValue::Bool(*b),
            Value::Int(i) => SpecValue::Int(*i as int),
            Value::Str(s) => SpecValue::Str(s@),
            Value::Arr(a) => SpecValue::Arr(arr_view(a@)),
            Value::Obj(m) => SpecValue::Obj(obj_view(m@)),
        }
    }
}

/// The view of a vector of documents has the same length and the elements'
/// views, index by index.
pub broadcast proof fn lemma_arr_view(s: Seq<Value>)
    ensures
        #![trigger arr_view(s)]
        arr_view(s).len() == s.len(),
        forall|i: int| 0 <= i < s.len() ==> arr_view(s)[i] == s[i]@,
    decreases s,
{
    if s.len() > 0 {
        lemma_arr_view(s.skip(1));
        assert(s.skip(1).len() == s.len() - 1);
        assert(arr_view(s) == seq![s[0]@] + arr_view(s.skip(1)));
        assert(arr_view(s).len() == 1 + arr_view(s.skip(1)).len());
        assert forall|i: int| 0 <= i < s.len() implies arr_view(s)[i] == s[i]@ by {
            if i > 0 {
                assert(arr_view(s)[i] == arr_view(s.skip(1))[i - 1]);
                assert(s.skip(1)[i - 1] == s[i]);
            }
        }
    }
}

/// The view of a vector of object entries has the same length and the
/// entries' views, index by index.
pub broadcast proof fn lemma_obj_view(s: Seq<(String, Value)>)
    ensures
        #![trigger obj_view(s)]
        obj_view(s).len() == s.len(),
        forall|i: int|
            0 <= i < s.len() ==> obj_view(s)[i] == (s[i].0@, s[i].1@),
    decreases s,
{
    if s.len() > 0 {
        lemma_obj_view(s.skip(1));
        assert(s.skip(1).len() == s.len() - 1);
        assert(obj_view(s) == seq![(s[0].0@, s[0].1@)] + obj_view(s.skip(1)));
        assert(obj_view(s).len() == 1 + obj_view(s.skip(1)).len());
        assert forall|i: int|
            0 <= i < s.len() implies obj_view(s)[i] == (s[i].0@, s[i].1@) by {
            if i > 0 {
                assert(obj_view(s)[i] == obj_view(s.skip(1))[i - 1]);
                assert(s.skip(1)[i - 1] == s[i]);
            }
        }
    }
}

/// Strict lexicographic order on character sequences: `a` comes before `b`
/// when at the first differing position `a`'s character is smaller, or `a` is
/// a proper prefix of `b`.
pub open spec fn lex_lt(a: Seq<char>, b: Seq<char>) -> bool
    decreases a.len(),
{
    if b.len() == 0 {
        false
    } else if a.len() == 0 {
        true
    } else if a[0] != b[0] {
        (a[0] as int) < (b[0] as int)
    } else {
        lex_lt(a.skip(1), b.skip(1))
    }
}

/// The key order is irreflexive.
pub proof fn lemma_lex_irrefl(a: Seq<char>)
    ensures
        !lex_lt(a, a),
    decreases a.len(),
{
    if a.len() > 0 {
        lemma_lex_irrefl(a.skip(1));
    }
}

/// Object keys are strictly sorted.
pub open spec fn sorted_keys(m: SpecObj) -> bool {
    forall|i: int, j: int| 0 <= i < j < m.len() ==> lex_lt(#[trigger] m[i].0, #[trigger] m[j].0)
}

impl SpecValue {
    /// Well-formedness: every object in the tree keeps its keys strictly
    /// sorted, hence free of duplicates.
    pub open spec fn wf(self) -> bool
        decreases self,
    {
        match self {
            SpecValue::Arr(a) => forall|i: int| 0 <= i < a.len() ==> (#[trigger] a[i]).wf(),
            SpecValue::Obj(m) => {
                &&& forall|i: int| 0 <= i < m.len() ==> (#[trigger] m[i]).1.wf()
                &&& sorted_keys(m)
            },
            _ => true,
        }
    }
}

/// The value stored under key `k`, if any.
pub open spec fn obj_get(m: SpecObj, k: Seq<char>) -> Option<SpecValue>
    decreases m.len(),
{
    if m.len() == 0 {
        Option::None
    } else if m[0].0 == k {
        Option::Some(m[0].1)
    } else {
        obj_get(m.skip(1), k)
    }
}

/// The entries with `k` bound to `v`: an existing binding of `k` is replaced,
/// otherwise the new entry enters at its place in key order.
pub open spec fn obj_set(m: SpecObj, k: Seq<char>, v: SpecValue) -> SpecObj
    decreases m.len(),
{
    if m.len() == 0 {
        seq![(k, v)]
    } else if m[0].0 == k {
        seq![(k, v)] + m.skip(1)
    } else if lex_lt(k, m[0].0) {
        seq![(k, v)] + m
    } else {
        seq![m[0]] + obj_set(m.skip(1), k, v)
    }
}

/// The entries without the binding of `k`.
pub open spec fn obj_del(m: SpecObj, k: Seq<char>) -> SpecObj
    decreases m.len(),
{
    if m.len() == 0 {
        m
    } else if m[0].0 == k {
        m.skip(1)
    } else {
        seq![m[0]] + obj_del(m.skip(1), k)
    }
}

/// Whether `a` comes strictly before `b` in key order.
pub fn str_lt(a: &str, b: &str) -> (r: bool)
    ensures
        r == lex_lt(a@, b@),
{
    let r = str_lt_from(a, b, 0);
    proof {
        assert(a@.skip(0) =~= a@);
        assert(b@.skip(0) =~= b@);
    }
    r
}

fn str_lt_from(a: &str, b: &str, i: usize) -> (r: bool)
    requires
        i <= a@.len(),
        i <= b@.len(),
    ensures
        r == lex_lt(a@.skip(i as int), b@.skip(i as int)),
    decreases a@.len() - i,
{
    let bl = b.unicode_len();
    if i == bl {
        return false;
    }
    let al = a.unicode_len();
    if i == al {
        return true;
    }
    let ca = a.get_char(i);
    let cb = b.get_char(i);
    proof {
        assert(a@.skip(i as int)[0] == a@[i as int]);
        assert(b@.skip(i as int)[0] == b@[i as int]);
    }
    if ca != cb {
        (ca as u32) < (cb as u32)
    } else {
        let r = str_lt_from(a, b, i + 1);
        proof {
            assert(a@.skip(i as int).skip(1) =~= a@.skip(i + 1));
            assert(b@.skip(i as int).skip(1) =~= b@.skip(i + 1));
        }
        r
    }
}

/// A deep copy: the result denotes the same document.
pub fn deep_clone(v: &Value) -> (r: Value)
    ensures
        r@ == v@,
    decreases v, 0int,
{
    match v {
        Value::Null => Value::Null,
        Value::Bool(b) => Value::Bool(*b),
        Value::Int(i) => Value::Int(*i),
        Value::Str(s) => Value::Str(s.clone()),
        Value::Arr(a) => {
            let r = Value::Arr(clone_arr_from(a, 0));
            proof {
                assert(a@.skip(0) =~= a@);
            }
            r
        },
        Value::Obj(m) => {
            let r = Value::Obj(clone_obj_from(m, 0));
            proof {
                assert(m@.skip(0) =~= m@);
            }
            r
        },
    }
}

/// Deep copies of the elements from position `i` on.
pub fn clone_arr_from(a: &Vec<Value>, i: usize) -> (r: Vec<Value>)
    requires
        i <= a@.len(),
    ensures
        arr_view(r@) == arr_view(a@.skip(i as int)),
    decreases a, a@.len() - i,
{
    broadcast use lemma_arr_view;

    if i == a.len() {
        let r: Vec<Value> = Vec::new();
        proof {
            assert(arr_view(r@) =~= arr_view(a@.skip(i as int)));
        }
        r
    } else {
        let mut rest = clone_arr_from(a, i + 1);
        let ghost old_rest = rest@;
        rest.insert(0, deep_clone(&a[i]));
        proof {
            assert(rest@ == old_rest.insert(0, rest@[0]));
            assert(a@.skip(i as int)[0] == a@[i as int]);
            assert(a@.skip(i as int).skip(1) =~= a@.skip(i + 1));
            assert(arr_view(rest@) =~= arr_view(a@.skip(i as int)));
        }
        rest
    }
}

/// Deep copies of the entries from position `i` on.
pub fn clone_obj_from(m: &Vec<(String, Value)>, i: usize) -> (r: Vec<(String, Value)>)
    requires
        i <= m@.len(),
    ensures
        obj_view(r@) == obj_view(m@.skip(i as int)),
    decreases m, m@.len() - i,
{
    broadcast use lemma_obj_view;

    if i == m.len() {
        let r: Vec<(String, Value)> = Vec::new();
        proof {
            assert(obj_view(r@) =~= obj_view(m@.skip(i as int)));
        }
        r
    } else {
        let mut rest = clone_obj_from(m, i + 1);
        rest.insert(0, (m[i].0.clone(), deep_clone(&m[i].1)));
        proof {
            assert(m@.skip(i as int)[0] == m@[i as int]);
            assert(m@.skip(i as int).skip(1) =~= m@.skip(i + 1));
            assert(obj_view(rest@) =~= obj_view(m@.skip(i as int)));
        }
        rest
    }
}

/// Structural equality of documents: `true` exactly when the two denote the
/// same model.
pub fn value_eq(a: &Value, b: &Value) -> (r: bool)
    ensures
        r == (a@ == b@),
    decreases a, 0int,
{
    broadcast use lemma_arr_view, lemma_obj_view;

    match (a, b) {
        (Value::Null, Value::Null) => true,
        (Value::Bool(x), Value::Bool(y)) => *x == *y,
        (Value::Int(x), Value::Int(y)) => *x == *y,
        (Value::Str(x), Value::Str(y)) => *x == *y,
        (Value::Arr(x), Value::Arr(y)) => {
            if x.len() != y.len() {
                proof {
                    lemma_arr_view(x@);
                    lemma_arr_view(y@);
                    assert(a@ != b@);
                }
                false
            } else {
                let r = arr_eq_from(x, y, 0);
                proof {
                    assert(x@.skip(0) =~= x@);
                    assert(y@.skip(0) =~= y@);
                }
                r
            }
        },
        (Value::Obj(x), Value::Obj(y)) => {
            if x.len() != y.len() {
                proof {
                    lemma_obj_view(x@);
                    lemma_obj_view(y@);
                    assert(a@ != b@);
                }
                false
            } else {
                let r = obj_eq_from(x, y, 0);
                proof {
                    assert(x@.skip(0) =~= x@);
                    assert(y@.skip(0) =~= y@);
                }
                r
            }
        },
        _ => false,
    }
}

fn arr_eq_from(x: &Vec<Value>, y: &Vec<Value>, i: usize) -> (r: bool)
    requires
        i <= x@.len(),
        x@.len() == y@.len(),
    ensures
        r == (arr_view(x@.skip(i as int)) == arr_view(y@.skip(i as int))),
    decreases x, x@.len() - i,
{
    broadcast use lemma_arr_view;

    if i == x.len() {
        proof {
            assert(arr_view(x@.skip(i as int)) =~= arr_view(y@.skip(i as int)));
        }
        true
    } else {
        proof {
            assert(x@.skip(i as int)[0] == x@[i as int]);
            assert(y@.skip(i as int)[0] == y@[i as int]);
            assert(x@.skip(i as int).skip(1) =~= x@.skip(i + 1));
            assert(y@.skip(i as int).skip(1) =~= y@.skip(i + 1));
        }
        let heads = value_eq(&x[i], &y[i]);
        if !heads {
            proof {
                assert(arr_view(x@.skip(i as int))[0] == x@[i as int]@);
                assert(arr_view(y@.skip(i as int))[0] == y@[i as int]@);
            }
            false
        } else {
            let tails = arr_eq_from(x, y, i + 1);
            proof {
                if tails {
                    assert(arr_view(x@.skip(i as int)) =~= arr_view(y@.skip(i as int)));
                } else {
                    assert(arr_view(x@.skip(i as int)).skip(1) =~= arr_view(x@.skip(i + 1)));
                    assert(arr_view(y@.skip(i as int)).skip(1) =~= arr_view(y@.skip(i + 1)));
                }
            }
            tails
        }
    }
}

fn obj_eq_from(x: &Vec<(String, Value)>, y: &Vec<(String, Value)>, i: usize) -> (r: bool)
    requires
        i <= x@.len(),
        x@.len() == y@.len(),
    ensures
        r == (obj_view(x@.skip(i as int)) == obj_view(y@.skip(i as int))),
    decreases x, x@.len() - i,
{
    broadcast use lemma_obj_view;

    if i == x.len() {
        proof {
            assert(obj_view(x@.skip(i as int)) =~= obj_view(y@.skip(i as int)));
        }
        true
    } else {
        proof {
            assert(x@.skip(i as int)[0] == x@[i as int]);
            assert(y@.skip(i as int)[0] == y@[i as int]);
            assert(x@.skip(i as int).skip(1) =~= x@.skip(i + 1));
            assert(y@.skip(i as int).skip(1) =~= y@.skip(i + 1));
        }
        let keys = x[i].0 == y[i].0;
        let vals = value_eq(&x[i].1, &y[i].1);
        proof {
            assert(obj_view(x@.skip(i as int))[0] == (x@[i as int].0@, x@[i as int].1@));
            assert(obj_view(y@.skip(i as int))[0] == (y@[i as int].0@, y@[i as int].1@));
        }
        if !keys || !vals {
            false
        } else {
            let tails = obj_eq_from(x, y, i + 1);
            proof {
                if tails {
                    assert(obj_view(x@.skip(i as int)) =~= obj_view(y@.skip(i as int)));
                } else {
                    assert(obj_view(x@.skip(i as int)).skip(1) =~= obj_view(x@.skip(i + 1)));
                    assert(obj_view(y@.skip(i as int)).skip(1) =~= obj_view(y@.skip(i + 1)));
                }
            }
            tails
        }
    }
}

/// The first binding of `k` among the entries from `j` on, if any.
pub fn obj_find<'a>(m: &'a Vec<(String, Value)>, j: usize, k: &String) -> (r: Option<
    &'a Value,
>)
    requires
        j <= m@.len(),
    ensures
        match r {
            Option::Some(v) => obj_get(obj_view(m@.skip(j as int)), k@) == Option::Some(v@),
            Option::None => obj_get(obj_view(m@.skip(j as int)), k@) is None,
        },
    decreases m@.len() - j,
{
    broadcast use lemma_obj_view;

    if j == m.len() {
        Option::None
    } else {
        proof {
            assert(m@.skip(j as int)[0] == m@[j as int]);
            assert(m@.skip(j as int).skip(1) =~= m@.skip(j + 1));
            assert(obj_view(m@.skip(j as int))[0] == (m@[j as int].0@, m@[j as int].1@));
            assert(obj_view(m@.skip(j as int)).skip(1) =~= obj_view(m@.skip(j + 1)));
        }
        if m[j].0 == *k {
            Option::Some(&m[j].1)
        } else {
            obj_find(m, j + 1, k)
        }
    }
}

/// The entries from `j` on, with `k` bound to `nv`, as [`obj_set`] describes;
/// untouched entries are deep copies.
pub fn obj_set_from(m: &Vec<(String, Value)>, j: usize, k: &String, nv: Value) -> (r: Vec<
    (String, Value),
>)
    requires
        j <= m@.len(),
    ensures
        obj_view(r@) == obj_set(obj_view(m@.skip(j as int)), k@, nv@),
    decreases m@.len() - j,
{
    broadcast use lemma_obj_view;

    if j == m.len() {
        let mut r: Vec<(String, Value)> = Vec::new();
        r.push((k.clone(), nv));
        proof {
            assert(obj_view(r@) =~= obj_set(obj_view(m@.skip(j as int)), k@, nv@));
        }
        r
    } else {
        proof {
            assert(m@.skip(j as int)[0] == m@[j as int]);
            assert(m@.skip(j as int).skip(1) =~= m@.skip(j + 1));
            assert(obj_view(m@.skip(j as int))[0] == (m@[j as int].0@, m@[j as int].1@));
            assert(obj_view(m@.skip(j as int)).skip(1) =~= obj_view(m@.skip(j + 1)));
        }
        if m[j].0 == *k {
            let mut r = clone_obj_from(m, j + 1);
            r.insert(0, (k.clone(), nv));
            proof {
                assert(obj_view(r@) =~= obj_set(obj_view(m@.skip(j as int)), k@, nv@));
            }
            r
        } else if str_lt(k.as_str(), m[j].0.as_str()) {
            let mut r = clone_obj_from(m, j);
            r.insert(0, (k.clone(), nv));
            proof {
                assert(obj_view(r@) =~= obj_set(obj_view(m@.skip(j as int)), k@, nv@));
            }
            r
        } else {
            let mut r = obj_set_from(m, j + 1, k, nv);
            r.insert(0, (m[j].0.clone(), deep_clone(&m[j].1)));
            proof {
                assert(obj_view(r@) =~= obj_set(obj_view(m@.skip(j as int)), k@, nv@));
            }
            r
        }
    }
}

/// The entries from `j` on without the binding of `k`, as [`obj_del`]
/// describes; kept entries are deep copies.
pub fn obj_del_from(m: &Vec<(String, Value)>, j: usize, k: &String) -> (r: Vec<(String, Value)>)
    requires
        j <= m@.len(),
    ensures
        obj_view(r@) == obj_del(obj_view(m@.skip(j as int)), k@),
    decreases m@.len() - j,
{
    broadcast use lemma_obj_view;

    if j == m.len() {
        let r: Vec<(String, Value)> = Vec::new();
        proof {
            assert(obj_view(r@) =~= obj_del(obj_view(m@.skip(j as int)), k@));
        }
        r
    } else {
        proof {
            assert(m@.skip(j as int)[0] == m@[j as int]);
            assert(m@.skip(j as int).skip(1) =~= m@.skip(j + 1));
            assert(obj_view(m@.skip(j as int))[0] == (m@[j as int].0@, m@[j as int].1@));
            assert(obj_view(m@.skip(j as int)).skip(1) =~= obj_view(m@.skip(j + 1)));
        }
        if m[j].0 == *k {
            let r = clone_obj_from(m, j + 1);
            proof {
                assert(obj_view(r@) =~= obj_del(obj_view(m@.skip(j as int)), k@));
            }
            r
        } else {
            let mut r = obj_del_from(m, j + 1, k);
            r.insert(0, (m[j].0.clone(), deep_clone(&m[j].1)));
            proof {
                assert(obj_view(r@) =~= obj_del(obj_view(m@.skip(j as int)), k@));
            }
            r
        }
    }
}

} // verus!
