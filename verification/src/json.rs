//! The JSON-like document model.
//!
//! A `Json` value holds strings as UTF-8 bytes and keeps object entries in
//! insertion order. Its mathematical model `JVal` forgets that order: an
//! object is a finite map from key bytes to values, which is what makes
//! canonicalization order-independence a statement about equal models.

use vstd::prelude::*;

verus! {

/// A JSON-like value. Strings are byte strings (UTF-8); numbers are signed
/// 64-bit integers.
pub enum Json {
    Null,
    Bool(bool),
    Int(i64),
    Str(Vec<u8>),
    Arr(Vec<Json>),
    Obj(Vec<(Vec<u8>, Json)>),
}

/// The model of a JSON value: object insertion order is forgotten, an object
/// is a finite map from key bytes to value models.
#[verifier::ext_equal]
pub enum JVal {
    Null,
    Bool(bool),
    Int(int),
    Str(Seq<u8>),
    Arr(Seq<JVal>),
    Obj(Map<Seq<u8>, JVal>),
}

/// The model of an element sequence.
pub open spec fn arr_view(items: Seq<Json>) -> Seq<JVal>
    decreases items,
{
    if items.len() == 0 {
        Seq::empty()
    } else {
        arr_view(items.drop_last()).push(items.last()@)
    }
}

/// The model of an entry sequence: a later entry with the same key wins.
pub open spec fn obj_view(es: Seq<(Vec<u8>, Json)>) -> Map<Seq<u8>, JVal>
    decreases es,
{
    if es.len() == 0 {
        Map::empty()
    } else {
        obj_view(es.drop_last()).insert(es.last().0@, es.last().1@)
    }
}

impl View for Json {
    type V = JVal;

    open spec fn view(&self) -> JVal
        decreases self,
    {
        match *self {
            Json::Null => JVal::Null,
            Json::Bool(b) => JVal::Bool(b),
            Json::Int(i) => JVal::Int(i as int),
            Json::Str(ref s) => JVal::Str(s@),
            Json::Arr(ref items) => JVal::Arr(arr_view(items@)),
            Json::Obj(ref es) => JVal::Obj(obj_view(es@)),
        }
    }
}

/// No two entries share a key.
pub open spec fn keys_distinct(es: Seq<(Vec<u8>, Json)>) -> bool {
    forall|i: int, j: int| 0 <= i < j < es.len() ==> (#[trigger] es[i]).0@ != (#[trigger] es[j]).0@
}

impl Json {
    /// Well-formed: every object has pairwise distinct keys. Key uniqueness is
    /// the one structural invariant of the document model.
    pub open spec fn wf(self) -> bool
        decreases self,
    {
        match self {
            Json::Null => true,
            Json::Bool(_) => true,
            Json::Int(_) => true,
            Json::Str(_) => true,
            Json::Arr(items) => forall|i: int|
                0 <= i < items@.len() ==> (#[trigger] items@[i]).wf(),
            Json::Obj(es) => keys_distinct(es@) && forall|i: int|
                0 <= i < es@.len() ==> (#[trigger] es@[i]).1.wf(),
        }
    }
}

/// The model of an entry sequence maps each key to the value stored beside it.
pub proof fn lemma_obj_view_get(es: Seq<(Vec<u8>, Json)>, i: int)
    requires
        keys_distinct(es),
        0 <= i < es.len(),
    ensures
        obj_view(es).contains_key(es[i].0@),
        obj_view(es)[es[i].0@] == es[i].1@,
    decreases es.len(),
{
    if i == es.len() - 1 {
        assert(es.last() == es[i]);
        assert(obj_view(es) == obj_view(es.drop_last()).insert(es.last().0@, es.last().1@));
        assert(obj_view(es).contains_key(es[i].0@));
        assert(obj_view(es)[es[i].0@] == es[i].1@);
    } else {
        assert(keys_distinct(es.drop_last())) by {
            assert forall|a: int, b: int| 0 <= a < b < es.drop_last().len() implies (
            #[trigger] es.drop_last()[a]).0@ != (#[trigger] es.drop_last()[b]).0@ by {
                assert(es.drop_last()[a] == es[a]);
                assert(es.drop_last()[b] == es[b]);
            }
        }
        assert(es.drop_last()[i] == es[i]);
        lemma_obj_view_get(es.drop_last(), i);
        assert(es.last().0@ != es[i].0@);
        assert(obj_view(es) == obj_view(es.drop_last()).insert(es.last().0@, es.last().1@));
        assert(obj_view(es).contains_key(es[i].0@));
        assert(obj_view(es)[es[i].0@] == es[i].1@);
    }
}

/// The model's domain is exactly the set of keys in the entries.
pub proof fn lemma_obj_view_dom(es: Seq<(Vec<u8>, Json)>)
    ensures
        forall|k: Seq<u8>|
            obj_view(es).contains_key(k) <==> exists|i: int|
                0 <= i < es.len() && (#[trigger] es[i]).0@ == k,
    decreases es.len(),
{
    if es.len() > 0 {
        lemma_obj_view_dom(es.drop_last());
        assert(obj_view(es) == obj_view(es.drop_last()).insert(es.last().0@, es.last().1@));
        assert forall|k: Seq<u8>| obj_view(es).contains_key(k) implies exists|i: int|
            0 <= i < es.len() && (#[trigger] es[i]).0@ == k by {
            if k == es.last().0@ {
                assert((es[es.len() - 1]).0@ == k);
            } else {
                assert(obj_view(es.drop_last()).contains_key(k));
                let i = choose|i: int| 0 <= i < es.drop_last().len() && (#[trigger] es.drop_last()[i]).0@
                    == k;
                assert(es.drop_last()[i] == es[i]);
                assert((es[i]).0@ == k);
            }
        }
        assert forall|k: Seq<u8>|
            (exists|i: int| 0 <= i < es.len() && (#[trigger] es[i]).0@ == k) implies obj_view(
            es,
        ).contains_key(k) by {
            let i = choose|i: int| 0 <= i < es.len() && (#[trigger] es[i]).0@ == k;
            if i < es.len() - 1 {
                assert(es.drop_last()[i] == es[i]);
                assert((es.drop_last()[i]).0@ == k);
                assert(obj_view(es.drop_last()).contains_key(k));
            } else {
                assert(k == es.last().0@);
            }
            assert(obj_view(es).contains_key(k));
        }
    }
}

/// Replacing the entry that holds a key updates the model at that key.
pub proof fn lemma_obj_view_update(es: Seq<(Vec<u8>, Json)>, i: int, p: (Vec<u8>, Json))
    requires
        keys_distinct(es),
        0 <= i < es.len(),
        p.0@ == es[i].0@,
    ensures
        obj_view(es.update(i, p)) =~= obj_view(es).insert(p.0@, p.1@),
    decreases es.len(),
{
    let es1 = es.update(i, p);
    assert(obj_view(es) == obj_view(es.drop_last()).insert(es.last().0@, es.last().1@));
    assert(obj_view(es1) == obj_view(es1.drop_last()).insert(es1.last().0@, es1.last().1@));
    if i == es.len() - 1 {
        assert(es1.drop_last() =~= es.drop_last());
        assert(es1.last() == p);
    } else {
        assert(keys_distinct(es.drop_last())) by {
            assert forall|a: int, b: int| 0 <= a < b < es.drop_last().len() implies (
            #[trigger] es.drop_last()[a]).0@ != (#[trigger] es.drop_last()[b]).0@ by {
                assert(es.drop_last()[a] == es[a]);
                assert(es.drop_last()[b] == es[b]);
            }
        }
        assert(es.drop_last()[i] == es[i]);
        lemma_obj_view_update(es.drop_last(), i, p);
        assert(es1.drop_last() =~= es.drop_last().update(i, p));
        assert(es1.last() == es.last());
        assert(es.last().0@ != p.0@);
        assert(obj_view(es1) =~= obj_view(es).insert(p.0@, p.1@));
    }
}

/// Removing the entry that holds a key removes the key from the model.
pub proof fn lemma_obj_view_remove(es: Seq<(Vec<u8>, Json)>, i: int)
    requires
        keys_distinct(es),
        0 <= i < es.len(),
    ensures
        obj_view(es.remove(i)) =~= obj_view(es).remove(es[i].0@),
        keys_distinct(es.remove(i)),
    decreases es.len(),
{
    let er = es.remove(i);
    assert(keys_distinct(er)) by {
        assert forall|a: int, b: int| 0 <= a < b < er.len() implies (#[trigger] er[a]).0@ != (
        #[trigger] er[b]).0@ by {
            assert(er[a] == (if a < i { es[a] } else { es[a + 1] }));
            assert(er[b] == (if b < i { es[b] } else { es[b + 1] }));
        }
    }
    assert(obj_view(es) == obj_view(es.drop_last()).insert(es.last().0@, es.last().1@));
    if i == es.len() - 1 {
        assert(er =~= es.drop_last());
        lemma_obj_view_dom(es.drop_last());
        assert(!obj_view(es.drop_last()).contains_key(es[i].0@)) by {
            if exists|a: int| 0 <= a < es.drop_last().len() && (#[trigger] es.drop_last()[a]).0@
                == es[i].0@ {
                let a = choose|a: int| 0 <= a < es.drop_last().len() && (#[trigger] es.drop_last()[a]).0@
                    == es[i].0@;
                assert(es[a].0@ == es[i].0@);
            }
        }
    } else {
        assert(keys_distinct(es.drop_last())) by {
            assert forall|a: int, b: int| 0 <= a < b < es.drop_last().len() implies (
            #[trigger] es.drop_last()[a]).0@ != (#[trigger] es.drop_last()[b]).0@ by {
                assert(es.drop_last()[a] == es[a]);
                assert(es.drop_last()[b] == es[b]);
            }
        }
        assert(es.drop_last()[i] == es[i]);
        lemma_obj_view_remove(es.drop_last(), i);
        assert(er.drop_last() =~= es.drop_last().remove(i));
        assert(obj_view(er) == obj_view(er.drop_last()).insert(er.last().0@, er.last().1@));
        assert(er.last() == es.last());
        assert(es.last().0@ != es[i].0@);
        assert(obj_view(er) =~= obj_view(es).remove(es[i].0@));
    }
}

/// Entry sequences with pointwise equal key and value models have the same
/// object model.
pub proof fn lemma_obj_view_pointwise(es1: Seq<(Vec<u8>, Json)>, es2: Seq<(Vec<u8>, Json)>)
    requires
        es1.len() == es2.len(),
        forall|j: int|
            0 <= j < es1.len() ==> (#[trigger] es1[j]).0@ == (#[trigger] es2[j]).0@ && es1[j].1@
                == es2[j].1@,
    ensures
        obj_view(es1) =~= obj_view(es2),
    decreases es1.len(),
{
    if es1.len() > 0 {
        assert forall|j: int| 0 <= j < es1.drop_last().len() implies (
        #[trigger] es1.drop_last()[j]).0@ == (#[trigger] es2.drop_last()[j]).0@
            && es1.drop_last()[j].1@ == es2.drop_last()[j].1@ by {
            assert(es1.drop_last()[j] == es1[j]);
            assert(es2.drop_last()[j] == es2[j]);
        }
        lemma_obj_view_pointwise(es1.drop_last(), es2.drop_last());
        assert(obj_view(es1) == obj_view(es1.drop_last()).insert(es1.last().0@, es1.last().1@));
        assert(obj_view(es2) == obj_view(es2.drop_last()).insert(es2.last().0@, es2.last().1@));
        assert(es1.last() == es1[es1.len() - 1]);
        assert(es2.last() == es2[es1.len() - 1]);
    }
}

/// Element sequences with pointwise equal models have the same array model.
pub proof fn lemma_arr_view_pointwise(a1: Seq<Json>, a2: Seq<Json>)
    requires
        a1.len() == a2.len(),
        forall|j: int| 0 <= j < a1.len() ==> (#[trigger] a1[j])@ == (#[trigger] a2[j])@,
    ensures
        arr_view(a1) =~= arr_view(a2),
    decreases a1.len(),
{
    if a1.len() > 0 {
        assert forall|j: int| 0 <= j < a1.drop_last().len() implies (#[trigger] a1.drop_last()[j])@
            == (#[trigger] a2.drop_last()[j])@ by {
            assert(a1.drop_last()[j] == a1[j]);
            assert(a2.drop_last()[j] == a2[j]);
        }
        lemma_arr_view_pointwise(a1.drop_last(), a2.drop_last());
        assert(arr_view(a1) == arr_view(a1.drop_last()).push(a1.last()@));
        assert(arr_view(a2) == arr_view(a2.drop_last()).push(a2.last()@));
        assert(a1.last() == a1[a1.len() - 1]);
        assert(a2.last() == a2[a1.len() - 1]);
    }
}

/// The element model at an index is the model of the element there.
pub proof fn lemma_arr_view_index(items: Seq<Json>, i: int)
    requires
        0 <= i < items.len(),
    ensures
        arr_view(items).len() == items.len(),
        arr_view(items)[i] == items[i]@,
    decreases items.len(),
{
    lemma_arr_view_len(items.drop_last());
    assert(arr_view(items) == arr_view(items.drop_last()).push(items.last()@));
    if i < items.len() - 1 {
        assert(items.drop_last()[i] == items[i]);
        lemma_arr_view_index(items.drop_last(), i);
        assert(arr_view(items)[i] == arr_view(items.drop_last())[i]);
    } else {
        assert(arr_view(items)[i] == items.last()@);
    }
}

/// The array model has as many elements as the array.
pub proof fn lemma_arr_view_len(items: Seq<Json>)
    ensures
        arr_view(items).len() == items.len(),
    decreases items.len(),
{
    if items.len() > 0 {
        lemma_arr_view_len(items.drop_last());
        assert(arr_view(items) == arr_view(items.drop_last()).push(items.last()@));
    }
}

/// Reordering the entries of an object leaves its model unchanged: key
/// insertion order carries no meaning.
pub proof fn lemma_obj_view_permutation(es1: Seq<(Vec<u8>, Json)>, es2: Seq<(Vec<u8>, Json)>)
    requires
        keys_distinct(es1),
        keys_distinct(es2),
        es1.to_multiset() == es2.to_multiset(),
    ensures
        obj_view(es1) =~= obj_view(es2),
    decreases es2.len(),
{
    broadcast use vstd::seq_lib::group_to_multiset_ensures;

    if es2.len() == 0 {
        assert(es1.to_multiset().len() == 0);
        assert(es1.len() == 0);
    } else {
        let p = es2.last();
        assert(es2.contains(p));
        assert(es2.to_multiset().count(p) > 0);
        assert(es1.to_multiset().count(p) > 0);
        assert(es1.contains(p));
        let i = choose|i: int| 0 <= i < es1.len() && es1[i] == p;
        lemma_obj_view_remove(es1, i);
        lemma_obj_view_get(es1, i);
        assert(es1.remove(i).to_multiset() =~= es1.to_multiset().remove(p));
        assert(es2.drop_last() =~= es2.remove(es2.len() - 1));
        assert(es2.remove(es2.len() - 1).to_multiset() =~= es2.to_multiset().remove(p));
        assert(keys_distinct(es2.drop_last())) by {
            assert forall|a: int, b: int| 0 <= a < b < es2.drop_last().len() implies (
            #[trigger] es2.drop_last()[a]).0@ != (#[trigger] es2.drop_last()[b]).0@ by {
                assert(es2.drop_last()[a] == es2[a]);
                assert(es2.drop_last()[b] == es2[b]);
            }
        }
        lemma_obj_view_permutation(es1.remove(i), es2.drop_last());
        assert(obj_view(es2) == obj_view(es2.drop_last()).insert(p.0@, p.1@));
        assert(obj_view(es1) =~= obj_view(es1.remove(i)).insert(p.0@, p.1@));
    }
}

/// An object model built from entries has a finite domain.
pub proof fn lemma_obj_view_finite(es: Seq<(Vec<u8>, Json)>)
    ensures
        obj_view(es).dom().finite(),
    decreases es.len(),
{
    if es.len() > 0 {
        lemma_obj_view_finite(es.drop_last());
        assert(obj_view(es) == obj_view(es.drop_last()).insert(es.last().0@, es.last().1@));
    }
}

/// Byte-string equality.
pub fn bytes_eq(a: &Vec<u8>, b: &Vec<u8>) -> (r: bool)
    ensures
        r == (a@ == b@),
{
    if a.len() != b.len() {
        assert(a@ != b@);
        return false;
    }
    let mut i: usize = 0;
    while i < a.len()
        invariant
            0 <= i <= a@.len(),
            a@.len() == b@.len(),
            forall|j: int| 0 <= j < i ==> a@[j] == b@[j],
        decreases a@.len() - i,
    {
        if a[i] != b[i] {
            return false;
        }
        i = i + 1;
    }
    proof {
        assert(a@ =~= b@);
    }
    true
}

/// A fresh copy of a byte string.
pub fn copy_bytes(v: &Vec<u8>) -> (r: Vec<u8>)
    ensures
        r@ == v@,
{
    let mut out: Vec<u8> = Vec::new();
    let mut i: usize = 0;
    while i < v.len()
        invariant
            0 <= i <= v@.len(),
            out@ == v@.take(i as int),
        decreases v@.len() - i,
    {
        out.push(v[i]);
        proof {
            assert(out@ =~= v@.take(i + 1));
        }
        i = i + 1;
    }
    proof {
        assert(v@.take(v@.len() as int) =~= v@);
    }
    out
}

/// The index of the entry holding a key, if any.
pub fn obj_index_of(es: &Vec<(Vec<u8>, Json)>, key: &Vec<u8>) -> (r: Option<usize>)
    ensures
        match r {
            Some(i) => i < es@.len() && es@[i as int].0@ == key@,
            None => forall|j: int| 0 <= j < es@.len() ==> (#[trigger] es@[j]).0@ != key@,
        },
{
    let mut i: usize = 0;
    while i < es.len()
        invariant
            0 <= i <= es@.len(),
            forall|j: int| 0 <= j < i ==> (#[trigger] es@[j]).0@ != key@,
        decreases es@.len() - i,
    {
        if bytes_eq(&es[i].0, key) {
            return Some(i);
        }
        i = i + 1;
    }
    None
}

/// Looks a key up in an object's entries; agrees with the model.
pub fn obj_get<'a>(es: &'a Vec<(Vec<u8>, Json)>, key: &Vec<u8>) -> (r: Option<&'a Json>)
    requires
        keys_distinct(es@),
    ensures
        match r {
            Some(v) => obj_view(es@).contains_key(key@) && obj_view(es@)[key@] == v@ && exists|
                i: int,
            |
                0 <= i < es@.len() && (#[trigger] es@[i]).0@ == key@ && es@[i].1 == *v,
            None => !obj_view(es@).contains_key(key@),
        },
{
    proof {
        lemma_obj_view_dom(es@);
    }
    match obj_index_of(es, key) {
        Some(i) => {
            proof {
                lemma_obj_view_get(es@, i as int);
                assert((es@[i as int]).0@ == key@ && es@[i as int].1 == es@[i as int].1);
            }
            Some(&es[i].1)
        },
        None => None,
    }
}

impl Clone for Json {
    /// A deep copy: same model, same well-formedness.
    #[verifier::loop_isolation(false)]
    fn clone(&self) -> (res: Json)
        ensures
            res@ == self@,
            self.wf() ==> res.wf(),
        decreases self,
    {
        match self {
            Json::Null => Json::Null,
            Json::Bool(b) => Json::Bool(*b),
            Json::Int(i) => Json::Int(*i),
            Json::Str(s) => Json::Str(copy_bytes(s)),
            Json::Arr(items) => {
                let mut out: Vec<Json> = Vec::new();
                let mut i: usize = 0;
                while i < items.len()
                    invariant
                        0 <= i <= items@.len(),
                        out@.len() == i,
                        forall|j: int|
                            0 <= j < i ==> (#[trigger] out@[j])@ == items@[j]@ && (items@[j].wf()
                                ==> out@[j].wf()),
                    decreases items@.len() - i,
                {
                    proof {
                        assert(*self == Json::Arr(*items));
                        assert(decreases_to!(*items => items@));
                        assert(decreases_to!(items@ => items@[i as int]));
                    }
                    let c = items[i].clone();
                    out.push(c);
                    i = i + 1;
                }
                proof {
                    lemma_arr_view_pointwise(out@, items@);
                    if (*self).wf() {
                        assert forall|j: int| 0 <= j < out@.len() implies (
                        #[trigger] out@[j]).wf() by {
                            assert(items@[j].wf());
                        }
                        assert(Json::Arr(out).wf());
                    }
                }
                Json::Arr(out)
            },
            Json::Obj(es) => {
                let mut out: Vec<(Vec<u8>, Json)> = Vec::new();
                let mut i: usize = 0;
                while i < es.len()
                    invariant
                        0 <= i <= es@.len(),
                        out@.len() == i,
                        forall|j: int|
                            0 <= j < i ==> (#[trigger] out@[j]).0@ == es@[j].0@ && out@[j].1@
                                == es@[j].1@ && (es@[j].1.wf() ==> out@[j].1.wf()),
                    decreases es@.len() - i,
                {
                    proof {
                        assert(*self == Json::Obj(*es));
                        assert(decreases_to!(*es => es@));
                        assert(decreases_to!(es@ => es@[i as int]));
                    }
                    let k = copy_bytes(&es[i].0);
                    let v = es[i].1.clone();
                    out.push((k, v));
                    i = i + 1;
                }
                proof {
                    lemma_obj_view_pointwise(out@, es@);
                    if keys_distinct(es@) {
                        assert forall|a: int, b: int| 0 <= a < b < out@.len() implies (
                        #[trigger] out@[a]).0@ != (#[trigger] out@[b]).0@ by {
                            assert(es@[a].0@ != es@[b].0@);
                        }
                    }
                    if (*self).wf() {
                        assert forall|j: int| 0 <= j < out@.len() implies (
                        #[trigger] out@[j]).1.wf() by {
                            assert(es@[j].1.wf());
                        }
                        assert(Json::Obj(out).wf());
                    }
                }
                Json::Obj(out)
            },
        }
    }
}

/// Checks well-formedness at run time: every object's keys pairwise distinct,
/// recursively.
#[verifier::loop_isolation(false)]
pub fn is_wf(j: &Json) -> (r: bool)
    ensures
        r == j.wf(),
    decreases *j,
{
    match j {
        Json::Null => true,
        Json::Bool(_) => true,
        Json::Int(_) => true,
        Json::Str(_) => true,
        Json::Arr(items) => {
            let mut i: usize = 0;
            while i < items.len()
                invariant
                    0 <= i <= items@.len(),
                    forall|a: int| 0 <= a < i ==> (#[trigger] items@[a]).wf(),
                decreases items@.len() - i,
            {
                proof {
                    assert(*j == Json::Arr(*items));
                    assert(decreases_to!(*items => items@));
                    assert(decreases_to!(items@ => items@[i as int]));
                }
                if !is_wf(&items[i]) {
                    return false;
                }
                i = i + 1;
            }
            true
        },
        Json::Obj(es) => {
            let mut a: usize = 0;
            while a < es.len()
                invariant
                    0 <= a <= es@.len(),
                    forall|x: int, y: int|
                        0 <= x < y < es@.len() && x < a ==> (#[trigger] es@[x]).0@ != (
                        #[trigger] es@[y]).0@,
                decreases es@.len() - a,
            {
                let mut c: usize = a + 1;
                while c < es.len()
                    invariant
                        a < c <= es@.len(),
                        a < es@.len(),
                        forall|y: int| a < y < c ==> (#[trigger] es@[y]).0@ != es@[a as int].0@,
                    decreases es@.len() - c,
                {
                    if bytes_eq(&es[a].0, &es[c].0) {
                        return false;
                    }
                    c = c + 1;
                }
                a = a + 1;
            }
            assert(keys_distinct(es@));
            let mut t: usize = 0;
            while t < es.len()
                invariant
                    0 <= t <= es@.len(),
                    keys_distinct(es@),
                    forall|x: int| 0 <= x < t ==> (#[trigger] es@[x]).1.wf(),
                decreases es@.len() - t,
            {
                proof {
                    assert(*j == Json::Obj(*es));
                    assert(decreases_to!(*es => es@));
                    assert(decreases_to!(es@ => es@[t as int]));
                }
                if !is_wf(&es[t].1) {
                    return false;
                }
                t = t + 1;
            }
            true
        },
    }
}

} // verus!
