//! The value model: a tagged value that is both the wire representation and
//! the store's value type, together with its mathematical model.

use vstd::prelude::*;

verus! {

/// The mathematical model of an [`Object`]: the same tree with every byte
/// vector abstracted to a sequence. All contracts in this crate speak of
/// objects through this model.
pub enum ObjModel {
    /// An array of objects.
    Array(Seq<ObjModel>),
    /// A bulk string; `None` is the null bulk string.
    BulkString(Option<Seq<u8>>),
    /// An error with a message.
    Error(Seq<u8>),
    /// A signed 64-bit integer.
    Integer(i64),
    /// A simple string.
    SimpleString(Seq<u8>),
}

/// All the possible kinds of objects the engine deals with.
#[derive(Debug, PartialEq, Eq)]
pub enum Object {
    /// An array of objects.
    Array(ObjectArray),
    /// A bulk string object. Bulk strings may contain `\r` or `\n`;
    /// `None` is the null bulk string.
    BulkString(Option<Vec<u8>>),
    /// An error with a message. The message may not contain `\r` or `\n`.
    Error(Vec<u8>),
    /// A signed 64-bit integer.
    Integer(i64),
    /// A simple string object. May not contain `\r` or `\n`.
    SimpleString(Vec<u8>),
}

/// An array of objects, the payload of [`Object::Array`].
#[derive(Debug, PartialEq, Eq)]
pub struct ObjectArray {
    pub items: Vec<Object>,
}

/// The model of one object.
pub open spec fn obj_model(o: Object) -> ObjModel
    decreases o,
{
    match o {
        Object::Array(arr) => ObjModel::Array(
            Seq::new(
                arr.items@.len(),
                |i: int|
                    if 0 <= i < arr.items@.len() {
                        obj_model(arr.items@[i])
                    } else {
                        ObjModel::Integer(0)
                    },
            ),
        ),
        Object::BulkString(b) => ObjModel::BulkString(
            match b {
                Some(v) => Some(v@),
                None => None,
            },
        ),
        Object::Error(v) => ObjModel::Error(v@),
        Object::Integer(i) => ObjModel::Integer(i),
        Object::SimpleString(v) => ObjModel::SimpleString(v@),
    }
}

/// The model of a sequence of objects, element by element.
pub open spec fn seq_model(s: Seq<Object>) -> Seq<ObjModel> {
    Seq::new(s.len(), |i: int| obj_model(s[i]))
}

impl Object {
    /// Create a new array object from a vector.
    pub fn new_array(items: Vec<Object>) -> (r: Self)
        ensures
            obj_model(r) == ObjModel::Array(seq_model(items@)),
    {
        let array = ObjectArray { items };
        proof {
            assert(obj_model(Object::Array(array))->Array_0 =~= seq_model(array.items@));
        }
        Object::Array(array)
    }

    /// Create a new empty array.
    pub fn new_empty_array() -> (r: Self)
        ensures
            obj_model(r) == ObjModel::Array(Seq::<ObjModel>::empty()),
    {
        proof {
            assert(seq_model(Seq::<Object>::empty()) =~= Seq::<ObjModel>::empty());
        }
        Self::new_array(Vec::new())
    }

    /// Create a new error object from a byte slice.
    pub fn new_error(message: &[u8]) -> (r: Self)
        ensures
            obj_model(r) == ObjModel::Error(message@),
    {
        let message = slice_to_vec(message);
        Object::Error(message)
    }

    /// Create a simple string from a byte slice.
    pub fn new_simple_string(string: &[u8]) -> (r: Self)
        ensures
            obj_model(r) == ObjModel::SimpleString(string@),
    {
        let string = slice_to_vec(string);
        Object::SimpleString(string)
    }
}

/// Copy a byte slice into a fresh vector.
fn slice_to_vec(s: &[u8]) -> (r: Vec<u8>)
    ensures
        r@ == s@,
{
    vstd::slice::slice_to_vec(s)
}

/// The model of an array object is the model of its element sequence.
pub broadcast proof fn lemma_obj_model_array(o: Object)
    ensures
        o is Array ==> #[trigger] obj_model(o) == ObjModel::Array(
            seq_model(o->Array_0.items@),
        ),
{
    if o is Array {
        assert(obj_model(o)->Array_0 =~= seq_model(o->Array_0.items@));
    }
}

/// Copy a byte vector.
pub fn copy_bytes(v: &Vec<u8>) -> (r: Vec<u8>)
    ensures
        r@ == v@,
{
    let mut r: Vec<u8> = Vec::new();
    let mut i: usize = 0;
    while i < v.len()
        invariant
            i <= v@.len(),
            r@ == v@.take(i as int),
        decreases v@.len() - i,
    {
        r.push(v[i]);
        assert(r@ =~= v@.take(i + 1));
        i += 1;
    }
    assert(r@ =~= v@);
    r
}

/// Whether two byte vectors hold the same bytes.
pub fn bytes_eq(a: &Vec<u8>, b: &Vec<u8>) -> (r: bool)
    ensures
        r == (a@ == b@),
{
    if a.len() != b.len() {
        return false;
    }
    let mut i: usize = 0;
    while i < a.len()
        invariant
            i <= a@.len(),
            a@.len() == b@.len(),
            forall|j: int| 0 <= j < i ==> a@[j] == b@[j],
        decreases a@.len() - i,
    {
        if a[i] != b[i] {
            return false;
        }
        i += 1;
    }
    proof {
        assert(a@ =~= b@);
    }
    true
}

/// Structural equality of two objects, decided through their models.
#[verifier::loop_isolation(false)]
pub fn obj_eq(a: &Object, b: &Object) -> (r: bool)
    ensures
        r == (obj_model(*a) == obj_model(*b)),
    decreases a,
{
    broadcast use lemma_obj_model_array;

    match (a, b) {
        (Object::Array(x), Object::Array(y)) => {
            proof {
                assert(obj_model(*a) == ObjModel::Array(seq_model(x.items@)));
                assert(obj_model(*b) == ObjModel::Array(seq_model(y.items@)));
                assert(seq_model(x.items@).len() == x.items@.len());
                assert(seq_model(y.items@).len() == y.items@.len());
            }
            if x.items.len() != y.items.len() {
                return false;
            }
            let mut i: usize = 0;
            while i < x.items.len()
                invariant
                    i <= x.items@.len(),
                    x.items@.len() == y.items@.len(),
                    *a == Object::Array(*x),
                    *b == Object::Array(*y),
                    forall|j: int|
                        0 <= j < i ==> seq_model(x.items@)[j] == seq_model(y.items@)[j],
                decreases x.items@.len() - i,
            {
                proof {
                    let xa = (*a)->Array_0;
                    assert(decreases_to!(*a => xa));
                    assert(decreases_to!(xa => xa.items));
                    assert(decreases_to!(xa.items => xa.items@[i as int]));
                    assert(xa.items@[i as int] == x.items@[i as int]);
                }
                if !obj_eq(&x.items[i], &y.items[i]) {
                    proof {
                        assert(seq_model(x.items@)[i as int] != seq_model(y.items@)[i as int]);
                        assert(seq_model(x.items@) != seq_model(y.items@));
                        assert(obj_model(*a) == ObjModel::Array(seq_model(x.items@)));
                        assert(obj_model(*b) == ObjModel::Array(seq_model(y.items@)));
                    }
                    return false;
                }
                i += 1;
            }
            proof {
                assert(seq_model(x.items@) =~= seq_model(y.items@));
                assert(obj_model(*a) == ObjModel::Array(seq_model(x.items@)));
                assert(obj_model(*b) == ObjModel::Array(seq_model(y.items@)));
            }
            true
        },
        (Object::BulkString(Some(x)), Object::BulkString(Some(y))) => bytes_eq(x, y),
        (Object::BulkString(None), Object::BulkString(None)) => true,
        (Object::Error(x), Object::Error(y)) => bytes_eq(x, y),
        (Object::Integer(x), Object::Integer(y)) => *x == *y,
        (Object::SimpleString(x), Object::SimpleString(y)) => bytes_eq(x, y),
        _ => false,
    }
}

/// A deep copy of an object; the copy has the same model.
#[verifier::loop_isolation(false)]
pub fn obj_clone(o: &Object) -> (r: Object)
    ensures
        obj_model(r) == obj_model(*o),
    decreases o,
{
    broadcast use lemma_obj_model_array;

    match o {
        Object::Array(arr) => {
            let mut items: Vec<Object> = Vec::new();
            let mut i: usize = 0;
            while i < arr.items.len()
                invariant
                    i <= arr.items@.len(),
                    *o == Object::Array(*arr),
                    items@.len() == i,
                    forall|j: int|
                        0 <= j < i ==> seq_model(items@)[j] == seq_model(arr.items@)[j],
                decreases arr.items@.len() - i,
            {
                proof {
                    let oa = (*o)->Array_0;
                    assert(decreases_to!(*o => oa));
                    assert(decreases_to!(oa => oa.items));
                    assert(decreases_to!(oa.items => oa.items@[i as int]));
                    assert(oa.items@[i as int] == arr.items@[i as int]);
                }
                let item = obj_clone(&arr.items[i]);
                let ghost prev = items@;
                items.push(item);
                proof {
                    assert(items@ == prev.push(item));
                    assert(forall|j: int| 0 <= j < i ==> items@[j] == prev[j]);
                    assert(items@[i as int] == item);
                    assert(forall|j: int|
                        0 <= j < i ==> #[trigger] seq_model(items@)[j] == seq_model(prev)[j]);
                    assert(forall|j: int|
                        0 <= j < i ==> #[trigger] seq_model(prev)[j] == seq_model(arr.items@)[j]);
                    assert(seq_model(items@)[i as int] == obj_model(item));
                    assert(seq_model(arr.items@)[i as int] == obj_model(arr.items@[i as int]));
                    assert(forall|j: int|
                        0 <= j < i + 1 ==> seq_model(items@)[j] == seq_model(arr.items@)[j]);
                }
                i += 1;
            }
            proof {
                assert(seq_model(items@) =~= seq_model(arr.items@));
            }
            Object::Array(ObjectArray { items })
        },
        Object::BulkString(Some(v)) => Object::BulkString(Some(copy_bytes(v))),
        Object::BulkString(None) => Object::BulkString(None),
        Object::Error(v) => Object::Error(copy_bytes(v)),
        Object::Integer(i) => Object::Integer(*i),
        Object::SimpleString(v) => Object::SimpleString(copy_bytes(v)),
    }
}

} // verus!
