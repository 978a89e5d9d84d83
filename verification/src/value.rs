use vstd::prelude::*;

verus! {

broadcast use vstd::std_specs::vec::group_vec_axioms;

/// The mathematical shape of a dynamically typed value: what a `Value` means
/// in contracts. Numbers are mathematical integers, text is a sequence of
/// characters, and a mapping is a sequence of key/value pairs.
pub enum ValModel {
    Null,
    Bool(bool),
    Num(int),
    Text(Seq<char>),
    List(Seq<ValModel>),
    Object(Seq<(Seq<char>, ValModel)>),
}

/// A dynamically typed value: null, boolean, number, text, an ordered
/// sequence of values, or a string-keyed mapping held as key/value pairs.
#[derive(Debug, PartialEq, Eq)]
pub enum Value {
    Null,
    Bool(bool),
    Num(i64),
    Text(String),
    List(Vec<Value>),
    Object(Vec<Field>),
}

/// One key/value pair of a mapping.
#[derive(Debug, PartialEq, Eq)]
pub struct Field {
    pub key: String,
    pub val: Value,
}

/// The model of a value.
pub open spec fn model_of(v: Value) -> ValModel
    decreases v, 0int,
{
    match v {
        Value::Null => ValModel::Null,
        Value::Bool(b) => ValModel::Bool(b),
        Value::Num(n) => ValModel::Num(n as int),
        Value::Text(s) => ValModel::Text(s@),
        Value::List(items) => ValModel::List(models_rec(items, items.len() as int)),
        Value::Object(fields) => ValModel::Object(field_models_rec(fields, fields.len() as int)),
    }
}

/// The models of the first `n` elements of a vector of values.
pub open spec fn models_rec(items: Vec<Value>, n: int) -> Seq<ValModel>
    recommends
        n <= items.len(),
    decreases items, n,
    when n <= items.len()
{
    if n <= 0 {
        Seq::empty()
    } else {
        models_rec(items, n - 1).push(model_of(items[n - 1]))
    }
}

/// The models of the first `n` fields of a mapping.
pub open spec fn field_models_rec(fields: Vec<Field>, n: int) -> Seq<(Seq<char>, ValModel)>
    recommends
        n <= fields.len(),
    decreases fields, n,
    when n <= fields.len()
{
    if n <= 0 {
        Seq::empty()
    } else {
        proof {
            assert(decreases_to!(fields => fields[n - 1]));
            assert(decreases_to!(fields[n - 1] => fields[n - 1].val));
        }
        field_models_rec(fields, n - 1).push((fields[n - 1].key@, model_of(fields[n - 1].val)))
    }
}

impl View for Value {
    type V = ValModel;

    open spec fn view(&self) -> ValModel {
        model_of(*self)
    }
}

impl View for Field {
    type V = (Seq<char>, ValModel);

    open spec fn view(&self) -> (Seq<char>, ValModel) {
        (self.key@, self.val@)
    }
}

/// The sequence of models of a sequence of values.
pub open spec fn models(s: Seq<Value>) -> Seq<ValModel> {
    s.map_values(|v: Value| v@)
}

/// The sequence of models of a sequence of fields.
pub open spec fn field_models(s: Seq<Field>) -> Seq<(Seq<char>, ValModel)> {
    s.map_values(|f: Field| f@)
}

pub proof fn lemma_models_rec(items: Vec<Value>, n: int)
    requires
        0 <= n <= items.len(),
    ensures
        models_rec(items, n) == models(items@).take(n),
    decreases n,
{
    if n > 0 {
        lemma_models_rec(items, n - 1);
    }
    assert(models_rec(items, n) =~= models(items@).take(n));
}

pub proof fn lemma_field_models_rec(fields: Vec<Field>, n: int)
    requires
        0 <= n <= fields.len(),
    ensures
        field_models_rec(fields, n) == field_models(fields@).take(n),
    decreases n,
{
    if n > 0 {
        lemma_field_models_rec(fields, n - 1);
    }
    assert(field_models_rec(fields, n) =~= field_models(fields@).take(n));
}

/// The model of a sequence value lists the models of its elements; the model
/// of a mapping value lists the models of its fields.
pub broadcast proof fn lemma_model_of_composite(v: Value)
    ensures
        (#[trigger] model_of(v)) == match v {
            Value::Null => ValModel::Null,
            Value::Bool(b) => ValModel::Bool(b),
            Value::Num(n) => ValModel::Num(n as int),
            Value::Text(s) => ValModel::Text(s@),
            Value::List(items) => ValModel::List(models(items@)),
            Value::Object(fields) => ValModel::Object(field_models(fields@)),
        },
{
    match v {
        Value::List(items) => {
            lemma_models_rec(items, items.len() as int);
            assert(models(items@).take(items@.len() as int) =~= models(items@));
        },
        Value::Object(fields) => {
            lemma_field_models_rec(fields, fields.len() as int);
            assert(field_models(fields@).take(fields@.len() as int) =~= field_models(fields@));
        },
        _ => {},
    }
}

impl Value {
    /// A structurally equal copy of the value.
    pub fn duplicate(&self) -> (r: Value)
        ensures
            r@ == self@,
        decreases *self,
    {
        broadcast use lemma_model_of_composite;

        match self {
            Value::Null => Value::Null,
            Value::Bool(b) => Value::Bool(*b),
            Value::Num(n) => Value::Num(*n),
            Value::Text(s) => Value::Text(s.clone()),
            Value::List(items) => {
                let mut out: Vec<Value> = Vec::new();
                let mut i: usize = 0;
                proof {
                    assert(decreases_to!(*self => *items));
                    assert(decreases_to!(*items => items@));
                }
                while i < items.len()
                    invariant
                        decreases_to!(*self => items@),
                        i <= items.len(),
                        out@.len() == i,
                        forall|k: int| 0 <= k < i ==> out@[k]@ == #[trigger] items@[k]@,
                    decreases items.len() - i,
                {
                    proof {
                        assert(decreases_to!(items@ => items@[i as int]));
                    }
                    out.push(items[i].duplicate());
                    i += 1;
                }
                proof {
                    assert(models(out@) =~= models(items@));
                }
                Value::List(out)
            },
            Value::Object(fields) => {
                let mut out: Vec<Field> = Vec::new();
                let mut i: usize = 0;
                proof {
                    assert(decreases_to!(*self => *fields));
                    assert(decreases_to!(*fields => fields@));
                }
                while i < fields.len()
                    invariant
                        decreases_to!(*self => fields@),
                        i <= fields.len(),
                        out@.len() == i,
                        forall|k: int| 0 <= k < i ==> (#[trigger] out@[k])@ == fields@[k]@,
                    decreases fields.len() - i,
                {
                    proof {
                        assert(decreases_to!(fields@ => fields@[i as int]));
                        assert(decreases_to!(fields@[i as int] => fields@[i as int].val));
                    }
                    let key = fields[i].key.clone();
                    let val = fields[i].val.duplicate();
                    out.push(Field { key, val });
                    i += 1;
                }
                proof {
                    assert(field_models(out@) =~= field_models(fields@));
                }
                Value::Object(out)
            },
        }
    }
}

} // verus!
