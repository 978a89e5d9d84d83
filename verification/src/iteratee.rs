use vstd::prelude::*;
use crate::value::Field;
use crate::value::ValModel;
use crate::value::Value;
use crate::value::field_models;
use crate::value::lemma_model_of_composite;

verus! {

/// The direction in which one criterion orders records.
#[derive(Clone, Copy, PartialEq, Eq, Structural, Debug)]
pub enum Order {
    Ascending,
    Descending,
}

/// An accessor that projects a sort key out of a record: a single key name,
/// or a path of names descending through nested mappings.
#[derive(Debug, PartialEq, Eq)]
pub enum Iteratee {
    Property(String),
    Path(Vec<String>),
}

/// The mathematical shape of an accessor.
pub enum IterModel {
    Property(Seq<char>),
    Path(Seq<Seq<char>>),
}

impl View for Iteratee {
    type V = IterModel;

    open spec fn view(&self) -> IterModel {
        match self {
            Iteratee::Property(name) => IterModel::Property(name@),
            Iteratee::Path(names) => IterModel::Path(names.deep_view()),
        }
    }
}

/// The value under the first field of the mapping bearing the key, or null
/// when no field bears it.
pub open spec fn lookup_model(fields: Seq<(Seq<char>, ValModel)>, key: Seq<char>) -> ValModel
    decreases fields.len(),
{
    if fields.len() == 0 {
        ValModel::Null
    } else if fields[0].0 == key {
        fields[0].1
    } else {
        lookup_model(fields.drop_first(), key)
    }
}

/// The value under a key of a record: null when the record is not a mapping
/// or lacks the key.
pub open spec fn project_model(v: ValModel, key: Seq<char>) -> ValModel {
    match v {
        ValModel::Object(fields) => lookup_model(fields, key),
        _ => ValModel::Null,
    }
}

/// The value reached by descending through the names in order; a missing
/// key or a non-mapping on the way yields null.
pub open spec fn path_model(v: ValModel, names: Seq<Seq<char>>) -> ValModel
    decreases names.len(),
{
    if names.len() == 0 {
        v
    } else {
        path_model(project_model(v, names[0]), names.drop_first())
    }
}

/// The key an accessor extracts from a record.
pub open spec fn apply_model(it: IterModel, v: ValModel) -> ValModel {
    match it {
        IterModel::Property(name) => project_model(v, name),
        IterModel::Path(names) => path_model(v, names),
    }
}

/// The value under a key of a record, or null.
pub fn project_value(v: &Value, key: &String) -> (r: Value)
    ensures
        r@ == project_model(v@, key@),
{
    broadcast use lemma_model_of_composite;

    match v {
        Value::Object(fields) => {
            let ghost fms = field_models(fields@);
            let mut i: usize = 0;
            proof {
                assert(fms.skip(0) =~= fms);
            }
            while i < fields.len()
                invariant
                    i <= fields.len(),
                    fms == field_models(fields@),
                    v@ == ValModel::Object(fms),
                    lookup_model(fms, key@) == lookup_model(fms.skip(i as int), key@),
                decreases fields.len() - i,
            {
                if fields[i].key == *key {
                    proof {
                        assert(fms.skip(i as int)[0] == fms[i as int]);
                        assert(fms[i as int].0 == key@);
                        assert(fms[i as int].1 == fields@[i as int].val@);
                    }
                    return fields[i].val.duplicate();
                }
                proof {
                    assert(fms.skip(i as int).drop_first() =~= fms.skip(i + 1));
                }
                i += 1;
            }
            Value::Null
        },
        _ => Value::Null,
    }
}

impl Iteratee {
    /// The key this accessor extracts from the record, as `apply_model`
    /// states it.
    pub fn apply(&self, v: &Value) -> (r: Value)
        ensures
            r@ == apply_model(self@, v@),
    {
        match self {
            Iteratee::Property(name) => project_value(v, name),
            Iteratee::Path(names) => {
                let ghost nms = names.deep_view();
                let mut cur = v.duplicate();
                let mut i: usize = 0;
                proof {
                    assert(nms.skip(0) =~= nms);
                }
                while i < names.len()
                    invariant
                        i <= names.len(),
                        nms == names.deep_view(),
                        path_model(v@, nms) == path_model(cur@, nms.skip(i as int)),
                    decreases names.len() - i,
                {
                    let next = project_value(&cur, &names[i]);
                    proof {
                        assert(nms.skip(i as int)[0] == names@[i as int]@);
                        assert(nms.skip(i as int).drop_first() =~= nms.skip(i + 1));
                    }
                    cur = next;
                    i += 1;
                }
                proof {
                    assert(nms.skip(names@.len() as int) =~= Seq::<Seq<char>>::empty());
                }
                cur
            },
        }
    }
}

} // verus!
