//! Values of map files (the TGM text format of BYOND maps) and their abstract content.
use vstd::prelude::*;

verus! {

/// The abstract content of a value.
pub ghost enum ValueModel {
    Number(Seq<char>),
    Literal(Seq<char>),
    Object(Seq<char>, Seq<(Seq<char>, ValueModel)>),
    List(Seq<ValueModel>),
    Mapping(Seq<(Seq<char>, ValueModel)>),
    Null,
}

/// A value of a variable. Numbers keep the text they were written with.
#[derive(Debug, PartialEq)]
pub enum Value {
    Number(String),
    Literal(String),
    Object(Object),
    List(Vec<Value>),
    /// Entries with distinct keys, in the order their keys first appear.
    Mapping(Vec<(String, Value)>),
    Null,
}

/// An object: a type path with variable overrides.
#[derive(Debug, PartialEq)]
pub struct Object {
    pub path: String,
    pub variables: Vec<Variable>,
}

/// A variable override of an object.
#[derive(Debug, PartialEq)]
pub struct Variable {
    pub name: String,
    pub value: Value,
}

/// The abstract content of a value.
pub open spec fn value_model(v: Value) -> ValueModel
    decreases v, 1int,
{
    match v {
        Value::Number(t) => ValueModel::Number(t@),
        Value::Literal(t) => ValueModel::Literal(t@),
        Value::Object(o) => object_model(o),
        Value::List(items) => ValueModel::List(
            Seq::new(
                items@.len(),
                |i: int|
                    if 0 <= i < items@.len() {
                        value_model(items@[i])
                    } else {
                        ValueModel::Null
                    },
            ),
        ),
        Value::Mapping(entries) => ValueModel::Mapping(
            Seq::new(
                entries@.len(),
                |i: int|
                    if 0 <= i < entries@.len() {
                        (entries@[i].0@, value_model(entries@[i].1))
                    } else {
                        (Seq::empty(), ValueModel::Null)
                    },
            ),
        ),
        Value::Null => ValueModel::Null,
    }
}

/// The abstract content of an object, as a value.
pub open spec fn object_model(o: Object) -> ValueModel
    decreases o, 0int,
{
    ValueModel::Object(
        o.path@,
        Seq::new(
            o.variables@.len(),
            |i: int|
                if 0 <= i < o.variables@.len() {
                    (o.variables@[i].name@, value_model(o.variables@[i].value))
                } else {
                    (Seq::empty(), ValueModel::Null)
                },
        ),
    )
}

impl View for Value {
    type V = ValueModel;

    open spec fn view(&self) -> ValueModel {
        value_model(*self)
    }
}

impl View for Object {
    type V = ValueModel;

    open spec fn view(&self) -> ValueModel {
        object_model(*self)
    }
}

impl Object {
    pub fn new(path: String, variables: Vec<Variable>) -> (r: Self)
        ensures
            r.path == path,
            r.variables == variables,
    {
        Self { path, variables }
    }

    /// The first variable with the given name.
    pub fn variable(&self, name: &str) -> (r: Option<&Variable>)
        ensures
            match r {
                Some(v) => exists|i: int|
                    0 <= i < self.variables@.len() && self.variables@[i] == *v && v.name@ == name@
                        && forall|j: int| 0 <= j < i ==> self.variables@[j].name@ != name@,
                None => forall|j: int| 0 <= j < self.variables@.len() ==> self.variables@[j].name@ != name@,
            },
    {
        let name_string = name.to_owned();
        let mut i: usize = 0;
        while i < self.variables.len()
            invariant
                i <= self.variables.len(),
                name_string@ == name@,
                forall|j: int| 0 <= j < i ==> self.variables@[j].name@ != name@,
            decreases self.variables.len() - i,
        {
            if self.variables[i].name == name_string {
                return Some(&self.variables[i]);
            }
            i += 1;
        }
        None
    }
}

impl Variable {
    pub fn new(name: String, value: Value) -> (r: Self)
        ensures
            r.name == name,
            r.value == value,
    {
        Self { name, value }
    }
}

/// The objects that make up a tile definition.
#[derive(Debug, PartialEq)]
pub struct Tile {
    pub components: Vec<Object>,
}

impl Tile {
    pub fn from(vec: Vec<Object>) -> (r: Self)
        ensures
            r.components == vec,
    {
        Self { components: vec }
    }
}

} // verus!
