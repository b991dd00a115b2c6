//! The values that a pipeline's definition gives its commands: integers,
//! strings, arrays and maps of them, and null; and reading one as the kind
//! of setting a command expects.
use vstd::prelude::*;
use crate::text::strings_view;

verus! {

broadcast use vstd::string::group_string_axioms;

/// A value of a pipeline's definition. A map keeps its entries in the order
/// they were written; a path is given by its text.
#[derive(Debug)]
pub enum Value {
    Int(isize),
    String(String),
    Array(Vec<Value>),
    Mapping(Vec<(String, Value)>),
    Null,
}

/// The text of a string value.
pub open spec fn text_of(v: Value) -> Option<Seq<char>> {
    match v {
        Value::String(s) => Some(s@),
        _ => None,
    }
}

/// Every value of `vs` is a string.
pub open spec fn all_strings(vs: Seq<Value>) -> bool {
    forall|i: int| 0 <= i < vs.len() ==> (#[trigger] text_of(vs[i])) is Some
}

/// The texts of the string values `vs`.
pub open spec fn texts(vs: Seq<Value>) -> Seq<Seq<char>> {
    vs.map_values(|v: Value| text_of(v).unwrap())
}

/// The values of a map's entries.
pub open spec fn entry_values(es: Seq<(String, Value)>) -> Seq<Value> {
    es.map_values(|e: (String, Value)| e.1)
}

/// A map's entries, its values by their texts.
pub open spec fn text_entries(es: Seq<(String, Value)>) -> Seq<(Seq<char>, Seq<char>)> {
    es.map_values(|e: (String, Value)| (e.0@, text_of(e.1).unwrap()))
}

pub open spec fn pairs_of(v: Seq<(String, String)>) -> Seq<(Seq<char>, Seq<char>)> {
    v.map_values(|p: (String, String)| (p.0@, p.1@))
}

/// The value is a map all of whose values are strings, or no map at all:
/// reading a map of strings or paths panics on any other.
pub open spec fn map_of_strings(v: Value) -> bool {
    match v {
        Value::Mapping(es) => all_strings(entry_values(es@)),
        _ => true,
    }
}

fn text_clone(v: &Value) -> (r: Option<String>)
    ensures
        match r {
            Some(s) => text_of(*v) == Some(s@),
            None => text_of(*v) is None,
        },
{
    match v {
        Value::String(s) => Some(s.clone()),
        _ => None,
    }
}

fn strings_of(vs: &Vec<Value>) -> (r: Option<Vec<String>>)
    ensures
        match r {
            Some(v) => all_strings(vs@) && strings_view(v@) == texts(vs@),
            None => !all_strings(vs@),
        },
{
    let mut out: Vec<String> = Vec::new();
    let mut i: usize = 0;
    while i < vs.len()
        invariant
            i <= vs@.len(),
            forall|k: int| 0 <= k < i ==> (#[trigger] text_of(vs@[k])) is Some,
            strings_view(out@) == texts(vs@).take(i as int),
        decreases vs@.len() - i,
    {
        match text_clone(&vs[i]) {
            Some(s) => {
                let ghost sv = s@;
                let ghost o0 = out@;
                assert(text_of(vs@[i as int]) == Some(sv));
                assert(texts(vs@)[i as int] == sv);
                out.push(s);
                assert(strings_view(out@) =~= strings_view(o0).push(sv));
                assert(strings_view(out@) =~= texts(vs@).take(i + 1));
            },
            None => {
                return None;
            },
        }
        i = i + 1;
    }
    assert(texts(vs@).take(vs@.len() as int) =~= texts(vs@));
    Some(out)
}

fn string_entries(es: &Vec<(String, Value)>) -> (r: Vec<(String, String)>)
    requires
        all_strings(entry_values(es@)),
    ensures
        pairs_of(r@) == text_entries(es@),
{
    let mut out: Vec<(String, String)> = Vec::new();
    let mut i: usize = 0;
    while i < es.len()
        invariant
            i <= es@.len(),
            all_strings(entry_values(es@)),
            pairs_of(out@) == text_entries(es@).take(i as int),
        decreases es@.len() - i,
    {
        let (k, v) = &es[i];
        assert(text_of(entry_values(es@)[i as int]) is Some);
        match text_clone(v) {
            Some(s) => {
                let ghost sv = s@;
                let ghost o0 = out@;
                assert(text_of(es@[i as int].1) == Some(sv));
                assert(text_entries(es@)[i as int] == (es@[i as int].0@, sv));
                let kc = k.clone();
                assert(kc@ == es@[i as int].0@);
                out.push((kc, s));
                assert(pairs_of(out@) =~= pairs_of(o0).push((es@[i as int].0@, sv)));
                assert(pairs_of(out@) =~= text_entries(es@).take(i + 1));
            },
            None => {},
        }
        i = i + 1;
    }
    assert(text_entries(es@).take(es@.len() as int) =~= text_entries(es@));
    out
}

impl Value {
    /// The integer of an integer value.
    pub fn try_as_int(&self) -> (r: Option<isize>)
        ensures
            r == (match *self {
                Value::Int(x) => Some(x),
                _ => None,
            }),
    {
        match self {
            Value::Int(x) => Some(*x),
            _ => None,
        }
    }

    /// The text of a string value.
    pub fn try_as_string(&self) -> (r: Option<String>)
        ensures
            match r {
                Some(s) => text_of(*self) == Some(s@),
                None => text_of(*self) is None,
            },
    {
        text_clone(self)
    }

    /// The path that a string value gives, by its text.
    pub fn try_as_path(&self) -> (r: Option<String>)
        ensures
            match r {
                Some(s) => text_of(*self) == Some(s@),
                None => text_of(*self) is None,
            },
    {
        text_clone(self)
    }

    /// The texts of an array of strings; `None` for any other value, an
    /// array with a value that is not a string among them.
    pub fn try_as_array_string(&self) -> (r: Option<Vec<String>>)
        ensures
            match *self {
                Value::Array(vs) => match r {
                    Some(v) => all_strings(vs@) && strings_view(v@) == texts(vs@),
                    None => !all_strings(vs@),
                },
                _ => r is None,
            },
    {
        match self {
            Value::Array(vs) => strings_of(vs),
            _ => None,
        }
    }

    /// The paths of an array of strings, by their texts, as
    /// `try_as_array_string` reads them.
    pub fn try_as_array_path(&self) -> (r: Option<Vec<String>>)
        ensures
            match *self {
                Value::Array(vs) => match r {
                    Some(v) => all_strings(vs@) && strings_view(v@) == texts(vs@),
                    None => !all_strings(vs@),
                },
                _ => r is None,
            },
    {
        self.try_as_array_string()
    }

    /// The entries of a map of strings, in order; `None` for any other
    /// value.
    pub fn try_as_map_string(&self) -> (r: Option<Vec<(String, String)>>)
        requires
            map_of_strings(*self),
        ensures
            match *self {
                Value::Mapping(es) => r matches Some(v) && pairs_of(v@) == text_entries(es@),
                _ => r is None,
            },
    {
        match self {
            Value::Mapping(es) => Some(string_entries(es)),
            _ => None,
        }
    }

    /// The entries of a map of paths, by their texts, in order; `None` for
    /// any other value.
    pub fn try_as_map_path(&self) -> (r: Option<Vec<(String, String)>>)
        requires
            map_of_strings(*self),
        ensures
            match *self {
                Value::Mapping(es) => r matches Some(v) && pairs_of(v@) == text_entries(es@),
                _ => r is None,
            },
    {
        self.try_as_map_string()
    }
}

} // verus!
