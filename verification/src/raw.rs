//! Loosely structured input: nested values of text, numbers, booleans,
//! lists and records, as a bulk card feed or a saved deck holds them. Only
//! the fields that are asked for by name are ever read.

use crate::text::same_text;
use vstd::prelude::*;

verus! {

/// A number, as the two readings that are taken of it.
#[derive(Clone, Copy, Debug, PartialEq, Eq)]
pub struct RawNumber {
    /// The number as an unsigned integer, where it was written as one.
    pub unsigned: Option<u64>,
    /// The bit pattern of the number as an IEEE 754 double, where it has
    /// one.
    pub double: Option<u64>,
}

/// One named member of a record.
#[derive(Debug, PartialEq)]
pub struct RawField {
    pub name: String,
    pub value: RawValue,
}

/// A loosely structured value.
#[derive(Debug, PartialEq)]
pub enum RawValue {
    Null,
    Bool(bool),
    Number(RawNumber),
    Text(String),
    List(Vec<RawValue>),
    Record(Vec<RawField>),
}

/// The value of the first field called `name`.
pub open spec fn field_of(fields: Seq<RawField>, name: Seq<char>) -> Option<RawValue>
    decreases fields.len(),
{
    if fields.len() == 0 {
        None
    } else if fields[0].name@ == name {
        Some(fields[0].value)
    } else {
        field_of(fields.drop_first(), name)
    }
}

/// The value of the first field called `name` among the given fields.
pub fn find_field<'a>(fields: &'a Vec<RawField>, name: &str) -> (r: Option<&'a RawValue>)
    ensures
        match r {
            Some(value) => field_of(fields@, name@) == Some(*value),
            None => field_of(fields@, name@) is None,
        },
{
    let mut i: usize = 0;
    assert(fields@.subrange(0, fields.len() as int) =~= fields@);
    while i < fields.len()
        invariant
            i <= fields.len(),
            field_of(fields@, name@) == field_of(
                fields@.subrange(i as int, fields.len() as int),
                name@,
            ),
        decreases fields.len() - i,
    {
        let ghost rest = fields@.subrange(i as int, fields.len() as int);
        if same_text(fields[i].name.as_str(), name) {
            return Some(&fields[i].value);
        }
        assert(rest.drop_first() =~= fields@.subrange(i + 1, fields.len() as int));
        i = i + 1;
    }
    None
}

impl RawValue {
    /// The value of the field called `name`, where `self` is a record that
    /// has one.
    pub open spec fn field(self, name: Seq<char>) -> Option<RawValue> {
        match self {
            RawValue::Record(fields) => field_of(fields@, name),
            _ => None,
        }
    }

    /// The text, where `self` is text.
    pub open spec fn text(self) -> Option<Seq<char>> {
        match self {
            RawValue::Text(s) => Some(s@),
            _ => None,
        }
    }

    /// The items, where `self` is a list.
    pub open spec fn items(self) -> Option<Seq<RawValue>> {
        match self {
            RawValue::List(items) => Some(items@),
            _ => None,
        }
    }

    /// The fields, where `self` is a record.
    pub open spec fn fields(self) -> Option<Seq<RawField>> {
        match self {
            RawValue::Record(fields) => Some(fields@),
            _ => None,
        }
    }

    /// The number as an unsigned integer, where `self` is one.
    pub open spec fn unsigned(self) -> Option<u64> {
        match self {
            RawValue::Number(n) => n.unsigned,
            _ => None,
        }
    }

    /// The number as the bits of a double, where `self` is a number.
    pub open spec fn double(self) -> Option<u64> {
        match self {
            RawValue::Number(n) => n.double,
            _ => None,
        }
    }

    /// Looks up a field by name.
    pub fn get(&self, name: &str) -> (r: Option<&RawValue>)
        ensures
            match r {
                Some(value) => self.field(name@) == Some(*value),
                None => self.field(name@) is None,
            },
    {
        match self {
            RawValue::Record(fields) => find_field(fields, name),
            _ => None,
        }
    }

    /// The text of a text value.
    pub fn as_text(&self) -> (r: Option<&String>)
        ensures
            match r {
                Some(s) => self.text() == Some(s@),
                None => self.text() is None,
            },
    {
        match self {
            RawValue::Text(s) => Some(s),
            _ => None,
        }
    }

    /// The items of a list.
    pub fn as_list(&self) -> (r: Option<&Vec<RawValue>>)
        ensures
            match r {
                Some(items) => self.items() == Some(items@),
                None => self.items() is None,
            },
    {
        match self {
            RawValue::List(items) => Some(items),
            _ => None,
        }
    }

    /// The fields of a record.
    pub fn as_record(&self) -> (r: Option<&Vec<RawField>>)
        ensures
            match r {
                Some(fields) => self.fields() == Some(fields@),
                None => self.fields() is None,
            },
    {
        match self {
            RawValue::Record(fields) => Some(fields),
            _ => None,
        }
    }

    /// The number as an unsigned integer.
    pub fn as_unsigned(&self) -> (r: Option<u64>)
        ensures
            r == self.unsigned(),
    {
        match self {
            RawValue::Number(n) => n.unsigned,
            _ => None,
        }
    }

    /// The number as the bits of a double.
    pub fn as_double(&self) -> (r: Option<u64>)
        ensures
            r == self.double(),
    {
        match self {
            RawValue::Number(n) => n.double,
            _ => None,
        }
    }
}

} // verus!
