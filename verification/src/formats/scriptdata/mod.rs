//! Script data: the engine's structured data documents, their text forms,
//! and the ids that tie repeated tables together.
use vstd::prelude::*;

pub mod lua_like;
pub mod document;
pub mod binary;
pub mod generic_xml;
pub mod custom_xml;
pub mod lua_dump;

verus! {

/// How a table is identified in a text form: by a name, a number, or not at
/// all (`Unnamed`).
#[derive(Debug, Copy, Clone)]
pub enum TextId<'a> {
    Str(&'a str),
    Int(usize),
    Unnamed,
}

impl<'a> From<Option<&'a str>> for TextId<'a> {
    fn from(src: Option<&'a str>) -> (r: TextId<'a>) {
        match src {
            Some(s) => TextId::Str(s),
            None => TextId::Unnamed,
        }
    }
}

impl<'a> vstd::std_specs::convert::FromSpecImpl<Option<&'a str>> for TextId<'a> {
    open spec fn obeys_from_spec() -> bool {
        true
    }

    open spec fn from_spec(src: Option<&'a str>) -> TextId<'a> {
        match src {
            Some(s) => TextId::Str(s),
            None => TextId::Unnamed,
        }
    }
}

impl<'a> From<&'a str> for TextId<'a> {
    fn from(s: &'a str) -> (r: TextId<'a>) {
        TextId::Str(s)
    }
}

impl<'a> vstd::std_specs::convert::FromSpecImpl<&'a str> for TextId<'a> {
    open spec fn obeys_from_spec() -> bool {
        true
    }

    open spec fn from_spec(s: &'a str) -> TextId<'a> {
        TextId::Str(s)
    }
}

/// Why a document does not follow the schema.
#[derive(Debug, Copy, Clone)]
pub enum SchemaError {
    WrongElement { expected: &'static str },
    MissingType,
    MissingValue,
    InvalidBool,
    InvalidFloat,
    InvalidIdString,
    InvalidVector,
    InvalidQuaternion,
    UnknownItemType,
    BadIndex,
    KeyAndIndex,
    NoKeyOrIndex,
    TableHasValue,
    RefAndId,
    RefHasChildren,
}

/// A vector of three components.
#[derive(Copy, Clone, PartialOrd, PartialEq, Ord, Eq, Debug, Hash)]
pub struct Vector<T> {
    pub x: T,
    pub y: T,
    pub z: T,
}

/// What tracking a table found: it is repeated and seen for the first time
/// (its new id), repeated and seen before (its id), or not repeated.
pub enum RefCheck {
    Id(usize),
    Ref(usize),
    Single,
}

} // verus!
