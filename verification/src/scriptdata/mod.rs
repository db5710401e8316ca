//! The script data model: scalars, items, tables by id, keys, and schema
//! errors.
use vstd::prelude::*;

pub mod document;
pub mod generic2;
pub mod reference_tree;

verus! {

/// The error of the standard library for a malformed float, carried through
/// unread.
#[verifier::external_type_specification]
#[verifier::external_body]
pub struct ExParseFloatError(std::num::ParseFloatError);

/// The error of the standard library for a malformed integer, carried
/// through unread.
#[verifier::external_type_specification]
#[verifier::external_body]
pub struct ExParseIntError(std::num::ParseIntError);

/// A table of a document, by position.
#[derive(Debug, Clone, Copy, PartialEq, Eq, Hash, Structural)]
pub struct TableId(pub usize);

/// A key was given twice in one table.
pub struct DuplicateKey(pub Key<String>);

/// A table id that names no table.
#[derive(Debug)]
pub struct DanglingTableId(pub TableId);

/// The key of a table entry: a position or a string.
#[derive(Debug, Clone, Copy, PartialEq, Eq, PartialOrd, Ord)]
pub enum Key<T> {
    Index(usize),
    String(T),
}

impl<T: View> View for Key<T> {
    type V = Key<T::V>;

    open spec fn view(&self) -> Key<T::V> {
        match self {
            Key::Index(i) => Key::Index(*i),
            Key::String(s) => Key::String(s@),
        }
    }
}

impl<T> From<usize> for Key<T> {
    fn from(src: usize) -> (r: Key<T>) {
        Key::Index(src)
    }
}

impl<T> vstd::std_specs::convert::FromSpecImpl<usize> for Key<T> {
    open spec fn obeys_from_spec() -> bool {
        true
    }

    open spec fn from_spec(src: usize) -> Key<T> {
        Key::Index(src)
    }
}

/// Why a document does not follow the schema.
#[derive(Debug)]
pub enum SchemaError {
    WrongElement(&'static str),
    MissingAttribute(&'static str),
    UnexpectedAttribute(&'static str),
    BadValue(String),
    BadType(String),
    InvalidBool,
    InvalidFloat(std::num::ParseFloatError),
    InvalidInt(std::num::ParseIntError),
    InvalidIdString,
    InvalidVector,
    InvalidQuaternion,
    TableIdAndRef(String),
    RootIsReference,
    DanglingReference(String),
    BadIndex(String),
    NoKey,
    KeyAndIndex(String, String),
    DuplicateKey(Key<String>),
    DuplicateId(String),
    RefHasChildren(String),
    SyntaxError(String),
}

impl From<DuplicateKey> for SchemaError {
    fn from(src: DuplicateKey) -> (r: SchemaError) {
        SchemaError::DuplicateKey(src.0)
    }
}

impl vstd::std_specs::convert::FromSpecImpl<DuplicateKey> for SchemaError {
    open spec fn obeys_from_spec() -> bool {
        true
    }

    open spec fn from_spec(src: DuplicateKey) -> SchemaError {
        SchemaError::DuplicateKey(src.0)
    }
}

/// The three components of a vector, each the bits of a 32-bit float.
#[derive(Debug, Clone, Copy, PartialEq, Eq, Structural)]
pub struct Vec3Bits {
    pub x: u32,
    pub y: u32,
    pub z: u32,
}

/// The four components of a quaternion, each the bits of a 32-bit float.
#[derive(Debug, Clone, Copy, PartialEq, Eq, Structural)]
pub struct QuatBits {
    pub x: u32,
    pub y: u32,
    pub z: u32,
    pub w: u32,
}

/// A value that is not a table. Numbers, vectors and quaternions are 32-bit
/// floats, held here as their bits: a document only carries them.
#[derive(Debug, Clone)]
pub enum Scalar<S> {
    Bool(bool),
    Number(u32),
    IdString(u64),
    String(S),
    Vector(Vec3Bits),
    Quaternion(QuatBits),
}

impl<S> From<bool> for Scalar<S> {
    fn from(s: bool) -> (r: Scalar<S>) {
        Scalar::Bool(s)
    }
}

impl<S> vstd::std_specs::convert::FromSpecImpl<bool> for Scalar<S> {
    open spec fn obeys_from_spec() -> bool {
        true
    }

    open spec fn from_spec(s: bool) -> Scalar<S> {
        Scalar::Bool(s)
    }
}

impl<S> From<u64> for Scalar<S> {
    fn from(s: u64) -> (r: Scalar<S>) {
        Scalar::IdString(s)
    }
}

impl<S> vstd::std_specs::convert::FromSpecImpl<u64> for Scalar<S> {
    open spec fn obeys_from_spec() -> bool {
        true
    }

    open spec fn from_spec(s: u64) -> Scalar<S> {
        Scalar::IdString(s)
    }
}

impl<S: View> View for Scalar<S> {
    type V = Scalar<S::V>;

    open spec fn view(&self) -> Scalar<S::V> {
        match self {
            Scalar::Bool(b) => Scalar::Bool(*b),
            Scalar::Number(n) => Scalar::Number(*n),
            Scalar::IdString(h) => Scalar::IdString(*h),
            Scalar::String(s) => Scalar::String(s@),
            Scalar::Vector(v) => Scalar::Vector(*v),
            Scalar::Quaternion(q) => Scalar::Quaternion(*q),
        }
    }
}

impl<S> Scalar<S> {
    /// The same scalar, with its string, if it is one, mapped by `func`.
    pub fn map_string<SO, F: FnOnce(S) -> SO>(self, func: F) -> (r: Scalar<SO>)
        requires
            self matches Scalar::String(s) ==> call_requires(func, (s,)),
        ensures
            match self {
                Scalar::String(s) => r matches Scalar::String(so) && call_ensures(func, (s,), so),
                Scalar::Bool(i) => r == Scalar::<SO>::Bool(i),
                Scalar::Number(i) => r == Scalar::<SO>::Number(i),
                Scalar::IdString(i) => r == Scalar::<SO>::IdString(i),
                Scalar::Vector(i) => r == Scalar::<SO>::Vector(i),
                Scalar::Quaternion(i) => r == Scalar::<SO>::Quaternion(i),
            },
    {
        match self {
            Scalar::String(s) => Scalar::String(func(s)),
            Scalar::Bool(i) => Scalar::Bool(i),
            Scalar::Number(i) => Scalar::Number(i),
            Scalar::IdString(i) => Scalar::IdString(i),
            Scalar::Vector(i) => Scalar::Vector(i),
            Scalar::Quaternion(i) => Scalar::Quaternion(i),
        }
    }
}

impl Scalar<String> {
    /// The same scalar, borrowing its string.
    pub fn to_borrowed<'s>(&'s self) -> (r: Scalar<&'s str>)
        ensures
            r@ == self@,
    {
        match self {
            Scalar::String(s) => Scalar::String(s.as_str()),
            Scalar::Bool(i) => Scalar::Bool(*i),
            Scalar::Number(i) => Scalar::Number(*i),
            Scalar::IdString(i) => Scalar::IdString(*i),
            Scalar::Vector(i) => Scalar::Vector(*i),
            Scalar::Quaternion(i) => Scalar::Quaternion(*i),
        }
    }
}

/// A value of a table: a scalar or a table.
#[derive(Debug, Clone)]
pub enum Item<S, T> {
    Scalar(Scalar<S>),
    Table(T),
}

impl<S: View, T> View for Item<S, T> {
    type V = Item<S::V, T>;

    open spec fn view(&self) -> Item<S::V, T> {
        match self {
            Item::Scalar(s) => Item::Scalar(s@),
            Item::Table(t) => Item::Table(*t),
        }
    }
}

impl<S, T> Item<S, T> {
    /// The same item, with its table, if it is one, mapped by `func`.
    pub fn map_table<TO, F: FnOnce(T) -> TO>(self, func: F) -> (r: Item<S, TO>)
        requires
            self matches Item::Table(t) ==> call_requires(func, (t,)),
        ensures
            match self {
                Item::Scalar(s) => r == Item::<S, TO>::Scalar(s),
                Item::Table(t) => r matches Item::Table(to) && call_ensures(func, (t,), to),
            },
    {
        match self {
            Item::Scalar(s) => Item::Scalar(s),
            Item::Table(t) => Item::Table(func(t)),
        }
    }
}

} // verus!
