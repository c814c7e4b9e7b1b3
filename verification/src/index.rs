//! Typed positions.
//!
//! Files, memory regions, segments, sections and the tables of an object are
//! all kept in flat vectors. Each kind of element has a position type of its
//! own, so that a position of one kind is never used for another.

use vstd::prelude::*;

verus! {

/// What all position types share: each stands for a natural number.
pub trait Position: Copy {
    /// The number that the position stands for.
    spec fn pos(self) -> int;

    /// The position that stands for `p`.
    fn at(p: usize) -> (r: Self)
        ensures
            r.pos() == p;

    /// The number that the position stands for.
    fn index(self) -> (r: usize)
        ensures
            r == self.pos();
}

/// The numbers that a sequence of positions stands for.
pub open spec fn positions<T: Position>(s: Seq<T>) -> Seq<int> {
    Seq::new(s.len(), |i: int| s[i].pos())
}

/// The position of an output file among the files that a script declares.
#[derive(Clone, Copy, Debug, PartialEq, Eq, PartialOrd, Ord, Structural)]
pub struct OutFileIdx(pub usize);

impl OutFileIdx {
    pub fn new(inner: usize) -> (r: Self)
        ensures
            r.0 == inner,
    {
        Self(inner)
    }

    pub fn get(self) -> (r: usize)
        ensures
            r == self.0,
    {
        self.0
    }

    /// The position in decimal digits.
    pub fn to_string(&self) -> (r: String)
        ensures r@ == crate::decimal::decimal(self.0 as nat),
    { crate::decimal::decimal_string(self.0) }
}

impl Position for OutFileIdx {
    open spec fn pos(self) -> int {
        self.0 as int
    }

    fn at(p: usize) -> (r: Self) {
        Self(p)
    }

    fn index(self) -> (r: usize) {
        self.0
    }
}

/// The position of a memory region among the regions that a script declares.
#[derive(Clone, Copy, Debug, PartialEq, Eq, PartialOrd, Ord, Structural)]
pub struct MemIdx(pub usize);

impl MemIdx {
    pub fn new(inner: usize) -> (r: Self)
        ensures
            r.0 == inner,
    {
        Self(inner)
    }

    pub fn get(self) -> (r: usize)
        ensures
            r == self.0,
    {
        self.0
    }

    /// The position in decimal digits.
    pub fn to_string(&self) -> (r: String)
        ensures r@ == crate::decimal::decimal(self.0 as nat),
    { crate::decimal::decimal_string(self.0) }
}

impl Position for MemIdx {
    open spec fn pos(self) -> int {
        self.0 as int
    }

    fn at(p: usize) -> (r: Self) {
        Self(p)
    }

    fn index(self) -> (r: usize) {
        self.0
    }
}

/// The position of a segment among the segments that a script declares.
#[derive(Clone, Copy, Debug, PartialEq, Eq, PartialOrd, Ord, Structural)]
pub struct SegIdx(pub usize);

impl SegIdx {
    pub fn new(inner: usize) -> (r: Self)
        ensures
            r.0 == inner,
    {
        Self(inner)
    }

    pub fn get(self) -> (r: usize)
        ensures
            r == self.0,
    {
        self.0
    }

    /// The position in decimal digits.
    pub fn to_string(&self) -> (r: String)
        ensures r@ == crate::decimal::decimal(self.0 as nat),
    { crate::decimal::decimal_string(self.0) }
}

impl Position for SegIdx {
    open spec fn pos(self) -> int {
        self.0 as int
    }

    fn at(p: usize) -> (r: Self) {
        Self(p)
    }

    fn index(self) -> (r: usize) {
        self.0
    }
}

/// The position of a section among the placed sections of all objects.
#[derive(Clone, Copy, Debug, PartialEq, Eq, PartialOrd, Ord, Structural)]
pub struct SectIdx(pub usize);

impl SectIdx {
    pub fn new(inner: usize) -> (r: Self)
        ensures
            r.0 == inner,
    {
        Self(inner)
    }

    pub fn get(self) -> (r: usize)
        ensures
            r == self.0,
    {
        self.0
    }

    /// The position in decimal digits.
    pub fn to_string(&self) -> (r: String)
        ensures r@ == crate::decimal::decimal(self.0 as nat),
    { crate::decimal::decimal_string(self.0) }
}

impl Position for SectIdx {
    open spec fn pos(self) -> int {
        self.0 as int
    }

    fn at(p: usize) -> (r: Self) {
        Self(p)
    }

    fn index(self) -> (r: usize) {
        self.0
    }
}

/// The position of an object among the objects that are linked.
#[derive(Clone, Copy, Debug, PartialEq, Eq, PartialOrd, Ord, Structural)]
pub struct ObjIdx(pub usize);

impl ObjIdx {
    pub fn new(inner: usize) -> (r: Self)
        ensures
            r.0 == inner,
    {
        Self(inner)
    }

    pub fn get(self) -> (r: usize)
        ensures
            r == self.0,
    {
        self.0
    }

    /// The position in decimal digits.
    pub fn to_string(&self) -> (r: String)
        ensures r@ == crate::decimal::decimal(self.0 as nat),
    { crate::decimal::decimal_string(self.0) }
}

impl Position for ObjIdx {
    open spec fn pos(self) -> int {
        self.0 as int
    }

    fn at(p: usize) -> (r: Self) {
        Self(p)
    }

    fn index(self) -> (r: usize) {
        self.0
    }
}

/// The position of a section in the section table of its object.
#[derive(Clone, Copy, Debug, PartialEq, Eq, PartialOrd, Ord, Structural)]
pub struct ObjSectIdx(pub usize);

impl ObjSectIdx {
    pub fn new(inner: usize) -> (r: Self)
        ensures
            r.0 == inner,
    {
        Self(inner)
    }

    pub fn get(self) -> (r: usize)
        ensures
            r == self.0,
    {
        self.0
    }

    /// The position in decimal digits.
    pub fn to_string(&self) -> (r: String)
        ensures r@ == crate::decimal::decimal(self.0 as nat),
    { crate::decimal::decimal_string(self.0) }
}

impl Position for ObjSectIdx {
    open spec fn pos(self) -> int {
        self.0 as int
    }

    fn at(p: usize) -> (r: Self) {
        Self(p)
    }

    fn index(self) -> (r: usize) {
        self.0
    }
}

/// The position of an import in the import table of its object.
#[derive(Clone, Copy, Debug, PartialEq, Eq, PartialOrd, Ord, Structural)]
pub struct ObjImportIdx(pub usize);

impl ObjImportIdx {
    pub fn new(inner: usize) -> (r: Self)
        ensures
            r.0 == inner,
    {
        Self(inner)
    }

    pub fn get(self) -> (r: usize)
        ensures
            r == self.0,
    {
        self.0
    }

    /// The position in decimal digits.
    pub fn to_string(&self) -> (r: String)
        ensures r@ == crate::decimal::decimal(self.0 as nat),
    { crate::decimal::decimal_string(self.0) }
}

impl Position for ObjImportIdx {
    open spec fn pos(self) -> int {
        self.0 as int
    }

    fn at(p: usize) -> (r: Self) {
        Self(p)
    }

    fn index(self) -> (r: usize) {
        self.0
    }
}

/// The position of a string in the string table of its object.
#[derive(Clone, Copy, Debug, PartialEq, Eq, PartialOrd, Ord, Structural)]
pub struct ObjStrIdx(pub usize);

impl ObjStrIdx {
    pub fn new(inner: usize) -> (r: Self)
        ensures
            r.0 == inner,
    {
        Self(inner)
    }

    pub fn get(self) -> (r: usize)
        ensures
            r == self.0,
    {
        self.0
    }

    /// The position in decimal digits.
    pub fn to_string(&self) -> (r: String)
        ensures r@ == crate::decimal::decimal(self.0 as nat),
    { crate::decimal::decimal_string(self.0) }
}

impl Position for ObjStrIdx {
    open spec fn pos(self) -> int {
        self.0 as int
    }

    fn at(p: usize) -> (r: Self) {
        Self(p)
    }

    fn index(self) -> (r: usize) {
        self.0
    }
}

} // verus!
