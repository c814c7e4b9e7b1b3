//! Object modules: the tables that one compiled source file contributes.

use vstd::prelude::*;
use crate::expr::Expr;
use crate::index::{ObjImportIdx, ObjSectIdx, ObjStrIdx};

verus! {

/// One piece of the content of a section.
#[derive(Debug)]
pub enum Fragment {
    /// Bytes that are copied as they are.
    Literal(Vec<u8>),
    /// A run of fill bytes of the given length.
    Fill(u32),
    ExprU8(Expr),
    ExprU16(Expr),
    ExprU24(Expr),
    ExprU32(Expr),
    ExprI8(Expr),
    ExprI16(Expr),
    ExprI24(Expr),
    ExprI32(Expr),
}

/// A section of an object: a run of bytes destined for one segment.
#[derive(Debug)]
pub struct Section {
    /// The name of the segment, as a position in the string table.
    pub segment_name: u32,
    /// The number of addresses that the section takes.
    pub len: u32,
    /// The alignment that the section asks for.
    pub align: u32,
    pub fragments: Vec<Fragment>,
}

/// A symbol that an object uses and another object defines.
#[derive(Clone, Copy, Debug)]
pub struct Import {
    /// The name of the symbol, as a position in the string table.
    pub name: u32,
    pub addr_size: u8,
}

/// A symbol that an object defines.
#[derive(Debug)]
pub struct Export {
    /// The name of the symbol, as a position in the string table.
    pub name: u32,
    pub addr_size: u8,
    pub expr: Expr,
}

/// The tables of one object module, with the name it is reported under.
#[derive(Debug)]
pub struct Object {
    name: String,
    strings: Vec<String>,
    sections: Vec<Section>,
    imports: Vec<Import>,
    exports: Vec<Export>,
}

/// Every name in the tables is a position in the string table.
pub open spec fn names_in_range(
    strings: Seq<String>,
    sections: Seq<Section>,
    imports: Seq<Import>,
    exports: Seq<Export>,
) -> bool {
    &&& forall|i: int| 0 <= i < sections.len() ==> (#[trigger] sections[i]).segment_name < strings.len()
    &&& forall|i: int| 0 <= i < imports.len() ==> (#[trigger] imports[i]).name < strings.len()
    &&& forall|i: int| 0 <= i < exports.len() ==> (#[trigger] exports[i]).name < strings.len()
}

impl Object {
    pub closed spec fn spec_name(&self) -> Seq<char> {
        self.name@
    }

    pub closed spec fn strings(&self) -> Seq<String> {
        self.strings@
    }

    pub closed spec fn sections(&self) -> Seq<Section> {
        self.sections@
    }

    pub closed spec fn imports(&self) -> Seq<Import> {
        self.imports@
    }

    pub closed spec fn exports(&self) -> Seq<Export> {
        self.exports@
    }

    /// The invariant of an object: its names are positions in its string table.
    pub open spec fn wf(&self) -> bool {
        names_in_range(self.strings(), self.sections(), self.imports(), self.exports())
    }

    /// The name of the segment that a section is destined for.
    pub open spec fn segment_name_of(&self, i: int) -> Seq<char> {
        self.strings()[self.sections()[i].segment_name as int]@
    }

    /// The name of an import.
    pub open spec fn import_name_of(&self, i: int) -> Seq<char> {
        self.strings()[self.imports()[i].name as int]@
    }

    /// The name of an export.
    pub open spec fn export_name_of(&self, i: int) -> Seq<char> {
        self.strings()[self.exports()[i].name as int]@
    }

    /// Builds an object from its tables. `None` is returned exactly when some
    /// name of a section, an import or an export is no position in `strings`.
    pub fn new(
        name: String,
        strings: Vec<String>,
        sections: Vec<Section>,
        imports: Vec<Import>,
        exports: Vec<Export>,
    ) -> (r: Option<Self>)
        ensures
            r is Some <==> names_in_range(strings@, sections@, imports@, exports@),
            r matches Some(o) ==> {
                &&& o.wf()
                &&& o.spec_name() == name@
                &&& o.strings() == strings@
                &&& o.sections() == sections@
                &&& o.imports() == imports@
                &&& o.exports() == exports@
            },
    {
        let n = strings.len();
        let mut i: usize = 0;
        while i < sections.len()
            invariant
                i <= sections.len(),
                n == strings.len(),
                forall|k: int| 0 <= k < i ==> (#[trigger] sections[k]).segment_name < n,
            decreases sections.len() - i,
        {
            if sections[i].segment_name as usize >= n {
                return None;
            }
            i += 1;
        }
        let mut i: usize = 0;
        while i < imports.len()
            invariant
                i <= imports.len(),
                n == strings.len(),
                forall|k: int| 0 <= k < i ==> (#[trigger] imports[k]).name < n,
            decreases imports.len() - i,
        {
            if imports[i].name as usize >= n {
                return None;
            }
            i += 1;
        }
        let mut i: usize = 0;
        while i < exports.len()
            invariant
                i <= exports.len(),
                n == strings.len(),
                forall|k: int| 0 <= k < i ==> (#[trigger] exports[k]).name < n,
            decreases exports.len() - i,
        {
            if exports[i].name as usize >= n {
                return None;
            }
            i += 1;
        }
        Some(Self { name, strings, sections, imports, exports })
    }

    pub fn name(&self) -> (r: &str)
        ensures
            r@ == self.spec_name(),
    {
        self.name.as_str()
    }

    pub fn section_count(&self) -> (r: usize)
        ensures
            r == self.sections().len(),
    {
        self.sections.len()
    }

    pub fn import_count(&self) -> (r: usize)
        ensures
            r == self.imports().len(),
    {
        self.imports.len()
    }

    pub fn export_count(&self) -> (r: usize)
        ensures
            r == self.exports().len(),
    {
        self.exports.len()
    }

    pub fn section(&self, i: ObjSectIdx) -> (r: &Section)
        requires
            i.0 < self.sections().len(),
        ensures
            *r == self.sections()[i.0 as int],
    {
        &self.sections[i.0]
    }

    pub fn import(&self, i: ObjImportIdx) -> (r: &Import)
        requires
            i.0 < self.imports().len(),
        ensures
            *r == self.imports()[i.0 as int],
    {
        &self.imports[i.0]
    }

    pub fn export(&self, i: usize) -> (r: &Export)
        requires
            i < self.exports().len(),
        ensures
            *r == self.exports()[i as int],
    {
        &self.exports[i]
    }

    /// The sections in the order of the table, each with its position.
    pub fn enumerate_sections(&self) -> (r: Vec<(ObjSectIdx, &Section)>)
        ensures
            r@.len() == self.sections().len(),
            forall|i: int| 0 <= i < r@.len() ==> (#[trigger] r@[i]).0.0 == i && *r@[i].1 == self.sections()[i],
    {
        let mut r: Vec<(ObjSectIdx, &Section)> = Vec::new();
        let mut i: usize = 0;
        while i < self.sections.len()
            invariant
                i <= self.sections.len(),
                r@.len() == i,
                forall|k: int| 0 <= k < i ==> (#[trigger] r@[k]).0.0 == k && *r@[k].1 == self.sections@[k],
            decreases self.sections.len() - i,
        {
            r.push((ObjSectIdx::new(i), &self.sections[i]));
            i += 1;
        }
        r
    }

    pub fn query_segment_name(&self, i: ObjSectIdx) -> (r: &str)
        requires
            self.wf(),
            i.0 < self.sections().len(),
        ensures
            r@ == self.segment_name_of(i.0 as int),
    {
        let s = &self.sections[i.0];
        self.query_string(ObjStrIdx::new(s.segment_name as usize))
    }

    pub fn query_import_name(&self, i: ObjImportIdx) -> (r: &str)
        requires
            self.wf(),
            i.0 < self.imports().len(),
        ensures
            r@ == self.import_name_of(i.0 as int),
    {
        let s = &self.imports[i.0];
        self.query_string(ObjStrIdx::new(s.name as usize))
    }

    pub fn query_export_name(&self, i: usize) -> (r: &str)
        requires
            self.wf(),
            i < self.exports().len(),
        ensures
            r@ == self.export_name_of(i as int),
    {
        let s = &self.exports[i];
        self.query_string(ObjStrIdx::new(s.name as usize))
    }

    pub fn query_string(&self, i: ObjStrIdx) -> (r: &str)
        requires
            i.0 < self.strings().len(),
        ensures
            r@ == self.strings()[i.0 as int]@,
    {
        self.strings[i.0].as_str()
    }
}

} // verus!
