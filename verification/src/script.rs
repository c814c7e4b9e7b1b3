//! The placement script: output files, memory regions and segments.

use vstd::prelude::*;
use crate::index::{MemIdx, OutFileIdx, SegIdx};
use crate::range::NonemptyRange;
use crate::script::ast::Script;
use crate::script::eval::{EvalState, ScriptError, ScriptErrorKind, eval, eval_spec, state_of};
use crate::script::parse::parse;

pub mod ast;
pub mod eval;
pub mod parse;
pub mod text;

verus! {

/// Where a segment starts in its memory region.
#[derive(Clone, Copy, Debug, PartialEq, Eq, Structural)]
pub enum LinkScriptSegmentStart {
    /// Right after what was placed before it.
    Unspecified,
    /// At this address.
    Addr(usize),
    /// At a multiple of this number.
    Align(usize),
}

/// A memory region that a script declares.
#[derive(Debug)]
pub struct LinkScriptMemory {
    pub name: String,
    pub range: NonemptyRange,
    /// The region is written out in full, padded with the fill byte.
    pub filled: bool,
    pub fill_byte: u8,
    /// The output file that the region is written to.
    pub outfile_i: OutFileIdx,
}

impl LinkScriptMemory {
    /// The range is ordered and its length is a `usize`.
    pub open spec fn wf(&self) -> bool {
        self.range.wf() && self.range.spec_len() <= usize::MAX
    }

    /// The number of addresses in the region.
    pub open spec fn capacity(&self) -> int {
        self.range.spec_len()
    }

    /// A region that is not filled, with fill byte 0, written to the main
    /// output file.
    pub fn new(name: String, range: NonemptyRange) -> (r: Self)
        ensures
            r.name == name,
            r.range == range,
            !r.filled,
            r.fill_byte == 0,
            r.outfile_i == OutFileIdx(0),
    {
        Self { name, range, filled: false, fill_byte: 0, outfile_i: OutFileIdx::new(0) }
    }

    pub fn name(&self) -> (r: &str)
        ensures
            r@ == self.name@,
    {
        self.name.as_str()
    }

    pub fn range(&self) -> (r: NonemptyRange)
        ensures
            r == self.range,
    {
        self.range
    }

    pub fn start(&self) -> (r: usize)
        ensures
            r == self.range.spec_min(),
    {
        self.range.min()
    }

    pub fn len(&self) -> (r: usize)
        requires
            self.wf(),
        ensures
            r == self.capacity(),
    {
        self.range.len()
    }

    pub fn is_filled(&self) -> (r: bool)
        ensures
            r == self.filled,
    {
        self.filled
    }

    pub fn fill_byte(&self) -> (r: u8)
        ensures
            r == self.fill_byte,
    {
        self.fill_byte
    }

    pub fn outfile_idx(&self) -> (r: OutFileIdx)
        ensures
            r == self.outfile_i,
    {
        self.outfile_i
    }
}

/// A segment that a script declares.
#[derive(Debug)]
pub struct LinkScriptSegment {
    pub name: String,
    pub start: LinkScriptSegmentStart,
    /// The segment takes addresses and gives no bytes.
    pub bss: bool,
    /// The fill byte of the segment, where it differs from that of its region.
    pub fill_byte: Option<u8>,
    /// The memory region that the segment is loaded into.
    pub mem_i: MemIdx,
}

impl LinkScriptSegment {
    /// A segment with no start of its own, not BSS, with the fill byte of its
    /// region.
    pub fn new(name: String, mem_i: MemIdx) -> (r: Self)
        ensures
            r.name == name,
            r.start == LinkScriptSegmentStart::Unspecified,
            !r.bss,
            r.fill_byte is None,
            r.mem_i == mem_i,
    {
        Self { name, start: LinkScriptSegmentStart::Unspecified, bss: false, fill_byte: None, mem_i }
    }

    pub fn name(&self) -> (r: &str)
        ensures
            r@ == self.name@,
    {
        self.name.as_str()
    }

    pub fn start(&self) -> (r: LinkScriptSegmentStart)
        ensures
            r == self.start,
    {
        self.start
    }

    pub fn is_bss(&self) -> (r: bool)
        ensures
            r == self.bss,
    {
        self.bss
    }

    pub fn fill_byte(&self) -> (r: Option<u8>)
        ensures
            r == self.fill_byte,
    {
        self.fill_byte
    }

    pub fn memory_idx(&self) -> (r: MemIdx)
        ensures
            r == self.mem_i,
    {
        self.mem_i
    }
}

/// A memory region as a value.
pub struct MemoryView {
    pub name: Seq<char>,
    pub range: NonemptyRange,
    pub filled: bool,
    pub fill_byte: u8,
    pub outfile_i: OutFileIdx,
}

/// A segment as a value.
pub struct SegmentView {
    pub name: Seq<char>,
    pub start: LinkScriptSegmentStart,
    pub bss: bool,
    pub fill_byte: Option<u8>,
    pub mem_i: MemIdx,
}

impl View for LinkScriptMemory {
    type V = MemoryView;

    open spec fn view(&self) -> MemoryView {
        MemoryView {
            name: self.name@,
            range: self.range,
            filled: self.filled,
            fill_byte: self.fill_byte,
            outfile_i: self.outfile_i,
        }
    }
}

impl View for LinkScriptSegment {
    type V = SegmentView;

    open spec fn view(&self) -> SegmentView {
        SegmentView {
            name: self.name@,
            start: self.start,
            bss: self.bss,
            fill_byte: self.fill_byte,
            mem_i: self.mem_i,
        }
    }
}

/// An evaluated script.
#[derive(Debug)]
pub struct LinkScript {
    outfiles: Vec<String>,
    mems: Vec<LinkScriptMemory>,
    segs: Vec<LinkScriptSegment>,
}

/// Every region is well formed and names a file of `n_files`; every segment
/// names one of the regions.
pub open spec fn script_parts_wf(
    n_files: nat,
    mems: Seq<LinkScriptMemory>,
    segs: Seq<LinkScriptSegment>,
) -> bool {
    &&& forall|m: int| 0 <= m < mems.len() ==> (#[trigger] mems[m]).wf() && mems[m].outfile_i.0 < n_files
    &&& forall|g: int| 0 <= g < segs.len() ==> (#[trigger] segs[g]).mem_i.0 < mems.len()
}

impl LinkScript {
    pub closed spec fn outfiles(&self) -> Seq<String> {
        self.outfiles@
    }

    pub closed spec fn mems(&self) -> Seq<LinkScriptMemory> {
        self.mems@
    }

    pub closed spec fn segs(&self) -> Seq<LinkScriptSegment> {
        self.segs@
    }

    /// The invariant of a script.
    pub open spec fn wf(&self) -> bool {
        script_parts_wf(self.outfiles().len(), self.mems(), self.segs())
    }

    /// Builds a script from its parts. `None` is returned exactly when a region
    /// is malformed or names no file, or a segment names no region.
    pub fn new(
        outfiles: Vec<String>,
        mems: Vec<LinkScriptMemory>,
        segs: Vec<LinkScriptSegment>,
    ) -> (r: Option<Self>)
        ensures
            r is Some <==> script_parts_wf(outfiles@.len(), mems@, segs@),
            r matches Some(s) ==> s.wf() && s.outfiles() == outfiles@ && s.mems() == mems@ && s.segs()
                == segs@,
    {
        let mut m: usize = 0;
        while m < mems.len()
            invariant
                m <= mems.len(),
                forall|k: int| 0 <= k < m ==> (#[trigger] mems[k]).wf() && mems[k].outfile_i.0 < outfiles.len(),
            decreases mems.len() - m,
        {
            let range = mems[m].range;
            if range.min() > range.max() || (range.min() == 0 && range.max() == usize::MAX)
                || mems[m].outfile_i.0 >= outfiles.len() {
                return None;
            }
            m += 1;
        }
        let mut g: usize = 0;
        while g < segs.len()
            invariant
                g <= segs.len(),
                forall|k: int| 0 <= k < g ==> (#[trigger] segs[k]).mem_i.0 < mems.len(),
            decreases segs.len() - g,
        {
            if segs[g].mem_i.0 >= mems.len() {
                return None;
            }
            g += 1;
        }
        Some(Self { outfiles, mems, segs })
    }

    /// Reads a script from its text and evaluates it, for a main output file
    /// of that name.
    pub fn load(script: &str, main_outfile: &str) -> (r: Result<Self, ScriptError>)
        ensures
            match r {
                Ok(s) => s.wf() && exists|ast: &Script| #[trigger]
                    parse::script(script@) == Some(ast.deep_view()) && eval_spec(
                        ast,
                        main_outfile@,
                    ) == Ok::<EvalState, ScriptError>(state_of(&s)),
                Err(e) => {
                    ||| parse::script(script@) is None && e == ScriptError::of_script(
                        ScriptErrorKind::Syntax,
                    )
                    ||| exists|ast: &Script| #[trigger]
                        parse::script(script@) == Some(ast.deep_view()) && eval_spec(
                            ast,
                            main_outfile@,
                        ) == Err::<EvalState, ScriptError>(e)
                },
            },
    {
        let ast = match parse(script) {
            Ok(ast) => ast,
            Err(e) => {
                return Err(e);
            },
        };
        match eval(&ast, main_outfile) {
            Ok(s) => {
                assert(parse::script(script@) == Some((&ast).deep_view()));
                Ok(s)
            },
            Err(e) => {
                assert(parse::script(script@) == Some((&ast).deep_view()));
                Err(e)
            },
        }
    }

    /// Puts a script together from parts that fit.
    pub(crate) fn assemble(
        outfiles: Vec<String>,
        mems: Vec<LinkScriptMemory>,
        segs: Vec<LinkScriptSegment>,
    ) -> (r: Self)
        requires
            script_parts_wf(outfiles@.len(), mems@, segs@),
        ensures
            r.wf(),
            r.outfiles() == outfiles@,
            r.mems() == mems@,
            r.segs() == segs@,
    {
        Self { outfiles, mems, segs }
    }

    pub fn outfile_count(&self) -> (r: usize)
        ensures
            r == self.outfiles().len(),
    {
        self.outfiles.len()
    }

    /// The names of the output files, in the order of their declaration.
    pub fn iter_outfiles(&self) -> (r: Vec<&str>)
        ensures
            r@.len() == self.outfiles().len(),
            forall|i: int| 0 <= i < r@.len() ==> (#[trigger] r@[i])@ == self.outfiles()[i]@,
    {
        let mut r: Vec<&str> = Vec::new();
        let mut i: usize = 0;
        while i < self.outfiles.len()
            invariant
                i <= self.outfiles.len(),
                r@.len() == i,
                forall|k: int| 0 <= k < i ==> (#[trigger] r@[k])@ == self.outfiles@[k]@,
            decreases self.outfiles.len() - i,
        {
            r.push(self.outfiles[i].as_str());
            i += 1;
        }
        r
    }

    /// The names of the output files, each with its position.
    pub fn enumerate_outfiles(&self) -> (r: Vec<(OutFileIdx, &str)>)
        ensures
            r@.len() == self.outfiles().len(),
            forall|i: int| 0 <= i < r@.len() ==> (#[trigger] r@[i]).0.0 == i && r@[i].1@ == self.outfiles()[i]@,
    {
        let mut r: Vec<(OutFileIdx, &str)> = Vec::new();
        let mut i: usize = 0;
        while i < self.outfiles.len()
            invariant
                i <= self.outfiles.len(),
                r@.len() == i,
                forall|k: int| 0 <= k < i ==> (#[trigger] r@[k]).0.0 == k && r@[k].1@ == self.outfiles@[k]@,
            decreases self.outfiles.len() - i,
        {
            r.push((OutFileIdx::new(i), self.outfiles[i].as_str()));
            i += 1;
        }
        r
    }

    pub fn outfile(&self, outfile_i: OutFileIdx) -> (r: &str)
        requires
            outfile_i.0 < self.outfiles().len(),
        ensures
            r@ == self.outfiles()[outfile_i.0 as int]@,
    {
        self.outfiles[outfile_i.0].as_str()
    }

    pub fn memory_count(&self) -> (r: usize)
        ensures
            r == self.mems().len(),
    {
        self.mems.len()
    }

    /// The memory regions, in the order of their declaration.
    pub fn iter_memorys(&self) -> (r: &[LinkScriptMemory])
        ensures
            r@ == self.mems(),
    {
        self.mems.as_slice()
    }

    /// The memory regions, each with its position.
    pub fn enumerate_memorys(&self) -> (r: Vec<(MemIdx, &LinkScriptMemory)>)
        ensures
            r@.len() == self.mems().len(),
            forall|i: int| 0 <= i < r@.len() ==> (#[trigger] r@[i]).0.0 == i && *r@[i].1 == self.mems()[i],
    {
        let mut r: Vec<(MemIdx, &LinkScriptMemory)> = Vec::new();
        let mut i: usize = 0;
        while i < self.mems.len()
            invariant
                i <= self.mems.len(),
                r@.len() == i,
                forall|k: int| 0 <= k < i ==> (#[trigger] r@[k]).0.0 == k && *r@[k].1 == self.mems@[k],
            decreases self.mems.len() - i,
        {
            r.push((MemIdx::new(i), &self.mems[i]));
            i += 1;
        }
        r
    }

    pub fn memory(&self, mem_i: MemIdx) -> (r: &LinkScriptMemory)
        requires
            mem_i.0 < self.mems().len(),
        ensures
            *r == self.mems()[mem_i.0 as int],
    {
        &self.mems[mem_i.0]
    }

    pub fn segment_count(&self) -> (r: usize)
        ensures
            r == self.segs().len(),
    {
        self.segs.len()
    }

    /// The segments, in the order of their declaration.
    pub fn iter_segments(&self) -> (r: &[LinkScriptSegment])
        ensures
            r@ == self.segs(),
    {
        self.segs.as_slice()
    }

    /// The segments, each with its position.
    pub fn enumerate_segments(&self) -> (r: Vec<(SegIdx, &LinkScriptSegment)>)
        ensures
            r@.len() == self.segs().len(),
            forall|i: int| 0 <= i < r@.len() ==> (#[trigger] r@[i]).0.0 == i && *r@[i].1 == self.segs()[i],
    {
        let mut r: Vec<(SegIdx, &LinkScriptSegment)> = Vec::new();
        let mut i: usize = 0;
        while i < self.segs.len()
            invariant
                i <= self.segs.len(),
                r@.len() == i,
                forall|k: int| 0 <= k < i ==> (#[trigger] r@[k]).0.0 == k && *r@[k].1 == self.segs@[k],
            decreases self.segs.len() - i,
        {
            r.push((SegIdx::new(i), &self.segs[i]));
            i += 1;
        }
        r
    }

    pub fn segment(&self, seg_i: SegIdx) -> (r: &LinkScriptSegment)
        requires
            seg_i.0 < self.segs().len(),
        ensures
            *r == self.segs()[seg_i.0 as int],
    {
        &self.segs[seg_i.0]
    }
}

} // verus!
