//! The evaluation of a syntax tree to a script.

use vstd::prelude::*;
use indexmap::IndexSet;
use crate::index::{MemIdx, OutFileIdx};
use crate::names::{name_set_index_of, name_set_insert, name_set_new, names_of};
use crate::range::NonemptyRange;
use crate::script::ast::{Attribute, Block, Element, Script, Value};
use crate::script::text::{ascii_lowercase, is_word, lower_ascii};
use crate::script::{
    LinkScript, LinkScriptMemory, LinkScriptSegment, LinkScriptSegmentStart, MemoryView, SegmentView,
};

verus! {

/// What is wrong with a script.
#[derive(Clone, Copy, Debug, PartialEq, Eq, Structural)]
pub enum ScriptErrorKind {
    /// The text is no script.
    Syntax,
    /// Two blocks carry one name.
    DuplicateBlock,
    /// Two elements of a block carry one name.
    DuplicateElement,
    /// Two attributes of an element carry one key.
    DuplicateAttribute,
    /// The block is neither `memory` nor `segments`.
    UnknownBlock,
    /// The value of the attribute is of the wrong kind, or too large.
    InvalidValue,
    /// The type is none that the element can have.
    InvalidType,
    /// The attribute is known and not supported.
    UnsupportedAttribute,
    /// The attribute is not known.
    UnknownAttribute,
    /// A memory region has no start address.
    MissingStart,
    /// A memory region has no size.
    MissingSize,
    /// A memory region has the size 0.
    ZeroSize,
    /// The addresses of a memory region leave the range of `usize`.
    RangeOverflow,
    /// The name of an output file is empty.
    EmptyOutputName,
    /// A segment is loaded into a memory region that is not declared.
    UnknownMemory,
    /// A segment names no memory region to be loaded into.
    MissingLoad,
    /// The segment type `overwrite` is not supported.
    UnsupportedSegmentType,
    /// A segment has more than one of `start` and `align`.
    StartTwice,
    /// The start address of a segment lies outside its memory region.
    StartOutOfMemory,
}

/// An error of a script, with the place where it was found: the positions of
/// the block, of the element in the block and of the attribute in the
/// element, as far as the error lies in one.
#[derive(Clone, Copy, Debug, PartialEq, Eq)]
pub struct ScriptError {
    pub kind: ScriptErrorKind,
    pub block: Option<usize>,
    pub elem: Option<usize>,
    pub attr: Option<usize>,
}

/// The position of the first text that stands in the sequence before, if
/// any text stands twice.
pub open spec fn is_first_repeat(names: Seq<Seq<char>>, j: int) -> bool {
    &&& 0 <= j < names.len()
    &&& names.take(j).contains(names[j])
    &&& names.take(j).no_duplicates()
}

/// Finds the first name that stands in the list before.
pub fn find_dup_str(names: &Vec<&str>) -> (r: Option<usize>)
    ensures
        match r {
            Some(j) => is_first_repeat(Seq::new(names@.len(), |i: int| names@[i]@), j as int),
            None => Seq::new(names@.len(), |i: int| names@[i]@).no_duplicates(),
        },
{
    let ghost texts = Seq::new(names@.len(), |i: int| names@[i]@);
    let mut seen = name_set_new();
    let mut j: usize = 0;
    assert(texts.take(0) =~= Seq::<Seq<char>>::empty());
    while j < names.len()
        invariant
            j <= names@.len(),
            texts == Seq::new(names@.len(), |i: int| names@[i]@),
            names_of(seen) == texts.take(j as int),
            texts.take(j as int).no_duplicates(),
        decreases names@.len() - j,
    {
        let (_, fresh) = name_set_insert(&mut seen, names[j]);
        if !fresh {
            return Some(j);
        }
        proof {
            assert(texts.take(j + 1) =~= texts.take(j as int).push(texts[j as int]));
            let longer = texts.take(j + 1);
            assert forall|a: int, b: int| 0 <= a < longer.len() && 0 <= b < longer.len() && a != b implies longer[a]
                != longer[b] by {
                if a < j && b < j {
                    assert(texts.take(j as int)[a] != texts.take(j as int)[b]);
                } else if a < j {
                    assert(texts.take(j as int).contains(texts.take(j as int)[a]));
                } else {
                    assert(texts.take(j as int).contains(texts.take(j as int)[b]));
                }
            }
        }
        j += 1;
    }
    assert(texts.take(texts.len() as int) =~= texts);
    None
}

impl ScriptError {
    /// An error that lies in no block.
    pub open spec fn of_script(kind: ScriptErrorKind) -> ScriptError {
        ScriptError { kind, block: None, elem: None, attr: None }
    }

    /// An error of block `b`, as far as given of element `e` and attribute `a`.
    pub open spec fn at(kind: ScriptErrorKind, b: int, e: Option<int>, a: Option<int>) -> ScriptError {
        ScriptError {
            kind,
            block: Some(b as usize),
            elem: match e {
                Some(e) => Some(e as usize),
                None => None,
            },
            attr: match a {
                Some(a) => Some(a as usize),
                None => None,
            },
        }
    }
}

/// The position of the first text that stands in the sequence before.
pub open spec fn first_repeat(names: Seq<Seq<char>>) -> Option<int> {
    if exists|j: int| is_first_repeat(names, j) {
        Some(choose|j: int| is_first_repeat(names, j))
    } else {
        None
    }
}

proof fn lemma_first_repeat(names: Seq<Seq<char>>, j: int)
    requires
        is_first_repeat(names, j),
    ensures
        first_repeat(names) == Some(j),
{
    let k = choose|k: int| is_first_repeat(names, k);
    if k < j {
        let i = choose|i: int| 0 <= i < names.take(k).len() && names.take(k)[i] == names[k];
        assert(names.take(j)[i] == names.take(j)[k]);
    } else if j < k {
        let i = choose|i: int| 0 <= i < names.take(j).len() && names.take(j)[i] == names[j];
        assert(names.take(k)[i] == names.take(k)[j]);
    }
}

proof fn lemma_no_repeat(names: Seq<Seq<char>>)
    requires
        names.no_duplicates(),
    ensures
        first_repeat(names) is None,
{
    if exists|j: int| is_first_repeat(names, j) {
        let j = choose|j: int| is_first_repeat(names, j);
        let i = choose|i: int| 0 <= i < names.take(j).len() && names.take(j)[i] == names[j];
        assert(names[i] == names[j]);
    }
}

/// The names of the blocks of a script.
pub open spec fn block_names(script: &Script) -> Seq<Seq<char>> {
    Seq::new(script.blocks@.len(), |b: int| script.blocks@[b].name@)
}

/// The names of the elements of a block.
pub open spec fn elem_names(block: &Block) -> Seq<Seq<char>> {
    Seq::new(block.elems@.len(), |e: int| block.elems@[e].name@)
}

/// The keys of the attributes of an element.
pub open spec fn attr_keys(elem: &Element) -> Seq<Seq<char>> {
    Seq::new(elem.attrs@.len(), |a: int| elem.attrs@[a].key@)
}

/// The first repeated key among the attributes of the first `n` elements of
/// block `b`.
pub open spec fn attr_dup_error(block: &Block, b: int, n: int) -> Option<ScriptError>
    decreases n,
{
    if n <= 0 {
        None
    } else {
        match attr_dup_error(block, b, n - 1) {
            Some(e) => Some(e),
            None => match first_repeat(attr_keys(&block.elems@[n - 1])) {
                Some(a) => Some(ScriptError::at(ScriptErrorKind::DuplicateAttribute, b, Some(n - 1), Some(a))),
                None => None,
            },
        }
    }
}

/// The first repetition in block `b`: of the name of an element, else of the
/// key of an attribute.
pub open spec fn block_dup_error(block: &Block, b: int) -> Option<ScriptError> {
    match first_repeat(elem_names(block)) {
        Some(e) => Some(ScriptError::at(ScriptErrorKind::DuplicateElement, b, Some(e), None)),
        None => attr_dup_error(block, b, block.elems@.len() as int),
    }
}

/// The first repetition in the first `n` blocks.
pub open spec fn blocks_dup_error(script: &Script, n: int) -> Option<ScriptError>
    decreases n,
{
    if n <= 0 {
        None
    } else {
        match blocks_dup_error(script, n - 1) {
            Some(e) => Some(e),
            None => block_dup_error(&script.blocks@[n - 1], n - 1),
        }
    }
}

/// The first repetition in a script: of the name of a block, else within the
/// blocks in their order.
pub open spec fn dup_error(script: &Script) -> Option<ScriptError> {
    match first_repeat(block_names(script)) {
        Some(b) => Some(ScriptError::at(ScriptErrorKind::DuplicateBlock, b, None, None)),
        None => blocks_dup_error(script, script.blocks@.len() as int),
    }
}

fn error_at(kind: ScriptErrorKind, b: usize, e: Option<usize>, a: Option<usize>) -> (r: ScriptError)
    ensures
        r == ScriptError::at(
            kind,
            b as int,
            match e {
                Some(e) => Some(e as int),
                None => None,
            },
            match a {
                Some(a) => Some(a as int),
                None => None,
            },
        ),
{
    ScriptError { kind, block: Some(b), elem: e, attr: a }
}

fn find_repeat(names: &Vec<&str>, Ghost(texts): Ghost<Seq<Seq<char>>>) -> (r: Option<usize>)
    requires
        texts =~= Seq::new(names@.len(), |i: int| names@[i]@),
    ensures
        match r {
            Some(j) => first_repeat(texts) == Some(j as int),
            None => first_repeat(texts) is None,
        },
{
    let r = find_dup_str(names);
    proof {
        match r {
            Some(j) => lemma_first_repeat(texts, j as int),
            None => lemma_no_repeat(texts),
        }
    }
    r
}

fn check_block_dup(block: &Block, b: usize) -> (r: Result<(), ScriptError>)
    ensures
        match r {
            Ok(_) => block_dup_error(block, b as int) is None,
            Err(e) => block_dup_error(block, b as int) == Some(e),
        },
{
    let mut names: Vec<&str> = Vec::new();
    let mut i: usize = 0;
    while i < block.elems.len()
        invariant
            i <= block.elems@.len(),
            names@.len() == i,
            forall|k: int| 0 <= k < i ==> (#[trigger] names@[k])@ == block.elems@[k].name@,
        decreases block.elems@.len() - i,
    {
        names.push(block.elems[i].name.as_str());
        i += 1;
    }
    if let Some(e) = find_repeat(&names, Ghost(elem_names(block))) {
        return Err(error_at(ScriptErrorKind::DuplicateElement, b, Some(e), None));
    }
    let mut e: usize = 0;
    while e < block.elems.len()
        invariant
            e <= block.elems@.len(),
            first_repeat(elem_names(block)) is None,
            attr_dup_error(block, b as int, e as int) is None,
        decreases block.elems@.len() - e,
    {
        let elem = &block.elems[e];
        let mut keys: Vec<&str> = Vec::new();
        let mut i: usize = 0;
        while i < elem.attrs.len()
            invariant
                i <= elem.attrs@.len(),
                keys@.len() == i,
                forall|k: int| 0 <= k < i ==> (#[trigger] keys@[k])@ == elem.attrs@[k].key@,
            decreases elem.attrs@.len() - i,
        {
            keys.push(elem.attrs[i].key.as_str());
            i += 1;
        }
        if let Some(a) = find_repeat(&keys, Ghost(attr_keys(elem))) {
            proof {
                lemma_attr_dup_stays(block, b as int, e + 1, block.elems@.len() as int);
            }
            return Err(error_at(ScriptErrorKind::DuplicateAttribute, b, Some(e), Some(a)));
        }
        e += 1;
    }
    Ok(())
}

proof fn lemma_attr_dup_stays(block: &Block, b: int, a: int, n: int)
    requires
        a <= n,
        attr_dup_error(block, b, a) is Some,
    ensures
        attr_dup_error(block, b, n) == attr_dup_error(block, b, a),
    decreases n - a,
{
    if a < n {
        lemma_attr_dup_stays(block, b, a, n - 1);
    }
}

proof fn lemma_blocks_dup_stays(script: &Script, a: int, n: int)
    requires
        a <= n,
        blocks_dup_error(script, a) is Some,
    ensures
        blocks_dup_error(script, n) == blocks_dup_error(script, a),
    decreases n - a,
{
    if a < n {
        lemma_blocks_dup_stays(script, a, n - 1);
    }
}

/// Looks for names that stand twice: blocks of one name, elements of one
/// name in a block, attributes of one key in an element.
pub fn check_dup(script: &Script) -> (r: Result<(), ScriptError>)
    ensures
        match r {
            Ok(_) => dup_error(script) is None,
            Err(e) => dup_error(script) == Some(e),
        },
{
    let mut names: Vec<&str> = Vec::new();
    let mut i: usize = 0;
    while i < script.blocks.len()
        invariant
            i <= script.blocks@.len(),
            names@.len() == i,
            forall|k: int| 0 <= k < i ==> (#[trigger] names@[k])@ == script.blocks@[k].name@,
        decreases script.blocks@.len() - i,
    {
        names.push(script.blocks[i].name.as_str());
        i += 1;
    }
    if let Some(b) = find_repeat(&names, Ghost(block_names(script))) {
        return Err(error_at(ScriptErrorKind::DuplicateBlock, b, None, None));
    }
    let mut b: usize = 0;
    while b < script.blocks.len()
        invariant
            b <= script.blocks@.len(),
            first_repeat(block_names(script)) is None,
            blocks_dup_error(script, b as int) is None,
        decreases script.blocks@.len() - b,
    {
        match check_block_dup(&script.blocks[b], b) {
            Ok(_) => {},
            Err(e) => {
                proof {
                    lemma_blocks_dup_stays(script, b + 1, script.blocks@.len() as int);
                }
                return Err(e);
            },
        }
        b += 1;
    }
    Ok(())
}

/// What the evaluation has gathered: the names of the output files, the
/// memory regions and the segments.
pub struct EvalState {
    pub outfiles: Seq<Seq<char>>,
    pub mems: Seq<MemoryView>,
    pub segs: Seq<SegmentView>,
}

/// The names with `name` among them, and the position of `name`: a new name
/// is put last.
pub open spec fn insert_name(names: Seq<Seq<char>>, name: Seq<char>) -> (Seq<Seq<char>>, int) {
    if names.contains(name) {
        (names, names.index_of(name))
    } else {
        (names.push(name), names.len() as int)
    }
}

/// What the attributes of a memory region have said so far.
#[derive(Clone, Copy, Debug)]
pub struct MemoryDraft {
    pub start: Option<u32>,
    pub size: Option<u32>,
    pub filled: bool,
    pub fill_byte: u8,
    pub outfile_i: usize,
}

/// Takes an attribute of a memory region into the draft. The attribute
/// `file` names an output file, which is added to the files where it is new.
pub open spec fn memory_attr(outfiles: Seq<Seq<char>>, d: MemoryDraft, attr: &Attribute) -> Result<
    (Seq<Seq<char>>, MemoryDraft),
    ScriptErrorKind,
> {
    let key = attr.key@;
    if key == "start"@ {
        match attr.value {
            Value::Uint(x) => Ok(
                (
                    outfiles,
                    MemoryDraft {
                        start: Some(x),
                        size: d.size,
                        filled: d.filled,
                        fill_byte: d.fill_byte,
                        outfile_i: d.outfile_i,
                    },
                ),
            ),
            _ => Err(ScriptErrorKind::InvalidValue),
        }
    } else if key == "size"@ {
        match attr.value {
            Value::Uint(x) => Ok(
                (
                    outfiles,
                    MemoryDraft {
                        start: d.start,
                        size: Some(x),
                        filled: d.filled,
                        fill_byte: d.fill_byte,
                        outfile_i: d.outfile_i,
                    },
                ),
            ),
            _ => Err(ScriptErrorKind::InvalidValue),
        }
    } else if key == "type"@ {
        match attr.value {
            Value::Ident(s) => if lower_ascii(s@) == "ro"@ || lower_ascii(s@) == "rw"@ {
                Ok((outfiles, d))
            } else {
                Err(ScriptErrorKind::InvalidType)
            },
            _ => Err(ScriptErrorKind::InvalidValue),
        }
    } else if key == "fill"@ {
        match attr.value {
            Value::Bool(b) => Ok(
                (
                    outfiles,
                    MemoryDraft {
                        start: d.start,
                        size: d.size,
                        filled: b,
                        fill_byte: d.fill_byte,
                        outfile_i: d.outfile_i,
                    },
                ),
            ),
            _ => Err(ScriptErrorKind::InvalidValue),
        }
    } else if key == "fillval"@ {
        match attr.value {
            Value::Uint(x) => if x <= 0xFF {
                Ok(
                    (
                        outfiles,
                        MemoryDraft {
                            start: d.start,
                            size: d.size,
                            filled: d.filled,
                            fill_byte: x as u8,
                            outfile_i: d.outfile_i,
                        },
                    ),
                )
            } else {
                Err(ScriptErrorKind::InvalidValue)
            },
            _ => Err(ScriptErrorKind::InvalidValue),
        }
    } else if key == "file"@ {
        match attr.value {
            Value::String(text) => if text.text(outfiles[0]).len() == 0 {
                Err(ScriptErrorKind::EmptyOutputName)
            } else {
                Ok(
                    (
                        insert_name(outfiles, text.text(outfiles[0])).0,
                        MemoryDraft {
                            start: d.start,
                            size: d.size,
                            filled: d.filled,
                            fill_byte: d.fill_byte,
                            outfile_i: insert_name(outfiles, text.text(outfiles[0])).1 as usize,
                        },
                    ),
                )
            },
            _ => Err(ScriptErrorKind::InvalidValue),
        }
    } else if key == "bank"@ || key == "define"@ {
        Err(ScriptErrorKind::UnsupportedAttribute)
    } else {
        Err(ScriptErrorKind::UnknownAttribute)
    }
}

/// The draft after the first `n` attributes of a memory region, or the first
/// error with the position of its attribute.
pub open spec fn memory_attrs(outfiles: Seq<Seq<char>>, attrs: Seq<Attribute>, n: int) -> Result<
    (Seq<Seq<char>>, MemoryDraft),
    (ScriptErrorKind, Option<int>),
>
    decreases n,
{
    if n <= 0 {
        Ok((outfiles, MemoryDraft { start: None, size: None, filled: false, fill_byte: 0, outfile_i: 0 }))
    } else {
        match memory_attrs(outfiles, attrs, n - 1) {
            Err(e) => Err(e),
            Ok(st) => match memory_attr(st.0, st.1, &attrs[n - 1]) {
                Err(kind) => Err((kind, Some(n - 1))),
                Ok(st1) => Ok(st1),
            },
        }
    }
}

/// The addresses of a memory region: from its start, as many as its size.
pub open spec fn memory_range(d: MemoryDraft) -> Result<NonemptyRange, ScriptErrorKind> {
    if d.start is None {
        Err(ScriptErrorKind::MissingStart)
    } else if d.size is None {
        Err(ScriptErrorKind::MissingSize)
    } else if d.size->0 == 0 {
        Err(ScriptErrorKind::ZeroSize)
    } else if d.start->0 + d.size->0 - 1 > usize::MAX {
        Err(ScriptErrorKind::RangeOverflow)
    } else {
        Ok(NonemptyRange::spec_from_min_max(d.start->0 as usize, (d.start->0 + d.size->0 - 1) as usize))
    }
}

/// The addresses of a memory region start at its start address, are as many
/// as its size, and are ordered.
pub proof fn lemma_memory_range(d: MemoryDraft)
    requires
        memory_range(d) is Ok,
    ensures
        memory_range(d)->Ok_0.wf(),
        memory_range(d)->Ok_0.spec_min() == d.start->0,
        memory_range(d)->Ok_0.spec_len() == d.size->0,
{
    NonemptyRange::lemma_from_min_max(d.start->0 as usize, (d.start->0 + d.size->0 - 1) as usize);
}

/// The memory region that an element declares, with the output files after it.
pub open spec fn memory_elem(outfiles: Seq<Seq<char>>, elem: &Element) -> Result<
    (Seq<Seq<char>>, MemoryView),
    (ScriptErrorKind, Option<int>),
> {
    match memory_attrs(outfiles, elem.attrs@, elem.attrs@.len() as int) {
        Err(e) => Err(e),
        Ok(st) => match memory_range(st.1) {
            Err(kind) => Err((kind, None)),
            Ok(range) => Ok(
                (
                    st.0,
                    MemoryView {
                        name: elem.name@,
                        range,
                        filled: st.1.filled,
                        fill_byte: st.1.fill_byte,
                        outfile_i: OutFileIdx(st.1.outfile_i),
                    },
                ),
            ),
        },
    }
}

/// The names of the output files, to be found by name.
struct OutFiles {
    set: IndexSet<String>,
    list: Vec<String>,
}

impl OutFiles {
    spec fn texts(&self) -> Seq<Seq<char>> {
        names_of(self.set)
    }

    spec fn wf(&self) -> bool {
        &&& self.texts().len() == self.list@.len()
        &&& self.texts().len() >= 1
        &&& self.texts().no_duplicates()
        &&& forall|i: int| 0 <= i < self.list@.len() ==> (#[trigger] self.list@[i])@ == self.texts()[i]
    }

    fn new(main_outfile: &str) -> (r: Self)
        ensures
            r.wf(),
            r.texts() == seq![main_outfile@],
    {
        let mut set = name_set_new();
        let _ = name_set_insert(&mut set, main_outfile);
        let mut list: Vec<String> = Vec::new();
        list.push(main_outfile.to_owned());
        assert(names_of(set) =~= seq![main_outfile@]);
        OutFiles { set, list }
    }

    fn insert(&mut self, name: &str) -> (r: usize)
        requires
            old(self).wf(),
        ensures
            final(self).wf(),
            final(self).texts().len() >= old(self).texts().len(),
            insert_name(old(self).texts(), name@) == (final(self).texts(), r as int),
            r < final(self).texts().len(),
    {
        let ghost before = self.texts();
        let (i, fresh) = name_set_insert(&mut self.set, name);
        if fresh {
            self.list.push(name.to_owned());
            proof {
                let after = self.texts();
                assert forall|a: int, b: int| 0 <= a < after.len() && 0 <= b < after.len() && a != b implies after[a]
                    != after[b] by {
                    if a < before.len() && b < before.len() {
                        assert(before[a] != before[b]);
                    } else if a < before.len() {
                        assert(before.contains(before[a]));
                    } else {
                        assert(before.contains(before[b]));
                    }
                }
            }
        } else {
            proof {
                assert(before.contains(name@));
                let j = before.index_of(name@);
                if j != i {
                    assert(before[j] == before[i as int]);
                }
            }
        }
        i
    }
}

fn eval_memory_attr(outfiles: &mut OutFiles, d: MemoryDraft, attr: &Attribute) -> (r: Result<
    MemoryDraft,
    ScriptErrorKind,
>)
    requires
        old(outfiles).wf(),
    ensures
        final(outfiles).wf(),
        final(outfiles).texts().len() >= old(outfiles).texts().len(),
        r matches Ok(d1) ==> d1.outfile_i == d.outfile_i || d1.outfile_i < final(outfiles).texts().len(),
        match r {
            Ok(d1) => memory_attr(old(outfiles).texts(), d, attr) == Ok::<
                (Seq<Seq<char>>, MemoryDraft),
                ScriptErrorKind,
            >((final(outfiles).texts(), d1)),
            Err(kind) => memory_attr(old(outfiles).texts(), d, attr) == Err::<
                (Seq<Seq<char>>, MemoryDraft),
                ScriptErrorKind,
            >(kind),
        },
{
    let key = attr.key.as_str();
    let mut d = d;
    if is_word(key, "start") {
        match attr.value.as_uint() {
            Some(x) => {
                d.start = Some(x);
            },
            None => {
                return Err(ScriptErrorKind::InvalidValue);
            },
        }
    } else if is_word(key, "size") {
        match attr.value.as_uint() {
            Some(x) => {
                d.size = Some(x);
            },
            None => {
                return Err(ScriptErrorKind::InvalidValue);
            },
        }
    } else if is_word(key, "type") {
        match attr.value.as_ident() {
            Some(s) => {
                let lower = ascii_lowercase(s);
                if !(is_word(lower.as_str(), "ro") || is_word(lower.as_str(), "rw")) {
                    return Err(ScriptErrorKind::InvalidType);
                }
            },
            None => {
                return Err(ScriptErrorKind::InvalidValue);
            },
        }
    } else if is_word(key, "fill") {
        match attr.value.as_bool() {
            Some(b) => {
                d.filled = b;
            },
            None => {
                return Err(ScriptErrorKind::InvalidValue);
            },
        }
    } else if is_word(key, "fillval") {
        match attr.value.as_uint() {
            Some(x) => {
                if x > 0xFF {
                    return Err(ScriptErrorKind::InvalidValue);
                }
                d.fill_byte = x as u8;
            },
            None => {
                return Err(ScriptErrorKind::InvalidValue);
            },
        }
    } else if is_word(key, "file") {
        match attr.value.as_string() {
            Some(text) => {
                let name = text.format(outfiles.list[0].as_str());
                if name.as_str().is_empty() {
                    return Err(ScriptErrorKind::EmptyOutputName);
                }
                d.outfile_i = outfiles.insert(name.as_str());
            },
            None => {
                return Err(ScriptErrorKind::InvalidValue);
            },
        }
    } else if is_word(key, "bank") || is_word(key, "define") {
        return Err(ScriptErrorKind::UnsupportedAttribute);
    } else {
        return Err(ScriptErrorKind::UnknownAttribute);
    }
    Ok(d)
}

proof fn lemma_memory_attrs_err(outfiles: Seq<Seq<char>>, attrs: Seq<Attribute>, a: int, n: int)
    requires
        a <= n,
        memory_attrs(outfiles, attrs, a) is Err,
    ensures
        memory_attrs(outfiles, attrs, n) == memory_attrs(outfiles, attrs, a),
    decreases n - a,
{
    if a < n {
        lemma_memory_attrs_err(outfiles, attrs, a, n - 1);
    }
}

/// Evaluates the element of a memory region.
fn eval_memory_elem(outfiles: &mut OutFiles, elem: &Element) -> (r: Result<
    LinkScriptMemory,
    (ScriptErrorKind, Option<usize>),
>)
    requires
        old(outfiles).wf(),
    ensures
        final(outfiles).wf(),
        final(outfiles).texts().len() >= old(outfiles).texts().len(),
        match r {
            Ok(mem) => mem.wf() && mem.outfile_i.0 < final(outfiles).texts().len() && memory_elem(
                old(outfiles).texts(),
                elem,
            ) == Ok::<(Seq<Seq<char>>, MemoryView), (ScriptErrorKind, Option<int>)>((final(outfiles).texts(), mem@)),
            Err(e) => memory_elem(old(outfiles).texts(), elem) is Err && memory_elem(
                old(outfiles).texts(),
                elem,
            )->Err_0.0 == e.0 && match e.1 {
                Some(a) => memory_elem(old(outfiles).texts(), elem)->Err_0.1 == Some(a as int),
                None => memory_elem(old(outfiles).texts(), elem)->Err_0.1 is None,
            },
        },
{
    let ghost files0 = outfiles.texts();
    let mut d = MemoryDraft { start: None, size: None, filled: false, fill_byte: 0, outfile_i: 0 };
    let mut a: usize = 0;
    while a < elem.attrs.len()
        invariant
            outfiles.wf(),
            a <= elem.attrs@.len(),
            files0 == old(outfiles).texts(),
            outfiles.texts().len() >= files0.len(),
            d.outfile_i < outfiles.texts().len(),
            memory_attrs(files0, elem.attrs@, a as int) == Ok::<
                (Seq<Seq<char>>, MemoryDraft),
                (ScriptErrorKind, Option<int>),
            >((outfiles.texts(), d)),
        decreases elem.attrs@.len() - a,
    {
        d = match eval_memory_attr(outfiles, d, &elem.attrs[a]) {
            Ok(d1) => d1,
            Err(kind) => {
                proof {
                    lemma_memory_attrs_err(files0, elem.attrs@, a + 1, elem.attrs@.len() as int);
                }
                return Err((kind, Some(a)));
            },
        };
        a += 1;
    }
    let start = match d.start {
        Some(start) => start,
        None => {
            return Err((ScriptErrorKind::MissingStart, None));
        },
    };
    let size = match d.size {
        Some(size) => size,
        None => {
            return Err((ScriptErrorKind::MissingSize, None));
        },
    };
    if size == 0 {
        return Err((ScriptErrorKind::ZeroSize, None));
    }
    if size as usize - 1 > usize::MAX - start as usize {
        return Err((ScriptErrorKind::RangeOverflow, None));
    }
    let range = NonemptyRange::from_start_len(start as usize, size as usize);
    Ok(
        LinkScriptMemory {
            name: elem.name.clone(),
            range,
            filled: d.filled,
            fill_byte: d.fill_byte,
            outfile_i: OutFileIdx::new(d.outfile_i),
        },
    )
}

/// The names of memory regions.
pub open spec fn memory_names(mems: Seq<MemoryView>) -> Seq<Seq<char>> {
    Seq::new(mems.len(), |i: int| mems[i].name)
}

/// What the attributes of a segment have said so far.
#[derive(Clone, Copy, Debug)]
pub struct SegmentDraft {
    pub start: LinkScriptSegmentStart,
    /// One of `start` and `align` was met.
    pub start_specified: bool,
    pub bss: bool,
    pub fill_byte: Option<u8>,
    pub mem_i: Option<usize>,
}

/// Takes an attribute of a segment into the draft.
pub open spec fn segment_attr(mems: Seq<MemoryView>, d: SegmentDraft, attr: &Attribute) -> Result<
    SegmentDraft,
    ScriptErrorKind,
> {
    let key = attr.key@;
    if key == "load"@ {
        match attr.value {
            Value::Ident(s) => if memory_names(mems).contains(s@) {
                Ok(
                    SegmentDraft {
                        start: d.start,
                        start_specified: d.start_specified,
                        bss: d.bss,
                        fill_byte: d.fill_byte,
                        mem_i: Some(memory_names(mems).index_of(s@) as usize),
                    },
                )
            } else {
                Err(ScriptErrorKind::UnknownMemory)
            },
            _ => Err(ScriptErrorKind::InvalidValue),
        }
    } else if key == "type"@ {
        match attr.value {
            Value::Ident(s) => if lower_ascii(s@) == "ro"@ || lower_ascii(s@) == "rw"@ {
                Ok(d)
            } else if lower_ascii(s@) == "zp"@ || lower_ascii(s@) == "bss"@ {
                Ok(
                    SegmentDraft {
                        start: d.start,
                        start_specified: d.start_specified,
                        bss: true,
                        fill_byte: d.fill_byte,
                        mem_i: d.mem_i,
                    },
                )
            } else if lower_ascii(s@) == "overwrite"@ {
                Err(ScriptErrorKind::UnsupportedSegmentType)
            } else {
                Err(ScriptErrorKind::InvalidType)
            },
            _ => Err(ScriptErrorKind::InvalidValue),
        }
    } else if key == "start"@ || key == "align"@ {
        if d.start_specified {
            Err(ScriptErrorKind::StartTwice)
        } else {
            match attr.value {
                Value::Uint(x) => Ok(
                    SegmentDraft {
                        start: if key == "start"@ {
                            LinkScriptSegmentStart::Addr(x as usize)
                        } else {
                            LinkScriptSegmentStart::Align(x as usize)
                        },
                        start_specified: true,
                        bss: d.bss,
                        fill_byte: d.fill_byte,
                        mem_i: d.mem_i,
                    },
                ),
                _ => Err(ScriptErrorKind::InvalidValue),
            }
        }
    } else if key == "fillval"@ {
        match attr.value {
            Value::Uint(x) => if x <= 0xFF {
                Ok(
                    SegmentDraft {
                        start: d.start,
                        start_specified: d.start_specified,
                        bss: d.bss,
                        fill_byte: Some(x as u8),
                        mem_i: d.mem_i,
                    },
                )
            } else {
                Err(ScriptErrorKind::InvalidValue)
            },
            _ => Err(ScriptErrorKind::InvalidValue),
        }
    } else if key == "align_load"@ || key == "define"@ || key == "offset"@ || key == "optional"@ || key
        == "run"@ {
        Err(ScriptErrorKind::UnsupportedAttribute)
    } else {
        Err(ScriptErrorKind::UnknownAttribute)
    }
}

/// The draft after the first `n` attributes of a segment, or the first error
/// with the position of its attribute.
pub open spec fn segment_attrs(mems: Seq<MemoryView>, attrs: Seq<Attribute>, n: int) -> Result<
    SegmentDraft,
    (ScriptErrorKind, Option<int>),
>
    decreases n,
{
    if n <= 0 {
        Ok(
            SegmentDraft {
                start: LinkScriptSegmentStart::Unspecified,
                start_specified: false,
                bss: false,
                fill_byte: None,
                mem_i: None,
            },
        )
    } else {
        match segment_attrs(mems, attrs, n - 1) {
            Err(e) => Err(e),
            Ok(d) => match segment_attr(mems, d, &attrs[n - 1]) {
                Err(kind) => Err((kind, Some(n - 1))),
                Ok(d1) => Ok(d1),
            },
        }
    }
}

/// The segment that an element declares. It must name a memory region, and
/// a start address must lie in that region.
pub open spec fn segment_elem(mems: Seq<MemoryView>, elem: &Element) -> Result<
    SegmentView,
    (ScriptErrorKind, Option<int>),
> {
    match segment_attrs(mems, elem.attrs@, elem.attrs@.len() as int) {
        Err(e) => Err(e),
        Ok(d) => if d.mem_i is None {
            Err((ScriptErrorKind::MissingLoad, None))
        } else if d.start is Addr && !mems[d.mem_i->0 as int].range.spec_contains(d.start->Addr_0) {
            Err((ScriptErrorKind::StartOutOfMemory, None))
        } else {
            Ok(
                SegmentView {
                    name: elem.name@,
                    start: d.start,
                    bss: d.bss,
                    fill_byte: d.fill_byte,
                    mem_i: MemIdx(d.mem_i->0),
                },
            )
        },
    }
}

/// The state after the first `n` elements of the block `memory`, which
/// stands at position `b`.
pub open spec fn memory_block(st: EvalState, block: &Block, b: int, n: int) -> Result<EvalState, ScriptError>
    decreases n,
{
    if n <= 0 {
        Ok(st)
    } else {
        match memory_block(st, block, b, n - 1) {
            Err(e) => Err(e),
            Ok(st1) => match memory_elem(st1.outfiles, &block.elems@[n - 1]) {
                Err(e) => Err(ScriptError::at(e.0, b, Some(n - 1), e.1)),
                Ok(r) => if memory_names(st1.mems).contains(r.1.name) {
                    Err(ScriptError::at(ScriptErrorKind::DuplicateElement, b, Some(n - 1), None))
                } else {
                    Ok(EvalState { outfiles: r.0, mems: st1.mems.push(r.1), segs: st1.segs })
                },
            },
        }
    }
}

/// The state after the first `n` elements of the block `segments`, which
/// stands at position `b`.
pub open spec fn segments_block(st: EvalState, block: &Block, b: int, n: int) -> Result<EvalState, ScriptError>
    decreases n,
{
    if n <= 0 {
        Ok(st)
    } else {
        match segments_block(st, block, b, n - 1) {
            Err(e) => Err(e),
            Ok(st1) => match segment_elem(st1.mems, &block.elems@[n - 1]) {
                Err(e) => Err(ScriptError::at(e.0, b, Some(n - 1), e.1)),
                Ok(seg) => Ok(EvalState { outfiles: st1.outfiles, mems: st1.mems, segs: st1.segs.push(seg) }),
            },
        }
    }
}

/// The state after block `b`.
pub open spec fn eval_block_spec(st: EvalState, block: &Block, b: int) -> Result<EvalState, ScriptError> {
    if block.name@ == "memory"@ {
        memory_block(st, block, b, block.elems@.len() as int)
    } else if block.name@ == "segments"@ {
        segments_block(st, block, b, block.elems@.len() as int)
    } else {
        Err(ScriptError::at(ScriptErrorKind::UnknownBlock, b, None, None))
    }
}

/// The state after the first `n` blocks.
pub open spec fn eval_blocks_spec(st: EvalState, blocks: Seq<Block>, n: int) -> Result<EvalState, ScriptError>
    decreases n,
{
    if n <= 0 {
        Ok(st)
    } else {
        match eval_blocks_spec(st, blocks, n - 1) {
            Err(e) => Err(e),
            Ok(st1) => eval_block_spec(st1, &blocks[n - 1], n - 1),
        }
    }
}

/// What a script declares, for a main output file of that name: the first
/// repetition of a name is an error; else the blocks are evaluated in their
/// order, from the main output file as the only file.
pub open spec fn eval_spec(script: &Script, main_outfile: Seq<char>) -> Result<EvalState, ScriptError> {
    match dup_error(script) {
        Some(e) => Err(e),
        None => eval_blocks_spec(
            EvalState { outfiles: seq![main_outfile], mems: Seq::empty(), segs: Seq::empty() },
            script.blocks@,
            script.blocks@.len() as int,
        ),
    }
}

/// The memory regions, to be found by name.
struct Memories {
    set: IndexSet<String>,
    list: Vec<LinkScriptMemory>,
}

impl Memories {
    spec fn views(&self) -> Seq<MemoryView> {
        Seq::new(self.list@.len(), |i: int| self.list@[i]@)
    }

    spec fn wf(&self, n_files: nat) -> bool {
        &&& names_of(self.set) == memory_names(self.views())
        &&& names_of(self.set).no_duplicates()
        &&& forall|i: int| 0 <= i < self.list@.len() ==> (#[trigger] self.list@[i]).wf() && self.list@[i].outfile_i.0 < n_files
    }
}

struct EvalContext {
    outfiles: OutFiles,
    mems: Memories,
    segs: Vec<LinkScriptSegment>,
}

impl EvalContext {
    spec fn state(&self) -> EvalState {
        EvalState {
            outfiles: self.outfiles.texts(),
            mems: self.mems.views(),
            segs: Seq::new(self.segs@.len(), |i: int| self.segs@[i]@),
        }
    }

    spec fn wf(&self) -> bool {
        &&& self.outfiles.wf()
        &&& self.mems.wf(self.outfiles.texts().len())
        &&& forall|i: int| 0 <= i < self.segs@.len() ==> (#[trigger] self.segs@[i]).mem_i.0 < self.mems.list@.len()
    }
}

fn eval_segment_attr(mems: &Memories, d: SegmentDraft, attr: &Attribute, Ghost(n_files): Ghost<nat>) -> (r: Result<
    SegmentDraft,
    ScriptErrorKind,
>)
    requires
        mems.wf(n_files),
        d.mem_i matches Some(m) ==> m < mems.list@.len(),
    ensures
        r == segment_attr(mems.views(), d, attr),
        r matches Ok(d1) ==> (d1.mem_i matches Some(m) ==> m < mems.list@.len()),
{
    let key = attr.key.as_str();
    let mut d = d;
    if is_word(key, "load") {
        match attr.value.as_ident() {
            Some(s) => match name_set_index_of(&mems.set, s) {
                Some(i) => {
                    proof {
                        let names = memory_names(mems.views());
                        assert(names.contains(s@));
                        let j = names.index_of(s@);
                        if j != i {
                            assert(names[j] == names[i as int]);
                        }
                    }
                    d.mem_i = Some(i);
                },
                None => {
                    return Err(ScriptErrorKind::UnknownMemory);
                },
            },
            None => {
                return Err(ScriptErrorKind::InvalidValue);
            },
        }
    } else if is_word(key, "type") {
        match attr.value.as_ident() {
            Some(s) => {
                let lower = ascii_lowercase(s);
                if is_word(lower.as_str(), "ro") || is_word(lower.as_str(), "rw") {
                } else if is_word(lower.as_str(), "zp") || is_word(lower.as_str(), "bss") {
                    d.bss = true;
                } else if is_word(lower.as_str(), "overwrite") {
                    return Err(ScriptErrorKind::UnsupportedSegmentType);
                } else {
                    return Err(ScriptErrorKind::InvalidType);
                }
            },
            None => {
                return Err(ScriptErrorKind::InvalidValue);
            },
        }
    } else if is_word(key, "start") || is_word(key, "align") {
        if d.start_specified {
            return Err(ScriptErrorKind::StartTwice);
        }
        match attr.value.as_uint() {
            Some(x) => {
                d.start = if is_word(key, "start") {
                    LinkScriptSegmentStart::Addr(x as usize)
                } else {
                    LinkScriptSegmentStart::Align(x as usize)
                };
                d.start_specified = true;
            },
            None => {
                return Err(ScriptErrorKind::InvalidValue);
            },
        }
    } else if is_word(key, "fillval") {
        match attr.value.as_uint() {
            Some(x) => {
                if x > 0xFF {
                    return Err(ScriptErrorKind::InvalidValue);
                }
                d.fill_byte = Some(x as u8);
            },
            None => {
                return Err(ScriptErrorKind::InvalidValue);
            },
        }
    } else if is_word(key, "align_load") || is_word(key, "define") || is_word(key, "offset") || is_word(
        key,
        "optional",
    ) || is_word(key, "run") {
        return Err(ScriptErrorKind::UnsupportedAttribute);
    } else {
        return Err(ScriptErrorKind::UnknownAttribute);
    }
    Ok(d)
}

proof fn lemma_segment_attrs_err(mems: Seq<MemoryView>, attrs: Seq<Attribute>, a: int, n: int)
    requires
        a <= n,
        segment_attrs(mems, attrs, a) is Err,
    ensures
        segment_attrs(mems, attrs, n) == segment_attrs(mems, attrs, a),
    decreases n - a,
{
    if a < n {
        lemma_segment_attrs_err(mems, attrs, a, n - 1);
    }
}

/// The error of an element as a value of the model.
spec fn elem_error(e: (ScriptErrorKind, Option<usize>)) -> (ScriptErrorKind, Option<int>) {
    (
        e.0,
        match e.1 {
            Some(a) => Some(a as int),
            None => None,
        },
    )
}

/// Evaluates the element of a segment.
fn eval_segments_elem(mems: &Memories, elem: &Element, Ghost(n_files): Ghost<nat>) -> (r: Result<
    LinkScriptSegment,
    (ScriptErrorKind, Option<usize>),
>)
    requires
        mems.wf(n_files),
    ensures
        match r {
            Ok(seg) => seg.mem_i.0 < mems.list@.len() && segment_elem(mems.views(), elem) == Ok::<
                SegmentView,
                (ScriptErrorKind, Option<int>),
            >(seg@),
            Err(e) => segment_elem(mems.views(), elem) == Err::<SegmentView, (ScriptErrorKind, Option<int>)>(
                elem_error(e),
            ),
        },
{
    let mut d = SegmentDraft {
        start: LinkScriptSegmentStart::Unspecified,
        start_specified: false,
        bss: false,
        fill_byte: None,
        mem_i: None,
    };
    let mut a: usize = 0;
    while a < elem.attrs.len()
        invariant
            mems.wf(n_files),
            a <= elem.attrs@.len(),
            d.mem_i matches Some(m) ==> m < mems.list@.len(),
            segment_attrs(mems.views(), elem.attrs@, a as int) == Ok::<SegmentDraft, (ScriptErrorKind, Option<int>)>(
                d,
            ),
        decreases elem.attrs@.len() - a,
    {
        d = match eval_segment_attr(mems, d, &elem.attrs[a], Ghost(n_files)) {
            Ok(d1) => d1,
            Err(kind) => {
                proof {
                    lemma_segment_attrs_err(mems.views(), elem.attrs@, a + 1, elem.attrs@.len() as int);
                }
                return Err((kind, Some(a)));
            },
        };
        a += 1;
    }
    let mem_i = match d.mem_i {
        Some(mem_i) => mem_i,
        None => {
            return Err((ScriptErrorKind::MissingLoad, None));
        },
    };
    if let LinkScriptSegmentStart::Addr(start) = d.start {
        if !mems.list[mem_i].range.contains(start) {
            return Err((ScriptErrorKind::StartOutOfMemory, None));
        }
    }
    Ok(
        LinkScriptSegment {
            name: elem.name.clone(),
            start: d.start,
            bss: d.bss,
            fill_byte: d.fill_byte,
            mem_i: MemIdx::new(mem_i),
        },
    )
}

proof fn lemma_memory_block_err(st: EvalState, block: &Block, b: int, a: int, n: int)
    requires
        a <= n,
        memory_block(st, block, b, a) is Err,
    ensures
        memory_block(st, block, b, n) == memory_block(st, block, b, a),
    decreases n - a,
{
    if a < n {
        lemma_memory_block_err(st, block, b, a, n - 1);
    }
}

proof fn lemma_segments_block_err(st: EvalState, block: &Block, b: int, a: int, n: int)
    requires
        a <= n,
        segments_block(st, block, b, a) is Err,
    ensures
        segments_block(st, block, b, n) == segments_block(st, block, b, a),
    decreases n - a,
{
    if a < n {
        lemma_segments_block_err(st, block, b, a, n - 1);
    }
}

proof fn lemma_eval_blocks_err(st: EvalState, blocks: Seq<Block>, a: int, n: int)
    requires
        a <= n,
        eval_blocks_spec(st, blocks, a) is Err,
    ensures
        eval_blocks_spec(st, blocks, n) == eval_blocks_spec(st, blocks, a),
    decreases n - a,
{
    if a < n {
        lemma_eval_blocks_err(st, blocks, a, n - 1);
    }
}

/// Evaluates the block of the memory regions.
fn eval_memory(ctx: &mut EvalContext, block: &Block, b: usize) -> (r: Result<(), ScriptError>)
    requires
        old(ctx).wf(),
    ensures
        match r {
            Ok(_) => final(ctx).wf() && memory_block(old(ctx).state(), block, b as int, block.elems@.len() as int)
                == Ok::<EvalState, ScriptError>(final(ctx).state()),
            Err(e) => memory_block(old(ctx).state(), block, b as int, block.elems@.len() as int) == Err::<
                EvalState,
                ScriptError,
            >(e),
        },
{
    let ghost st0 = ctx.state();
    let mut i: usize = 0;
    while i < block.elems.len()
        invariant
            ctx.wf(),
            i <= block.elems@.len(),
            st0 == old(ctx).state(),
            memory_block(st0, block, b as int, i as int) == Ok::<EvalState, ScriptError>(ctx.state()),
        decreases block.elems@.len() - i,
    {
        let elem = &block.elems[i];
        let ghost before = ctx.state();
        let mem = match eval_memory_elem(&mut ctx.outfiles, elem) {
            Ok(mem) => mem,
            Err(e) => {
                proof {
                    lemma_memory_block_err(st0, block, b as int, i + 1, block.elems@.len() as int);
                }
                return Err(error_at(e.0, b, Some(i), e.1));
            },
        };
        let ghost names = names_of(ctx.mems.set);
        let (_, fresh) = name_set_insert(&mut ctx.mems.set, elem.name.as_str());
        if !fresh {
            proof {
                assert(names.contains(elem.name@));
                lemma_memory_block_err(st0, block, b as int, i + 1, block.elems@.len() as int);
            }
            return Err(error_at(ScriptErrorKind::DuplicateElement, b, Some(i), None));
        }
        let ghost view = mem@;
        ctx.mems.list.push(mem);
        proof {
            assert(ctx.mems.views() =~= before.mems.push(view));
            assert(names_of(ctx.mems.set) =~= memory_names(ctx.mems.views()));
            let after = names_of(ctx.mems.set);
            assert forall|x: int, y: int| 0 <= x < after.len() && 0 <= y < after.len() && x != y implies after[x]
                != after[y] by {
                if x < names.len() && y < names.len() {
                    assert(names[x] != names[y]);
                } else if x < names.len() {
                    assert(names.contains(names[x]));
                } else {
                    assert(names.contains(names[y]));
                }
            }
            assert(ctx.state().segs =~= before.segs);
        }
        i += 1;
    }
    Ok(())
}

/// Evaluates the block of the segments.
fn eval_segments(ctx: &mut EvalContext, block: &Block, b: usize) -> (r: Result<(), ScriptError>)
    requires
        old(ctx).wf(),
    ensures
        match r {
            Ok(_) => final(ctx).wf() && segments_block(
                old(ctx).state(),
                block,
                b as int,
                block.elems@.len() as int,
            ) == Ok::<EvalState, ScriptError>(final(ctx).state()),
            Err(e) => segments_block(old(ctx).state(), block, b as int, block.elems@.len() as int) == Err::<
                EvalState,
                ScriptError,
            >(e),
        },
{
    let ghost st0 = ctx.state();
    let mut i: usize = 0;
    while i < block.elems.len()
        invariant
            ctx.wf(),
            i <= block.elems@.len(),
            st0 == old(ctx).state(),
            segments_block(st0, block, b as int, i as int) == Ok::<EvalState, ScriptError>(ctx.state()),
        decreases block.elems@.len() - i,
    {
        let ghost before = ctx.state();
        let seg = match eval_segments_elem(&ctx.mems, &block.elems[i], Ghost(ctx.outfiles.texts().len())) {
            Ok(seg) => seg,
            Err(e) => {
                proof {
                    lemma_segments_block_err(st0, block, b as int, i + 1, block.elems@.len() as int);
                }
                return Err(error_at(e.0, b, Some(i), e.1));
            },
        };
        let ghost view = seg@;
        ctx.segs.push(seg);
        proof {
            assert(ctx.state().segs =~= before.segs.push(view));
        }
        i += 1;
    }
    Ok(())
}

fn eval_block(ctx: &mut EvalContext, block: &Block, b: usize) -> (r: Result<(), ScriptError>)
    requires
        old(ctx).wf(),
    ensures
        match r {
            Ok(_) => final(ctx).wf() && eval_block_spec(old(ctx).state(), block, b as int) == Ok::<
                EvalState,
                ScriptError,
            >(final(ctx).state()),
            Err(e) => eval_block_spec(old(ctx).state(), block, b as int) == Err::<EvalState, ScriptError>(e),
        },
{
    if is_word(block.name.as_str(), "memory") {
        eval_memory(ctx, block, b)
    } else if is_word(block.name.as_str(), "segments") {
        eval_segments(ctx, block, b)
    } else {
        Err(error_at(ScriptErrorKind::UnknownBlock, b, None, None))
    }
}

fn eval_blocks(ctx: &mut EvalContext, blocks: &Vec<Block>) -> (r: Result<(), ScriptError>)
    requires
        old(ctx).wf(),
    ensures
        match r {
            Ok(_) => final(ctx).wf() && eval_blocks_spec(old(ctx).state(), blocks@, blocks@.len() as int) == Ok::<
                EvalState,
                ScriptError,
            >(final(ctx).state()),
            Err(e) => eval_blocks_spec(old(ctx).state(), blocks@, blocks@.len() as int) == Err::<
                EvalState,
                ScriptError,
            >(e),
        },
{
    let ghost st0 = ctx.state();
    let mut b: usize = 0;
    while b < blocks.len()
        invariant
            ctx.wf(),
            b <= blocks@.len(),
            st0 == old(ctx).state(),
            eval_blocks_spec(st0, blocks@, b as int) == Ok::<EvalState, ScriptError>(ctx.state()),
        decreases blocks@.len() - b,
    {
        match eval_block(ctx, &blocks[b], b) {
            Ok(_) => {},
            Err(e) => {
                proof {
                    lemma_eval_blocks_err(st0, blocks@, b + 1, blocks@.len() as int);
                }
                return Err(e);
            },
        }
        b += 1;
    }
    Ok(())
}

/// What a script holds, as a value of the model.
pub open spec fn state_of(script: &LinkScript) -> EvalState {
    EvalState {
        outfiles: Seq::new(script.outfiles().len(), |i: int| script.outfiles()[i]@),
        mems: Seq::new(script.mems().len(), |i: int| script.mems()[i]@),
        segs: Seq::new(script.segs().len(), |i: int| script.segs()[i]@),
    }
}

/// Evaluates a syntax tree to a script, for a main output file of that name.
pub fn eval(script: &Script, main_outfile: &str) -> (r: Result<LinkScript, ScriptError>)
    ensures
        match r {
            Ok(s) => s.wf() && eval_spec(script, main_outfile@) == Ok::<EvalState, ScriptError>(state_of(&s)),
            Err(e) => eval_spec(script, main_outfile@) == Err::<EvalState, ScriptError>(e),
        },
{
    match check_dup(script) {
        Ok(_) => {},
        Err(e) => {
            return Err(e);
        },
    }
    let mut ctx = EvalContext {
        outfiles: OutFiles::new(main_outfile),
        mems: Memories { set: name_set_new(), list: Vec::new() },
        segs: Vec::new(),
    };
    proof {
        assert(ctx.mems.views() =~= Seq::<MemoryView>::empty());
        assert(memory_names(ctx.mems.views()) =~= Seq::<Seq<char>>::empty());
        assert(ctx.state().segs =~= Seq::<SegmentView>::empty());
    }
    match eval_blocks(&mut ctx, &script.blocks) {
        Ok(_) => {},
        Err(e) => {
            return Err(e);
        },
    }
    let ghost st = ctx.state();
    let s = LinkScript::assemble(ctx.outfiles.list, ctx.mems.list, ctx.segs);
    proof {
        assert(state_of(&s).outfiles =~= st.outfiles);
        assert(state_of(&s).mems =~= st.mems);
        assert(state_of(&s).segs =~= st.segs);
    }
    Ok(s)
}

} // verus!
