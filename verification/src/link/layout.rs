//! The layout: the address and the output extent of every element.

use vstd::prelude::*;
use crate::error::LinkError;
use crate::index::{MemIdx, OutFileIdx, SectIdx, SegIdx, positions};
use crate::link::graph::{LinkGraph, lists_exactly, placed_at};
use crate::link::walk::{
    lemma_no_entry_between, lemma_walk_err, lemma_walk_step, lemma_walk_to_entry, list_bound, walk,
};
use crate::object::{Object, Section};
use crate::range::NonemptyRange;
use crate::script::{LinkScript, LinkScriptSegmentStart};

verus! {

/// The layout of an output file.
#[derive(Clone, Copy, Debug, PartialEq, Eq)]
pub struct LinkLayoutFile {
    /// The number of bytes in the file.
    pub len: usize,
}

/// The layout of a memory region.
#[derive(Clone, Copy, Debug, PartialEq, Eq)]
pub struct LinkLayoutMemory {
    /// Where the bytes of the region start in its file.
    pub file_off: usize,
    /// The addresses of the region, as the script declares them.
    pub range: NonemptyRange,
    /// The number of bytes that the region gives to its file.
    pub output_len: usize,
    pub filled: bool,
    pub fill_byte: u8,
}

/// The layout of a segment.
#[derive(Clone, Copy, Debug, PartialEq, Eq)]
pub struct LinkLayoutSegment {
    /// The address of the first section.
    pub start: usize,
    /// The number of bytes that the segment gives to its file.
    pub output_len: usize,
    pub fill_byte: Option<u8>,
}

/// The layout of a placed section.
#[derive(Clone, Copy, Debug, PartialEq, Eq)]
pub struct LinkLayoutSection {
    /// The address of the section.
    pub start: usize,
    /// The number of bytes that the section gives to its file.
    pub output_len: usize,
}

/// Where a walk through a memory region stands.
pub struct Cursor {
    /// The next free address.
    pub addr: int,
    /// The number of bytes that the region gives to its file so far.
    pub out: int,
}

/// The section of an object that placed section `s` comes from.
pub open spec fn section_of(objs: Seq<Object>, graph: &LinkGraph, s: int) -> Section {
    let origin = graph.spec_sect_to_obj_sect()[s];
    objs[origin.0.0 as int].sections()[origin.1.0 as int]
}

/// The number of bytes that placed section `s` gives to its file: none in a
/// BSS segment, else as many as it takes addresses.
pub open spec fn section_output_len(script: &LinkScript, objs: Seq<Object>, graph: &LinkGraph, s: int) -> int {
    if script.segs()[graph.spec_sect_to_seg()[s].0 as int].bss {
        0
    } else {
        section_of(objs, graph, s).len as int
    }
}

/// Places section `s` at the cursor. The section must be aligned to 1, its
/// bytes must fit the region, and the address after it must be a `usize`.
pub open spec fn place_section(
    script: &LinkScript,
    objs: Seq<Object>,
    graph: &LinkGraph,
    s: int,
    c: Cursor,
) -> Result<Cursor, LinkError> {
    let sect = section_of(objs, graph, s);
    let mem_i = script.segs()[graph.spec_sect_to_seg()[s].0 as int].mem_i;
    let out_len = section_output_len(script, objs, graph, s);
    if sect.align != 1 {
        Err(
            LinkError::SectionAlignment {
                obj: graph.spec_sect_to_obj_sect()[s].0,
                sect: graph.spec_sect_to_obj_sect()[s].1,
            },
        )
    } else if c.out + out_len > script.mems()[mem_i.0 as int].capacity() {
        Err(LinkError::MemoryOverflow { mem: mem_i })
    } else if c.addr + sect.len > usize::MAX {
        Err(LinkError::AddressOverflow { mem: mem_i })
    } else {
        Ok(Cursor { addr: c.addr + sect.len, out: c.out + out_len })
    }
}

pub open spec fn sect_step(script: &LinkScript, objs: Seq<Object>, graph: &LinkGraph) -> spec_fn(
    int,
    Cursor,
) -> Result<Cursor, LinkError> {
    |s: int, c: Cursor| place_section(script, objs, graph, s, c)
}

/// The cursor after the sections below `n` of segment `g`, from the cursor
/// `c` at the start of the segment.
pub open spec fn walk_sects(
    script: &LinkScript,
    objs: Seq<Object>,
    graph: &LinkGraph,
    g: int,
    c: Cursor,
    n: int,
) -> Result<Cursor, LinkError> {
    walk(positions(graph.spec_sect_to_seg()), g, sect_step(script, objs, graph), c, n)
}

/// The address at which segment `g` starts when the cursor stands at `addr`:
/// the address it asks for, which must not lie below the cursor, or the
/// cursor itself. Of alignments only 1 is accepted.
pub open spec fn segment_start(script: &LinkScript, g: int, addr: int) -> Result<int, LinkError> {
    match script.segs()[g].start {
        LinkScriptSegmentStart::Unspecified => Ok(addr),
        LinkScriptSegmentStart::Addr(a) => if addr <= a {
            Ok(a as int)
        } else {
            Err(LinkError::SegmentOverlap { seg: SegIdx(g as usize) })
        },
        LinkScriptSegmentStart::Align(x) => if x == 1 {
            Ok(addr)
        } else {
            Err(LinkError::SegmentAlignment { seg: SegIdx(g as usize) })
        },
    }
}

/// Places segment `g` and all its sections at the cursor.
pub open spec fn place_segment(
    script: &LinkScript,
    objs: Seq<Object>,
    graph: &LinkGraph,
    g: int,
    c: Cursor,
) -> Result<Cursor, LinkError> {
    match segment_start(script, g, c.addr) {
        Err(e) => Err(e),
        Ok(a) => walk_sects(
            script,
            objs,
            graph,
            g,
            Cursor { addr: a, out: c.out },
            graph.spec_sect_to_seg().len() as int,
        ),
    }
}

pub open spec fn seg_step(script: &LinkScript, objs: Seq<Object>, graph: &LinkGraph) -> spec_fn(
    int,
    Cursor,
) -> Result<Cursor, LinkError> {
    |g: int, c: Cursor| place_segment(script, objs, graph, g, c)
}

/// The cursor after the segments below `n` of memory region `m`. The walk
/// starts at the lowest address of the region with no bytes given.
pub open spec fn walk_segs(script: &LinkScript, objs: Seq<Object>, graph: &LinkGraph, m: int, n: int) -> Result<
    Cursor,
    LinkError,
> {
    walk(
        positions(graph.spec_seg_to_mem()),
        m,
        seg_step(script, objs, graph),
        Cursor { addr: script.mems()[m].range.spec_min() as int, out: 0 },
        n,
    )
}

/// The number of bytes that memory region `m` gives to its file: its whole
/// capacity where it is filled, else what its sections give.
pub open spec fn memory_output_len(script: &LinkScript, objs: Seq<Object>, graph: &LinkGraph, m: int) -> Result<
    int,
    LinkError,
> {
    match walk_segs(script, objs, graph, m, graph.spec_seg_to_mem().len() as int) {
        Err(e) => Err(e),
        Ok(c) => Ok(
            if script.mems()[m].filled {
                script.mems()[m].capacity()
            } else {
                c.out
            },
        ),
    }
}

/// Places memory region `m` and all its segments at offset `off` of its file.
/// The offset after the region must be a `usize`.
pub open spec fn place_memory(
    script: &LinkScript,
    objs: Seq<Object>,
    graph: &LinkGraph,
    m: int,
    off: int,
) -> Result<int, LinkError> {
    match memory_output_len(script, objs, graph, m) {
        Err(e) => Err(e),
        Ok(len) => if off + len > usize::MAX {
            Err(LinkError::AddressOverflow { mem: MemIdx(m as usize) })
        } else {
            Ok(off + len)
        },
    }
}

pub open spec fn mem_step(script: &LinkScript, objs: Seq<Object>, graph: &LinkGraph) -> spec_fn(int, int) -> Result<
    int,
    LinkError,
> {
    |m: int, off: int| place_memory(script, objs, graph, m, off)
}

/// The offset in file `f` after its memory regions below `n`.
pub open spec fn walk_mems(script: &LinkScript, objs: Seq<Object>, graph: &LinkGraph, f: int, n: int) -> Result<
    int,
    LinkError,
> {
    walk(positions(graph.spec_mem_to_file()), f, mem_step(script, objs, graph), 0int, n)
}

/// The length of file `f`.
pub open spec fn file_len(script: &LinkScript, objs: Seq<Object>, graph: &LinkGraph, f: int) -> Result<
    int,
    LinkError,
> {
    walk_mems(script, objs, graph, f, graph.spec_mem_to_file().len() as int)
}

/// The first error that the files below `n` give, taken in ascending order.
pub open spec fn walk_files(script: &LinkScript, objs: Seq<Object>, graph: &LinkGraph, n: int) -> Result<
    (),
    LinkError,
>
    decreases n,
{
    if n <= 0 {
        Ok(())
    } else {
        match walk_files(script, objs, graph, n - 1) {
            Err(e) => Err(e),
            Ok(_) => match file_len(script, objs, graph, n - 1) {
                Err(e) => Err(e),
                Ok(_) => Ok(()),
            },
        }
    }
}

/// The outcome of laying out the whole link: nothing, or the first error.
pub open spec fn layout_result(script: &LinkScript, objs: Seq<Object>, graph: &LinkGraph) -> Result<
    (),
    LinkError,
> {
    walk_files(script, objs, graph, graph.spec_file_to_mems().len() as int)
}

/// The bytes that each placed section gives, as a layout records them.
pub open spec fn recorded_section_outputs(layout: &LinkLayout) -> spec_fn(int) -> int {
    |s: int| layout.sects()[s].output_len as int
}

/// The bytes that each segment gives, as a layout records them.
pub open spec fn recorded_segment_outputs(layout: &LinkLayout) -> spec_fn(int) -> int {
    |g: int| layout.segs()[g].output_len as int
}

/// The cursor at the first section of segment `g`.
pub open spec fn segment_entry(script: &LinkScript, objs: Seq<Object>, graph: &LinkGraph, g: int) -> Cursor {
    let c = walk_segs(script, objs, graph, graph.spec_seg_to_mem()[g].0 as int, g)->Ok_0;
    Cursor { addr: segment_start(script, g, c.addr)->Ok_0, out: c.out }
}

/// The layout of placed section `s`.
pub open spec fn sect_layout(script: &LinkScript, objs: Seq<Object>, graph: &LinkGraph, s: int) -> LinkLayoutSection {
    let g = graph.spec_sect_to_seg()[s].0 as int;
    LinkLayoutSection {
        start: walk_sects(script, objs, graph, g, segment_entry(script, objs, graph, g), s)->Ok_0.addr as usize,
        output_len: section_output_len(script, objs, graph, s) as usize,
    }
}

/// The layout of segment `g`.
pub open spec fn seg_layout(script: &LinkScript, objs: Seq<Object>, graph: &LinkGraph, g: int) -> LinkLayoutSegment {
    let entry = segment_entry(script, objs, graph, g);
    let exit = walk_sects(script, objs, graph, g, entry, graph.spec_sect_to_seg().len() as int)->Ok_0;
    LinkLayoutSegment {
        start: entry.addr as usize,
        output_len: (exit.out - entry.out) as usize,
        fill_byte: script.segs()[g].fill_byte,
    }
}

/// The layout of memory region `m`.
pub open spec fn mem_layout(script: &LinkScript, objs: Seq<Object>, graph: &LinkGraph, m: int) -> LinkLayoutMemory {
    LinkLayoutMemory {
        file_off: walk_mems(script, objs, graph, graph.spec_mem_to_file()[m].0 as int, m)->Ok_0 as usize,
        range: script.mems()[m].range,
        output_len: memory_output_len(script, objs, graph, m)->Ok_0 as usize,
        filled: script.mems()[m].filled,
        fill_byte: script.mems()[m].fill_byte,
    }
}

/// The layout of file `f`.
pub open spec fn file_layout(script: &LinkScript, objs: Seq<Object>, graph: &LinkGraph, f: int) -> LinkLayoutFile {
    LinkLayoutFile { len: file_len(script, objs, graph, f)->Ok_0 as usize }
}

/// What the walk through segment `g` from the cursor `c` records for section `s`.
pub open spec fn sect_record(
    script: &LinkScript,
    objs: Seq<Object>,
    graph: &LinkGraph,
    g: int,
    c: Cursor,
    s: int,
) -> LinkLayoutSection {
    LinkLayoutSection {
        start: walk_sects(script, objs, graph, g, c, s)->Ok_0.addr as usize,
        output_len: section_output_len(script, objs, graph, s) as usize,
    }
}

/// Places the sections of a segment from the address `addr`, where the region
/// has given `mem_out` bytes so far, and records their layout. Returns the
/// address and the bytes given after the last section.
fn layout_sections(
    script: &LinkScript,
    objs: &[Object],
    graph: &LinkGraph,
    seg_i: SegIdx,
    addr: usize,
    mem_out: usize,
    sects: &mut Vec<LinkLayoutSection>,
) -> (r: Result<(usize, usize), LinkError>)
    requires
        script.wf(),
        graph.wf_for(script, objs@),
        seg_i.0 < script.segs().len(),
        old(sects)@.len() == graph.spec_sect_to_seg().len(),
        mem_out <= script.mems()[script.segs()[seg_i.0 as int].mem_i.0 as int].capacity(),
    ensures
        final(sects)@.len() == old(sects)@.len(),
        forall|s: int|
            0 <= s < old(sects)@.len() && graph.spec_sect_to_seg()[s].0 != seg_i.0 ==> #[trigger] final(sects)@[s] == old(sects)@[s],
        match r {
            Ok((a, o)) => {
                &&& walk_sects(
                    script,
                    objs@,
                    graph,
                    seg_i.0 as int,
                    Cursor { addr: addr as int, out: mem_out as int },
                    graph.spec_sect_to_seg().len() as int,
                ) == Ok::<Cursor, LinkError>(Cursor { addr: a as int, out: o as int })
                &&& mem_out <= o <= script.mems()[script.segs()[seg_i.0 as int].mem_i.0 as int].capacity()
                &&& forall|s: int|
                    0 <= s < old(sects)@.len() && graph.spec_sect_to_seg()[s].0 == seg_i.0 ==> #[trigger] final(sects)@[s] == sect_record(
                        script,
                        objs@,
                        graph,
                        seg_i.0 as int,
                        Cursor { addr: addr as int, out: mem_out as int },
                        s,
                    )
            },
            Err(e) => walk_sects(
                script,
                objs@,
                graph,
                seg_i.0 as int,
                Cursor { addr: addr as int, out: mem_out as int },
                graph.spec_sect_to_seg().len() as int,
            ) == Err::<Cursor, LinkError>(e),
        },
{
    let list = graph.seg_to_sects(seg_i);
    let bss = script.segment(seg_i).is_bss();
    let mem_i = script.segment(seg_i).memory_idx();
    let cap = script.memory(mem_i).len();
    let ghost keys = positions(graph.spec_sect_to_seg());
    let ghost ids = positions(list@);
    let ghost g = seg_i.0 as int;
    let ghost c0 = Cursor { addr: addr as int, out: mem_out as int };
    let ghost step = sect_step(script, objs@, graph);
    let ghost n = graph.spec_sect_to_seg().len() as int;
    let mut cur = addr;
    let mut out = mem_out;
    let mut i: usize = 0;
    proof {
        assert(graph.spec_seg_to_sects()[g]@ == list@);
        assert(lists_exactly(ids, keys, g));
        lemma_walk_to_entry(ids, keys, g, step, c0, 0);
    }
    while i < list.len()
        invariant
            script.wf(),
            graph.wf_for(script, objs@),
            seg_i.0 < script.segs().len(),
            g == seg_i.0,
            n == graph.spec_sect_to_seg().len(),
            keys == positions(graph.spec_sect_to_seg()),
            ids == positions(list@),
            step == sect_step(script, objs@, graph),
            lists_exactly(ids, keys, g),
            bss == script.segs()[g].bss,
            mem_i == script.segs()[g].mem_i,
            cap == script.mems()[mem_i.0 as int].capacity(),
            sects@.len() == n,
            old(sects)@.len() == n,
            i <= list@.len(),
            c0.out <= out <= cap,
            c0 == (Cursor { addr: addr as int, out: mem_out as int }),
            walk(keys, g, step, c0, list_bound(ids, i as int, n)) == Ok::<Cursor, LinkError>(
                Cursor { addr: cur as int, out: out as int },
            ),
            forall|s: int| 0 <= s < n && keys[s] != g ==> #[trigger] sects@[s] == old(sects)@[s],
            forall|j: int|
                0 <= j < i ==> #[trigger] sects@[ids[j]] == sect_record(script, objs@, graph, g, c0, ids[j]),
        decreases list@.len() - i,
    {
        let sect_i = list[i];
        let ghost s = sect_i.0 as int;
        assert(s == ids[i as int]);
        assert(0 <= s < n && keys[s] == g);
        assert(placed_at(script, objs@, graph.spec_sect_to_seg(), graph.spec_sect_to_obj_sect(), s));
        let (obj_i, obj_sect_i) = graph.sect_to_obj_sect(sect_i);
        let sect = objs[obj_i.0].section(obj_sect_i);
        proof {
            lemma_walk_step(ids, keys, g, step, c0, i as int);
            lemma_walk_to_entry(ids, keys, g, step, c0, i + 1);
        }
        let ghost c = Cursor { addr: cur as int, out: out as int };
        assert(*sect == section_of(objs@, graph, s));
        if sect.align != 1 {
            proof {
                lemma_walk_err(keys, g, step, c0, s + 1, n);
            }
            return Err(LinkError::SectionAlignment { obj: obj_i, sect: obj_sect_i });
        }
        let sect_len = sect.len as usize;
        let output_len = if bss {
            0
        } else {
            sect_len
        };
        assert(output_len == section_output_len(script, objs@, graph, s));
        if output_len > cap - out {
            proof {
                lemma_walk_err(keys, g, step, c0, s + 1, n);
            }
            return Err(LinkError::MemoryOverflow { mem: mem_i });
        }
        if sect_len > usize::MAX - cur {
            proof {
                lemma_walk_err(keys, g, step, c0, s + 1, n);
            }
            return Err(LinkError::AddressOverflow { mem: mem_i });
        }
        sects[sect_i.0] = LinkLayoutSection { start: cur, output_len };
        out += output_len;
        cur += sect_len;
        proof {
            assert forall|j: int| 0 <= j < i + 1 implies #[trigger] sects@[ids[j]] == sect_record(
                script,
                objs@,
                graph,
                g,
                c0,
                ids[j],
            ) by {
                if j < i {
                    assert(ids[j] < ids[i as int]);
                }
            }
        }
        i += 1;
    }
    proof {
        assert forall|s: int| 0 <= s < n && graph.spec_sect_to_seg()[s].0 == seg_i.0 implies #[trigger] sects@[s]
            == sect_record(script, objs@, graph, g, c0, s) by {
            assert(keys[s] == g);
            assert(ids.contains(s));
        }
    }
    Ok((cur, out))
}

/// Places the segments of a memory region with all their sections, and
/// records their layout. Returns the bytes that the sections give.
fn layout_segments(
    script: &LinkScript,
    objs: &[Object],
    graph: &LinkGraph,
    mem_i: MemIdx,
    segs: &mut Vec<LinkLayoutSegment>,
    sects: &mut Vec<LinkLayoutSection>,
) -> (r: Result<usize, LinkError>)
    requires
        script.wf(),
        graph.wf_for(script, objs@),
        mem_i.0 < script.mems().len(),
        old(segs)@.len() == graph.spec_seg_to_mem().len(),
        old(sects)@.len() == graph.spec_sect_to_seg().len(),
    ensures
        final(segs)@.len() == old(segs)@.len(),
        final(sects)@.len() == old(sects)@.len(),
        forall|g: int|
            0 <= g < old(segs)@.len() && graph.spec_seg_to_mem()[g].0 != mem_i.0 ==> #[trigger] final(segs)@[g]
                == old(segs)@[g],
        forall|s: int|
            0 <= s < old(sects)@.len() && graph.spec_seg_to_mem()[graph.spec_sect_to_seg()[s].0 as int].0
                != mem_i.0 ==> #[trigger] final(sects)@[s] == old(sects)@[s],
        match r {
            Ok(out) => {
                &&& memory_output_len(script, objs@, graph, mem_i.0 as int) is Ok
                &&& walk_segs(
                    script,
                    objs@,
                    graph,
                    mem_i.0 as int,
                    graph.spec_seg_to_mem().len() as int,
                )->Ok_0.out == out
                &&& out <= script.mems()[mem_i.0 as int].capacity()
                &&& forall|g: int|
                    0 <= g < old(segs)@.len() && graph.spec_seg_to_mem()[g].0 == mem_i.0 ==> #[trigger] final(
                        segs)@[g] == seg_layout(script, objs@, graph, g)
                &&& forall|s: int|
                    0 <= s < old(sects)@.len() && graph.spec_seg_to_mem()[graph.spec_sect_to_seg()[s].0 as int].0
                        == mem_i.0 ==> #[trigger] final(sects)@[s] == sect_layout(script, objs@, graph, s)
            },
            Err(e) => memory_output_len(script, objs@, graph, mem_i.0 as int) == Err::<int, LinkError>(e),
        },
{
    let list = graph.mem_to_segs(mem_i);
    let cap = script.memory(mem_i).len();
    let ghost keys = positions(graph.spec_seg_to_mem());
    let ghost ids = positions(list@);
    let ghost m = mem_i.0 as int;
    let ghost c0 = Cursor { addr: script.mems()[m].range.spec_min() as int, out: 0 };
    let ghost step = seg_step(script, objs@, graph);
    let ghost n = graph.spec_seg_to_mem().len() as int;
    let ghost n_sects = graph.spec_sect_to_seg().len() as int;
    let mut cur = script.memory(mem_i).start();
    let mut out: usize = 0;
    let mut j: usize = 0;
    proof {
        assert(graph.spec_mem_to_segs()[m]@ == list@);
        assert(lists_exactly(ids, keys, m));
        lemma_walk_to_entry(ids, keys, m, step, c0, 0);
        assert forall|s: int| 0 <= s < n_sects implies 0 <= (#[trigger] graph.spec_sect_to_seg()[s]).0 < n by {
            assert(placed_at(script, objs@, graph.spec_sect_to_seg(), graph.spec_sect_to_obj_sect(), s));
        }
    }
    while j < list.len()
        invariant
            script.wf(),
            graph.wf_for(script, objs@),
            mem_i.0 < script.mems().len(),
            m == mem_i.0,
            n == graph.spec_seg_to_mem().len(),
            n_sects == graph.spec_sect_to_seg().len(),
            keys == positions(graph.spec_seg_to_mem()),
            ids == positions(list@),
            step == seg_step(script, objs@, graph),
            c0 == (Cursor { addr: script.mems()[m].range.spec_min() as int, out: 0 }),
            lists_exactly(ids, keys, m),
            cap == script.mems()[m].capacity(),
            segs@.len() == n,
            old(segs)@.len() == n,
            sects@.len() == n_sects,
            old(sects)@.len() == n_sects,
            forall|s: int| 0 <= s < n_sects ==> 0 <= (#[trigger] graph.spec_sect_to_seg()[s]).0 < n,
            j <= list@.len(),
            out <= cap,
            walk(keys, m, step, c0, list_bound(ids, j as int, n)) == Ok::<Cursor, LinkError>(
                Cursor { addr: cur as int, out: out as int },
            ),
            forall|g: int| 0 <= g < n && keys[g] != m ==> #[trigger] segs@[g] == old(segs)@[g],
            forall|s: int|
                0 <= s < n_sects && keys[graph.spec_sect_to_seg()[s].0 as int] != m ==> #[trigger] sects@[s] == old(
                    sects)@[s],
            forall|g: int|
                0 <= g < list_bound(ids, j as int, n) && keys[g] == m ==> #[trigger] segs@[g] == seg_layout(
                    script,
                    objs@,
                    graph,
                    g,
                ),
            forall|s: int|
                0 <= s < n_sects && graph.spec_sect_to_seg()[s].0 < list_bound(ids, j as int, n)
                    && keys[graph.spec_sect_to_seg()[s].0 as int] == m ==> #[trigger] sects@[s] == sect_layout(
                    script,
                    objs@,
                    graph,
                    s,
                ),
        decreases list@.len() - j,
    {
        let seg_i = list[j];
        let ghost g = seg_i.0 as int;
        assert(g == ids[j as int]);
        assert(0 <= g < n && keys[g] == m);
        assert(graph.spec_seg_to_mem()[g] == script.segs()[g].mem_i);
        let script_seg = script.segment(seg_i);
        let ghost c = Cursor { addr: cur as int, out: out as int };
        proof {
            lemma_walk_step(ids, keys, m, step, c0, j as int);
            lemma_walk_to_entry(ids, keys, m, step, c0, j + 1);
            assert(walk_segs(script, objs@, graph, m, g) == Ok::<Cursor, LinkError>(c));
        }
        let start = match script_seg.start() {
            LinkScriptSegmentStart::Unspecified => cur,
            LinkScriptSegmentStart::Addr(a) => {
                if cur > a {
                    proof {
                        lemma_walk_err(keys, m, step, c0, g + 1, n);
                    }
                    return Err(LinkError::SegmentOverlap { seg: seg_i });
                }
                a
            },
            LinkScriptSegmentStart::Align(x) => {
                if x != 1 {
                    proof {
                        lemma_walk_err(keys, m, step, c0, g + 1, n);
                    }
                    return Err(LinkError::SegmentAlignment { seg: seg_i });
                }
                cur
            },
        };
        let ghost entry = Cursor { addr: start as int, out: out as int };
        assert(segment_entry(script, objs@, graph, g) == entry);
        let ghost segs_before = segs@;
        let ghost sects_before = sects@;
        let (a, o) = match layout_sections(script, objs, graph, seg_i, start, out, sects) {
            Ok(t) => t,
            Err(e) => {
                proof {
                    lemma_walk_err(keys, m, step, c0, g + 1, n);
                }
                return Err(e);
            },
        };
        segs[seg_i.0] = LinkLayoutSegment { start, output_len: o - out, fill_byte: script_seg.fill_byte() };
        proof {
            let bound = list_bound(ids, j + 1, n);
            assert forall|g1: int| 0 <= g1 < bound && keys[g1] == m implies #[trigger] segs@[g1] == seg_layout(
                script,
                objs@,
                graph,
                g1,
            ) by {
                if g1 > g {
                    lemma_no_entry_between(ids, keys, m, j + 1, g1);
                }
            }
            assert forall|s: int|
                0 <= s < n_sects && graph.spec_sect_to_seg()[s].0 < bound && keys[graph.spec_sect_to_seg()[s].0 as int]
                    == m implies #[trigger] sects@[s] == sect_layout(script, objs@, graph, s) by {
                let g1 = graph.spec_sect_to_seg()[s].0 as int;
                if g1 > g {
                    lemma_no_entry_between(ids, keys, m, j + 1, g1);
                } else if g1 == g {
                    assert(sects@[s] == sect_record(script, objs@, graph, g, entry, s));
                } else {
                    assert(sects@[s] == sects_before[s]);
                }
            }
            assert forall|s: int|
                0 <= s < n_sects && keys[graph.spec_sect_to_seg()[s].0 as int] != m implies #[trigger] sects@[s]
                == old(sects)@[s] by {
                assert(sects@[s] == sects_before[s]);
            }
        }
        cur = a;
        out = o;
        j += 1;
    }
    Ok(out)
}

/// The file that segment `g` is written to.
pub open spec fn file_of_seg(graph: &LinkGraph, g: int) -> int {
    graph.spec_mem_to_file()[graph.spec_seg_to_mem()[g].0 as int].0 as int
}

/// The file that placed section `s` is written to.
pub open spec fn file_of_sect(graph: &LinkGraph, s: int) -> int {
    file_of_seg(graph, graph.spec_sect_to_seg()[s].0 as int)
}

/// Every element of the graph names an owner that exists.
proof fn lemma_owners_exist(script: &LinkScript, objs: Seq<Object>, graph: &LinkGraph)
    requires
        script.wf(),
        graph.wf_for(script, objs),
    ensures
        forall|m: int|
            0 <= m < graph.spec_mem_to_file().len() ==> 0 <= (#[trigger] graph.spec_mem_to_file()[m]).0
                < graph.spec_file_to_mems().len(),
        forall|g: int|
            0 <= g < graph.spec_seg_to_mem().len() ==> 0 <= (#[trigger] graph.spec_seg_to_mem()[g]).0
                < graph.spec_mem_to_file().len(),
        forall|s: int|
            0 <= s < graph.spec_sect_to_seg().len() ==> 0 <= (#[trigger] graph.spec_sect_to_seg()[s]).0
                < graph.spec_seg_to_mem().len(),
{
    assert forall|m: int| 0 <= m < graph.spec_mem_to_file().len() implies 0 <= (
    #[trigger] graph.spec_mem_to_file()[m]).0 < graph.spec_file_to_mems().len() by {
        assert(script.mems()[m].wf());
    }
    assert forall|g: int| 0 <= g < graph.spec_seg_to_mem().len() implies 0 <= (
    #[trigger] graph.spec_seg_to_mem()[g]).0 < graph.spec_mem_to_file().len() by {
        assert(script.segs()[g].mem_i.0 < script.mems().len());
    }
    assert forall|s: int| 0 <= s < graph.spec_sect_to_seg().len() implies 0 <= (
    #[trigger] graph.spec_sect_to_seg()[s]).0 < graph.spec_seg_to_mem().len() by {
        assert(placed_at(script, objs, graph.spec_sect_to_seg(), graph.spec_sect_to_obj_sect(), s));
    }
}

/// Places the memory regions of a file with all that they hold, and records
/// their layout. Returns the length of the file.
fn layout_memories(
    script: &LinkScript,
    objs: &[Object],
    graph: &LinkGraph,
    file_i: OutFileIdx,
    mems: &mut Vec<LinkLayoutMemory>,
    segs: &mut Vec<LinkLayoutSegment>,
    sects: &mut Vec<LinkLayoutSection>,
) -> (r: Result<usize, LinkError>)
    requires
        script.wf(),
        graph.wf_for(script, objs@),
        file_i.0 < graph.spec_file_to_mems().len(),
        old(mems)@.len() == graph.spec_mem_to_file().len(),
        old(segs)@.len() == graph.spec_seg_to_mem().len(),
        old(sects)@.len() == graph.spec_sect_to_seg().len(),
    ensures
        final(mems)@.len() == old(mems)@.len(),
        final(segs)@.len() == old(segs)@.len(),
        final(sects)@.len() == old(sects)@.len(),
        forall|m: int|
            0 <= m < old(mems)@.len() && graph.spec_mem_to_file()[m].0 != file_i.0 ==> #[trigger] final(mems)@[m]
                == old(mems)@[m],
        forall|g: int|
            0 <= g < old(segs)@.len() && file_of_seg(graph, g) != file_i.0 ==> #[trigger] final(segs)@[g] == old(
                segs)@[g],
        forall|s: int|
            0 <= s < old(sects)@.len() && file_of_sect(graph, s) != file_i.0 ==> #[trigger] final(sects)@[s]
                == old(sects)@[s],
        match r {
            Ok(len) => {
                &&& file_len(script, objs@, graph, file_i.0 as int) == Ok::<int, LinkError>(len as int)
                &&& forall|m: int|
                    0 <= m < old(mems)@.len() && graph.spec_mem_to_file()[m].0 == file_i.0 ==> #[trigger] final(
                        mems)@[m] == mem_layout(script, objs@, graph, m)
                &&& forall|g: int|
                    0 <= g < old(segs)@.len() && file_of_seg(graph, g) == file_i.0 ==> #[trigger] final(segs)@[g]
                        == seg_layout(script, objs@, graph, g)
                &&& forall|s: int|
                    0 <= s < old(sects)@.len() && file_of_sect(graph, s) == file_i.0 ==> #[trigger] final(
                        sects)@[s] == sect_layout(script, objs@, graph, s)
            },
            Err(e) => file_len(script, objs@, graph, file_i.0 as int) == Err::<int, LinkError>(e),
        },
{
    let list = graph.file_to_mems(file_i);
    let ghost keys = positions(graph.spec_mem_to_file());
    let ghost ids = positions(list@);
    let ghost f = file_i.0 as int;
    let ghost step = mem_step(script, objs@, graph);
    let ghost n = graph.spec_mem_to_file().len() as int;
    let ghost n_segs = graph.spec_seg_to_mem().len() as int;
    let ghost n_sects = graph.spec_sect_to_seg().len() as int;
    let mut off: usize = 0;
    let mut j: usize = 0;
    proof {
        assert(graph.spec_file_to_mems()[f]@ == list@);
        assert(lists_exactly(ids, keys, f));
        lemma_walk_to_entry(ids, keys, f, step, 0int, 0);
        lemma_owners_exist(script, objs@, graph);
        assert forall|m1: int| 0 <= m1 < list_bound(ids, 0, n) implies graph.spec_mem_to_file()[m1].0 != f by {
            lemma_no_entry_between(ids, keys, f, 0, m1);
            assert(keys[m1] == graph.spec_mem_to_file()[m1].0);
        }
    }
    while j < list.len()
        invariant
            script.wf(),
            graph.wf_for(script, objs@),
            f == file_i.0,
            n == graph.spec_mem_to_file().len(),
            n_segs == graph.spec_seg_to_mem().len(),
            n_sects == graph.spec_sect_to_seg().len(),
            keys == positions(graph.spec_mem_to_file()),
            ids == positions(list@),
            step == mem_step(script, objs@, graph),
            lists_exactly(ids, keys, f),
            mems@.len() == n,
            old(mems)@.len() == n,
            segs@.len() == n_segs,
            old(segs)@.len() == n_segs,
            sects@.len() == n_sects,
            old(sects)@.len() == n_sects,
            forall|g: int| 0 <= g < n_segs ==> 0 <= (#[trigger] graph.spec_seg_to_mem()[g]).0 < n,
            forall|s: int| 0 <= s < n_sects ==> 0 <= (#[trigger] graph.spec_sect_to_seg()[s]).0 < n_segs,
            j <= list@.len(),
            walk(keys, f, step, 0int, list_bound(ids, j as int, n)) == Ok::<int, LinkError>(off as int),
            forall|m: int| 0 <= m < n && keys[m] != f ==> #[trigger] mems@[m] == old(mems)@[m],
            forall|g: int| 0 <= g < n_segs && file_of_seg(graph, g) != f ==> #[trigger] segs@[g] == old(segs)@[g],
            forall|s: int|
                0 <= s < n_sects && file_of_sect(graph, s) != f ==> #[trigger] sects@[s] == old(sects)@[s],
            forall|m: int|
                0 <= m < list_bound(ids, j as int, n) && keys[m] == f ==> #[trigger] mems@[m] == mem_layout(
                    script,
                    objs@,
                    graph,
                    m,
                ),
            forall|g: int|
                0 <= g < n_segs && graph.spec_seg_to_mem()[g].0 < list_bound(ids, j as int, n) && file_of_seg(
                    graph,
                    g,
                ) == f ==> #[trigger] segs@[g] == seg_layout(script, objs@, graph, g),
            forall|s: int|
                0 <= s < n_sects && graph.spec_seg_to_mem()[graph.spec_sect_to_seg()[s].0 as int].0 < list_bound(
                    ids,
                    j as int,
                    n,
                ) && file_of_sect(graph, s) == f ==> #[trigger] sects@[s] == sect_layout(script, objs@, graph, s),
        decreases list@.len() - j,
    {
        let mem_i = list[j];
        let ghost m = mem_i.0 as int;
        assert(m == ids[j as int]);
        assert(0 <= m < n && keys[m] == f);
        assert(script.mems()[m].wf());
        let script_mem = script.memory(mem_i);
        proof {
            lemma_walk_step(ids, keys, f, step, 0int, j as int);
            lemma_walk_to_entry(ids, keys, f, step, 0int, j + 1);
        }
        let ghost segs_before = segs@;
        let ghost sects_before = sects@;
        let out = match layout_segments(script, objs, graph, mem_i, segs, sects) {
            Ok(out) => out,
            Err(e) => {
                proof {
                    lemma_walk_err(keys, f, step, 0int, m + 1, n);
                }
                return Err(e);
            },
        };
        let output_len = if script_mem.is_filled() {
            script_mem.len()
        } else {
            out
        };
        assert(memory_output_len(script, objs@, graph, m) == Ok::<int, LinkError>(output_len as int));
        if output_len > usize::MAX - off {
            proof {
                lemma_walk_err(keys, f, step, 0int, m + 1, n);
            }
            return Err(LinkError::AddressOverflow { mem: mem_i });
        }
        mems[mem_i.0] = LinkLayoutMemory {
            file_off: off,
            range: script_mem.range(),
            output_len,
            filled: script_mem.is_filled(),
            fill_byte: script_mem.fill_byte(),
        };
        proof {
            let bound = list_bound(ids, j + 1, n);
            assert forall|m1: int| 0 <= m1 < bound && keys[m1] == f implies #[trigger] mems@[m1] == mem_layout(
                script,
                objs@,
                graph,
                m1,
            ) by {
                if m1 > m {
                    lemma_no_entry_between(ids, keys, f, j + 1, m1);
                }
            }
            assert forall|g: int|
                0 <= g < n_segs && graph.spec_seg_to_mem()[g].0 < bound && file_of_seg(graph, g)
                    == f implies #[trigger] segs@[g] == seg_layout(script, objs@, graph, g) by {
                let m1 = graph.spec_seg_to_mem()[g].0 as int;
                if m1 > m {
                    lemma_no_entry_between(ids, keys, f, j + 1, m1);
                } else if m1 < m {
                    assert(segs@[g] == segs_before[g]);
                }
            }
            assert forall|s: int|
                0 <= s < n_sects && graph.spec_seg_to_mem()[graph.spec_sect_to_seg()[s].0 as int].0 < bound
                    && file_of_sect(graph, s) == f implies #[trigger] sects@[s] == sect_layout(
                script,
                objs@,
                graph,
                s,
            ) by {
                let m1 = graph.spec_seg_to_mem()[graph.spec_sect_to_seg()[s].0 as int].0 as int;
                if m1 > m {
                    lemma_no_entry_between(ids, keys, f, j + 1, m1);
                } else if m1 < m {
                    assert(sects@[s] == sects_before[s]);
                }
            }
            assert forall|g: int| 0 <= g < n_segs && file_of_seg(graph, g) != f implies #[trigger] segs@[g] == old(
                segs)@[g] by {
                assert(segs@[g] == segs_before[g]);
            }
            assert forall|s: int| 0 <= s < n_sects && file_of_sect(graph, s) != f implies #[trigger] sects@[s]
                == old(sects)@[s] by {
                assert(sects@[s] == sects_before[s]);
            }
        }
        off += output_len;
        j += 1;
    }
    Ok(off)
}

/// A walk over the files that has failed stays failed.
proof fn lemma_walk_files_err(script: &LinkScript, objs: Seq<Object>, graph: &LinkGraph, a: int, b: int)
    requires
        a <= b,
        walk_files(script, objs, graph, a) is Err,
    ensures
        walk_files(script, objs, graph, b) == walk_files(script, objs, graph, a),
    decreases b - a,
{
    if a < b {
        lemma_walk_files_err(script, objs, graph, a, b - 1);
    }
}

/// The layout of all elements of a link.
#[derive(Debug)]
pub struct LinkLayout {
    files: Vec<LinkLayoutFile>,
    mems: Vec<LinkLayoutMemory>,
    segs: Vec<LinkLayoutSegment>,
    sects: Vec<LinkLayoutSection>,
}

impl LinkLayout {
    pub closed spec fn files(&self) -> Seq<LinkLayoutFile> {
        self.files@
    }

    pub closed spec fn mems(&self) -> Seq<LinkLayoutMemory> {
        self.mems@
    }

    pub closed spec fn segs(&self) -> Seq<LinkLayoutSegment> {
        self.segs@
    }

    pub closed spec fn sects(&self) -> Seq<LinkLayoutSection> {
        self.sects@
    }

    /// The layout has an entry for every element of `graph`.
    pub open spec fn shaped_for(&self, graph: &LinkGraph) -> bool {
        &&& self.files().len() == graph.spec_file_to_mems().len()
        &&& self.mems().len() == graph.spec_mem_to_file().len()
        &&& self.segs().len() == graph.spec_seg_to_mem().len()
        &&& self.sects().len() == graph.spec_sect_to_seg().len()
    }

    /// The layout is the one of `script`, `objs` and `graph`: laying them out
    /// gives no error, and every element has the layout that the walk
    /// through its file gives it.
    pub open spec fn wf_for(&self, script: &LinkScript, objs: Seq<Object>, graph: &LinkGraph) -> bool {
        &&& layout_result(script, objs, graph) is Ok
        &&& self.shaped_for(graph)
        &&& forall|f: int|
            0 <= f < self.files().len() ==> #[trigger] self.files()[f] == file_layout(script, objs, graph, f)
        &&& forall|m: int|
            0 <= m < self.mems().len() ==> #[trigger] self.mems()[m] == mem_layout(script, objs, graph, m)
        &&& forall|g: int|
            0 <= g < self.segs().len() ==> #[trigger] self.segs()[g] == seg_layout(script, objs, graph, g)
        &&& forall|s: int|
            0 <= s < self.sects().len() ==> #[trigger] self.sects()[s] == sect_layout(script, objs, graph, s)
    }

    pub fn section_count(&self) -> (r: usize)
        ensures
            r == self.sects().len(),
    {
        self.sects.len()
    }

    pub fn file(&self, file_i: OutFileIdx) -> (r: &LinkLayoutFile)
        requires
            file_i.0 < self.files().len(),
        ensures
            *r == self.files()[file_i.0 as int],
    {
        &self.files[file_i.0]
    }

    pub fn memory(&self, mem_i: MemIdx) -> (r: &LinkLayoutMemory)
        requires
            mem_i.0 < self.mems().len(),
        ensures
            *r == self.mems()[mem_i.0 as int],
    {
        &self.mems[mem_i.0]
    }

    pub fn segment(&self, seg_i: SegIdx) -> (r: &LinkLayoutSegment)
        requires
            seg_i.0 < self.segs().len(),
        ensures
            *r == self.segs()[seg_i.0 as int],
    {
        &self.segs[seg_i.0]
    }

    pub fn section(&self, sect_i: SectIdx) -> (r: &LinkLayoutSection)
        requires
            sect_i.0 < self.sects().len(),
        ensures
            *r == self.sects()[sect_i.0 as int],
    {
        &self.sects[sect_i.0]
    }

    /// Lays out a link. The files are taken in the order of their
    /// declaration, and in each its memory regions, their segments and the
    /// sections of these. A region starts at its lowest address; a segment
    /// starts where it asks to, or at the address reached; every section
    /// moves the address on by its length, and gives that many bytes to the
    /// file unless its segment is BSS. The link ends at the first element
    /// that cannot be placed.
    pub fn new(script: &LinkScript, objs: &[Object], graph: &LinkGraph) -> (r: Result<Self, LinkError>)
        requires
            script.wf(),
            graph.wf_for(script, objs@),
        ensures
            match r {
                Ok(l) => l.wf_for(script, objs@, graph),
                Err(e) => layout_result(script, objs@, graph) == Err::<(), LinkError>(e),
            },
    {
        let ghost n_files = graph.spec_file_to_mems().len() as int;
        let ghost n_mems = graph.spec_mem_to_file().len() as int;
        let ghost n_segs = graph.spec_seg_to_mem().len() as int;
        let ghost n_sects = graph.spec_sect_to_seg().len() as int;
        let mut files: Vec<LinkLayoutFile> = Vec::new();
        let mut mems: Vec<LinkLayoutMemory> = Vec::new();
        let mut segs: Vec<LinkLayoutSegment> = Vec::new();
        let mut sects: Vec<LinkLayoutSection> = Vec::new();
        let mut i: usize = 0;
        while i < graph.mem_count()
            invariant
                i <= graph.spec_mem_names().len(),
                mems@.len() == i,
            decreases graph.spec_mem_names().len() - i,
        {
            mems.push(
                LinkLayoutMemory {
                    file_off: 0,
                    range: NonemptyRange::from_min_max(0, 0),
                    output_len: 0,
                    filled: false,
                    fill_byte: 0,
                },
            );
            i += 1;
        }
        let mut i: usize = 0;
        while i < graph.seg_count()
            invariant
                i <= graph.spec_seg_names().len(),
                segs@.len() == i,
            decreases graph.spec_seg_names().len() - i,
        {
            segs.push(LinkLayoutSegment { start: 0, output_len: 0, fill_byte: None });
            i += 1;
        }
        let mut i: usize = 0;
        while i < graph.sect_count()
            invariant
                i <= graph.spec_sect_to_seg().len(),
                sects@.len() == i,
            decreases graph.spec_sect_to_seg().len() - i,
        {
            sects.push(LinkLayoutSection { start: 0, output_len: 0 });
            i += 1;
        }
        proof {
            lemma_owners_exist(script, objs@, graph);
        }
        let mut f: usize = 0;
        while f < graph.file_count()
            invariant
                script.wf(),
                graph.wf_for(script, objs@),
                n_files == graph.spec_file_to_mems().len(),
                n_files == graph.spec_file_names().len(),
                n_mems == graph.spec_mem_to_file().len(),
                n_segs == graph.spec_seg_to_mem().len(),
                n_sects == graph.spec_sect_to_seg().len(),
                f <= n_files,
                files@.len() == f,
                mems@.len() == n_mems,
                segs@.len() == n_segs,
                sects@.len() == n_sects,
                walk_files(script, objs@, graph, f as int) is Ok,
                forall|f1: int| 0 <= f1 < f ==> #[trigger] files@[f1] == file_layout(script, objs@, graph, f1),
                forall|m: int|
                    0 <= m < n_mems && graph.spec_mem_to_file()[m].0 < f ==> #[trigger] mems@[m] == mem_layout(
                        script,
                        objs@,
                        graph,
                        m,
                    ),
                forall|g: int|
                    0 <= g < n_segs && file_of_seg(graph, g) < f ==> #[trigger] segs@[g] == seg_layout(
                        script,
                        objs@,
                        graph,
                        g,
                    ),
                forall|s: int|
                    0 <= s < n_sects && file_of_sect(graph, s) < f ==> #[trigger] sects@[s] == sect_layout(
                        script,
                        objs@,
                        graph,
                        s,
                    ),
            decreases n_files - f,
        {
            let ghost mems_before = mems@;
            let ghost segs_before = segs@;
            let ghost sects_before = sects@;
            let len = match layout_memories(
                script,
                objs,
                graph,
                OutFileIdx::new(f),
                &mut mems,
                &mut segs,
                &mut sects,
            ) {
                Ok(len) => len,
                Err(e) => {
                    proof {
                        lemma_walk_files_err(script, objs@, graph, f + 1, n_files);
                    }
                    return Err(e);
                },
            };
            files.push(LinkLayoutFile { len });
            proof {
                assert forall|m: int|
                    0 <= m < n_mems && graph.spec_mem_to_file()[m].0 < f + 1 implies #[trigger] mems@[m]
                    == mem_layout(script, objs@, graph, m) by {
                    if graph.spec_mem_to_file()[m].0 < f {
                        assert(mems@[m] == mems_before[m]);
                    }
                }
                assert forall|g: int| 0 <= g < n_segs && file_of_seg(graph, g) < f + 1 implies #[trigger] segs@[g]
                    == seg_layout(script, objs@, graph, g) by {
                    if file_of_seg(graph, g) < f {
                        assert(segs@[g] == segs_before[g]);
                    }
                }
                assert forall|s: int|
                    0 <= s < n_sects && file_of_sect(graph, s) < f + 1 implies #[trigger] sects@[s] == sect_layout(
                    script,
                    objs@,
                    graph,
                    s,
                ) by {
                    if file_of_sect(graph, s) < f {
                        assert(sects@[s] == sects_before[s]);
                    }
                }
            }
            f += 1;
        }
        Ok(Self { files, mems, segs, sects })
    }
}

impl LinkLayoutFile {
    pub fn len(&self) -> (r: usize)
        ensures
            r == self.len,
    {
        self.len
    }

    pub fn is_empty(&self) -> (r: bool)
        ensures
            r == (self.len == 0),
    {
        self.len == 0
    }
}

impl LinkLayoutMemory {
    pub fn file_offset(&self) -> (r: usize)
        ensures
            r == self.file_off,
    {
        self.file_off
    }

    pub fn range(&self) -> (r: NonemptyRange)
        ensures
            r == self.range,
    {
        self.range
    }

    pub fn start(&self) -> (r: usize)
        ensures
            r == self.range.spec_min(),
    {
        self.range.min()
    }

    pub fn output_len(&self) -> (r: usize)
        ensures
            r == self.output_len,
    {
        self.output_len
    }

    pub fn output_is_empty(&self) -> (r: bool)
        ensures
            r == (self.output_len == 0),
    {
        self.output_len == 0
    }

    pub fn is_filled(&self) -> (r: bool)
        ensures
            r == self.filled,
    {
        self.filled
    }

    pub fn fill_byte(&self) -> (r: u8)
        ensures
            r == self.fill_byte,
    {
        self.fill_byte
    }
}

impl LinkLayoutSegment {
    pub fn start(&self) -> (r: usize)
        ensures
            r == self.start,
    {
        self.start
    }

    pub fn output_len(&self) -> (r: usize)
        ensures
            r == self.output_len,
    {
        self.output_len
    }

    pub fn output_is_empty(&self) -> (r: bool)
        ensures
            r == (self.output_len == 0),
    {
        self.output_len == 0
    }

    pub fn fill_byte(&self) -> (r: Option<u8>)
        ensures
            r == self.fill_byte,
    {
        self.fill_byte
    }
}

impl LinkLayoutSection {
    pub fn start(&self) -> (r: usize)
        ensures
            r == self.start,
    {
        self.start
    }

    pub fn output_len(&self) -> (r: usize)
        ensures
            r == self.output_len,
    {
        self.output_len
    }

    pub fn output_is_empty(&self) -> (r: bool)
        ensures
            r == (self.output_len == 0),
    {
        self.output_len == 0
    }
}

} // verus!
