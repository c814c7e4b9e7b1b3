//! Where the bytes of the elements lie in a file, and what holds of the
//! bytes that no section writes.

use vstd::prelude::*;
use crate::index::positions;
use crate::link::emit::{
    EmitState, file_bytes, filled, memory_bytes, memory_step, overlay, place_memory_bytes,
    place_segment_bytes, section_bytes, section_step, segment_bytes, segment_offset, segment_step,
    write_fragment, write_fragments,
};
use crate::link::graph::{LinkGraph, placed_at};
use crate::link::layout::LinkLayout;
use crate::link::symbol::SymbolTable;
use crate::link::laws::{
    laid_out, lemma_file_ok, lemma_memory_ok, lemma_section_ok, lemma_segment_ok, lemma_walk_sects_sums,
    lemma_walk_segs_sums, section_lens, section_output_lens, segment_output_lens,
};
use crate::link::layout::{
    file_layout, mem_layout, mem_step, recorded_segment_outputs, sect_layout, section_of, seg_layout,
    segment_entry, walk_mems, walk_segs,
};
use crate::link::walk::{
    lemma_sum_where_below, lemma_sum_where_grows, lemma_sum_where_same, lemma_walk_ok_prefix, walk,
};
use crate::object::{Fragment, Object};
use crate::script::LinkScript;

verus! {

/// The replay of fragments keeps the length of what it writes over.
pub proof fn lemma_fragments_keep_length(
    graph: &LinkGraph,
    layout: &LinkLayout,
    symbols: &SymbolTable,
    o: int,
    fill: u8,
    frags: Seq<Fragment>,
    st: EmitState,
    n: int,
)
    requires
        write_fragments(graph, layout, symbols, o, fill, frags, st, n) is Ok,
    ensures
        write_fragments(graph, layout, symbols, o, fill, frags, st, n)->Ok_0.buf.len() == st.buf.len(),
    decreases n,
{
    reveal(write_fragment);
    if n > 0 {
        lemma_fragments_keep_length(graph, layout, symbols, o, fill, frags, st, n - 1);
    }
}

/// Byte `k` of a segment lies in the bytes of its section `s`.
pub open spec fn in_section(graph: &LinkGraph, layout: &LinkLayout, g: int, s: int, k: int) -> bool {
    &&& 0 <= s < graph.spec_sect_to_seg().len()
    &&& graph.spec_sect_to_seg()[s].0 == g
    &&& layout.sects()[s].output_len > 0
    &&& layout.sects()[s].start - layout.segs()[g].start <= k < layout.sects()[s].start - layout.segs()[g].start
        + layout.sects()[s].output_len
}

/// Byte `k` of a segment lies in the bytes of one of its sections below `n`.
pub open spec fn in_sections_below(graph: &LinkGraph, layout: &LinkLayout, g: int, k: int, n: int) -> bool {
    exists|s: int| 0 <= s < n && #[trigger] in_section(graph, layout, g, s, k)
}

/// Writing the sections of a segment keeps the length of the bytes, and
/// keeps every byte that lies in no section.
pub proof fn lemma_segment_keeps(
    objs: Seq<Object>,
    graph: &LinkGraph,
    layout: &LinkLayout,
    symbols: &SymbolTable,
    g: int,
    fill: u8,
    win: Seq<u8>,
    n: int,
)
    requires
        0 <= n <= graph.spec_sect_to_seg().len(),
        walk(
            positions(graph.spec_sect_to_seg()),
            g,
            section_step(objs, graph, layout, symbols, g, fill),
            win,
            n,
        ) is Ok,
    ensures
        walk(
            positions(graph.spec_sect_to_seg()),
            g,
            section_step(objs, graph, layout, symbols, g, fill),
            win,
            n,
        )->Ok_0.len() == win.len(),
        forall|k: int|
            0 <= k < win.len() && !in_sections_below(graph, layout, g, k, n) ==> #[trigger] walk(
                positions(graph.spec_sect_to_seg()),
                g,
                section_step(objs, graph, layout, symbols, g, fill),
                win,
                n,
            )->Ok_0[k] == win[k],
    decreases n,
{
    if n > 0 {
        let keys = positions(graph.spec_sect_to_seg());
        let step = section_step(objs, graph, layout, symbols, g, fill);
        lemma_walk_ok_prefix(keys, g, step, win, n - 1, n);
        lemma_segment_keeps(objs, graph, layout, symbols, g, fill, win, n - 1);
        let before = walk(keys, g, step, win, n - 1)->Ok_0;
        let after = walk(keys, g, step, win, n)->Ok_0;
        let s = n - 1;
        if keys[s] == g {
            assert(graph.spec_sect_to_seg()[s].0 == g);
            let sect = layout.sects()[s];
            let off = sect.start - layout.segs()[g].start;
            if sect.output_len > 0 {
                let origin = graph.spec_sect_to_obj_sect()[s];
                let frags = objs[origin.0.0 as int].sections()[origin.1.0 as int].fragments@;
                let background = before.subrange(off, off + sect.output_len);
                lemma_fragments_keep_length(
                    graph,
                    layout,
                    symbols,
                    origin.0.0 as int,
                    fill,
                    frags,
                    EmitState { buf: background, off: 0 },
                    frags.len() as int,
                );
            }
        }
        assert forall|k: int| 0 <= k < win.len() && !in_sections_below(graph, layout, g, k, n) implies after[k]
            == win[k] by {
            if in_sections_below(graph, layout, g, k, n - 1) {
                let s1 = choose|s1: int| 0 <= s1 < n - 1 && #[trigger] in_section(graph, layout, g, s1, k);
                assert(in_section(graph, layout, g, s1, k));
            }
            assert(!in_section(graph, layout, g, s, k));
        }
    }
}

/// The number of bytes that a fragment writes.
pub open spec fn fragment_len(frag: Fragment) -> int {
    match frag {
        Fragment::Literal(bytes) => bytes@.len() as int,
        Fragment::Fill(len) => len as int,
        Fragment::ExprU8(_) => 1,
        Fragment::ExprU16(_) => 2,
        Fragment::ExprU24(_) => 3,
        Fragment::ExprU32(_) => 4,
        Fragment::ExprI8(_) => 1,
        Fragment::ExprI16(_) => 2,
        Fragment::ExprI24(_) => 3,
        Fragment::ExprI32(_) => 4,
    }
}

/// The byte of its section at which fragment `i` starts.
pub open spec fn fragment_start(frags: Seq<Fragment>, i: int) -> int
    decreases i,
{
    if i <= 0 {
        0
    } else {
        fragment_start(frags, i - 1) + fragment_len(frags[i - 1])
    }
}

/// Byte `k` of a section lies in its fragment `i`.
pub open spec fn in_fragment(frags: Seq<Fragment>, i: int, k: int) -> bool {
    fragment_start(frags, i) <= k < fragment_start(frags, i) + fragment_len(frags[i])
}

/// Byte `k` of a section is written by a literal or by an expression among
/// its first `n` fragments.
pub open spec fn in_data(frags: Seq<Fragment>, k: int, n: int) -> bool {
    exists|i: int| 0 <= i < n && !(frags[i] is Fill) && #[trigger] in_fragment(frags, i, k)
}

/// The replay of fragments writes each fragment where it starts. A byte that
/// was the fill byte, and that no literal and no expression writes, is the
/// fill byte after the replay: a fill run writes nothing else.
pub proof fn lemma_fragments_fill(
    graph: &LinkGraph,
    layout: &LinkLayout,
    symbols: &SymbolTable,
    o: int,
    fill: u8,
    frags: Seq<Fragment>,
    background: Seq<u8>,
    n: int,
    k: int,
)
    requires
        0 <= n <= frags.len(),
        write_fragments(graph, layout, symbols, o, fill, frags, EmitState { buf: background, off: 0 }, n) is Ok,
    ensures
        write_fragments(
            graph,
            layout,
            symbols,
            o,
            fill,
            frags,
            EmitState { buf: background, off: 0 },
            n,
        )->Ok_0.off == fragment_start(frags, n),
        write_fragments(
            graph,
            layout,
            symbols,
            o,
            fill,
            frags,
            EmitState { buf: background, off: 0 },
            n,
        )->Ok_0.buf.len() == background.len(),
        0 <= k < background.len() && background[k] == fill && !in_data(frags, k, n) ==> write_fragments(
            graph,
            layout,
            symbols,
            o,
            fill,
            frags,
            EmitState { buf: background, off: 0 },
            n,
        )->Ok_0.buf[k] == fill,
    decreases n,
{
    reveal(write_fragment);
    if n > 0 {
        lemma_fragments_fill(graph, layout, symbols, o, fill, frags, background, n - 1, k);
        if 0 <= k < background.len() && background[k] == fill && !in_data(frags, k, n) {
            if in_data(frags, k, n - 1) {
                let i = choose|i: int| 0 <= i < n - 1 && !(frags[i] is Fill) && #[trigger] in_fragment(frags, i, k);
                assert(in_fragment(frags, i, k));
            }
            if in_fragment(frags, n - 1, k) {
                assert(frags[n - 1] is Fill);
            }
        }
    }
}

/// Byte `k` of segment `g` is written by a literal or by an expression of
/// its section `s`.
pub open spec fn in_section_data(
    objs: Seq<Object>,
    graph: &LinkGraph,
    layout: &LinkLayout,
    g: int,
    s: int,
    k: int,
) -> bool {
    in_section(graph, layout, g, s, k) && in_data(
        section_of(objs, graph, s).fragments@,
        k - (layout.sects()[s].start - layout.segs()[g].start),
        section_of(objs, graph, s).fragments@.len() as int,
    )
}

/// Byte `k` of segment `g` is written by a literal or by an expression of
/// one of its sections below `n`.
pub open spec fn in_segment_data(
    objs: Seq<Object>,
    graph: &LinkGraph,
    layout: &LinkLayout,
    g: int,
    k: int,
    n: int,
) -> bool {
    exists|s: int| 0 <= s < n && #[trigger] in_section_data(objs, graph, layout, g, s, k)
}

/// A byte of a segment that was the fill byte, and that no literal and no
/// expression of a section writes, is the fill byte after the sections are
/// written.
pub proof fn lemma_segment_fill(
    objs: Seq<Object>,
    graph: &LinkGraph,
    layout: &LinkLayout,
    symbols: &SymbolTable,
    g: int,
    fill: u8,
    win: Seq<u8>,
    n: int,
    k: int,
)
    requires
        0 <= n <= graph.spec_sect_to_seg().len(),
        walk(
            positions(graph.spec_sect_to_seg()),
            g,
            section_step(objs, graph, layout, symbols, g, fill),
            win,
            n,
        ) is Ok,
        0 <= k < win.len(),
        win[k] == fill,
        !in_segment_data(objs, graph, layout, g, k, n),
    ensures
        walk(
            positions(graph.spec_sect_to_seg()),
            g,
            section_step(objs, graph, layout, symbols, g, fill),
            win,
            n,
        )->Ok_0[k] == fill,
    decreases n,
{
    if n > 0 {
        let keys = positions(graph.spec_sect_to_seg());
        let step = section_step(objs, graph, layout, symbols, g, fill);
        lemma_walk_ok_prefix(keys, g, step, win, n - 1, n);
        lemma_segment_keeps(objs, graph, layout, symbols, g, fill, win, n - 1);
        if in_segment_data(objs, graph, layout, g, k, n - 1) {
            let s1 = choose|s1: int| 0 <= s1 < n - 1 && #[trigger] in_section_data(objs, graph, layout, g, s1, k);
            assert(in_section_data(objs, graph, layout, g, s1, k));
        }
        lemma_segment_fill(objs, graph, layout, symbols, g, fill, win, n - 1, k);
        let before = walk(keys, g, step, win, n - 1)->Ok_0;
        let s = n - 1;
        if keys[s] == g {
            assert(graph.spec_sect_to_seg()[s].0 == g);
            let sect = layout.sects()[s];
            let off = sect.start - layout.segs()[g].start;
            if sect.output_len > 0 {
                let origin = graph.spec_sect_to_obj_sect()[s];
                let frags = objs[origin.0.0 as int].sections()[origin.1.0 as int].fragments@;
                let background = before.subrange(off, off + sect.output_len);
                assert(!in_section_data(objs, graph, layout, g, s, k));
                lemma_fragments_fill(
                    graph,
                    layout,
                    symbols,
                    origin.0.0 as int,
                    fill,
                    frags,
                    background,
                    frags.len() as int,
                    k - off,
                );
            }
        }
    }
}

/// Byte `k` of memory region `m` lies in the bytes of segment `g`.
pub open spec fn in_window(graph: &LinkGraph, layout: &LinkLayout, m: int, g: int, k: int) -> bool {
    layout.segs()[g].output_len > 0 && segment_offset(graph, layout, m, g) <= k < segment_offset(graph, layout, m, g)
        + layout.segs()[g].output_len
}

/// Byte `k` of memory region `m` lies in the bytes of its segment `g`.
pub open spec fn in_segment(graph: &LinkGraph, layout: &LinkLayout, m: int, g: int, k: int) -> bool {
    0 <= g < graph.spec_seg_to_mem().len() && graph.spec_seg_to_mem()[g].0 == m && in_window(graph, layout, m, g, k)
}

/// The byte that fills segment `g` where it stands over the byte `under`.
pub open spec fn segment_fill(layout: &LinkLayout, g: int, under: u8) -> u8 {
    match layout.segs()[g].fill_byte {
        Some(b) => b,
        None => under,
    }
}

/// Writing a segment over the bytes of its region keeps their length and
/// every byte outside the segment. A byte of the segment that lies in no
/// section is the fill byte of the segment, or what stood there.
proof fn lemma_segment_step(
    objs: Seq<Object>,
    graph: &LinkGraph,
    layout: &LinkLayout,
    symbols: &SymbolTable,
    m: int,
    g: int,
    cur: Seq<u8>,
)
    requires
        place_segment_bytes(objs, graph, layout, symbols, m, g, cur) is Ok,
    ensures
        place_segment_bytes(objs, graph, layout, symbols, m, g, cur)->Ok_0.len() == cur.len(),
        forall|k: int|
            0 <= k < cur.len() && !in_window(graph, layout, m, g, k) ==> #[trigger] place_segment_bytes(
                objs,
                graph,
                layout,
                symbols,
                m,
                g,
                cur,
            )->Ok_0[k] == cur[k],
        forall|k: int|
            0 <= k < cur.len() && in_window(graph, layout, m, g, k) && (layout.segs()[g].fill_byte is None
                ==> cur[k] == layout.mems()[m].fill_byte) && !in_segment_data(
                objs,
                graph,
                layout,
                g,
                k - segment_offset(graph, layout, m, g),
                graph.spec_sect_to_seg().len() as int,
            ) ==> #[trigger] place_segment_bytes(objs, graph, layout, symbols, m, g, cur)->Ok_0[k] == segment_fill(
                layout,
                g,
                cur[k],
            ),
{
    let seg = layout.segs()[g];
    let off = segment_offset(graph, layout, m, g);
    if seg.output_len > 0 {
        let background = match seg.fill_byte {
            Some(b) => filled(seg.output_len as int, b),
            None => cur.subrange(off, off + seg.output_len),
        };
        let fill = match seg.fill_byte {
            Some(b) => b,
            None => layout.mems()[m].fill_byte,
        };
        lemma_segment_keeps(
            objs,
            graph,
            layout,
            symbols,
            g,
            fill,
            background,
            graph.spec_sect_to_seg().len() as int,
        );
        let bytes = segment_bytes(objs, graph, layout, symbols, g, fill, background)->Ok_0;
        let next = place_segment_bytes(objs, graph, layout, symbols, m, g, cur)->Ok_0;
        assert(next == overlay(cur, off, bytes));
        assert forall|k: int|
            0 <= k < cur.len() && in_window(graph, layout, m, g, k) && (seg.fill_byte is None ==> cur[k]
                == layout.mems()[m].fill_byte) && !in_segment_data(
                objs,
                graph,
                layout,
                g,
                k - off,
                graph.spec_sect_to_seg().len() as int,
            ) implies next[k] == segment_fill(layout, g, cur[k]) by {
            assert(background[k - off] == fill);
            lemma_segment_fill(
                objs,
                graph,
                layout,
                symbols,
                g,
                fill,
                background,
                graph.spec_sect_to_seg().len() as int,
                k - off,
            );
        }
    }
}

/// Writing the segments of a region keeps the length of the bytes.
pub proof fn lemma_memory_keeps_length(
    objs: Seq<Object>,
    graph: &LinkGraph,
    layout: &LinkLayout,
    symbols: &SymbolTable,
    m: int,
    win: Seq<u8>,
    n: int,
)
    requires
        0 <= n <= graph.spec_seg_to_mem().len(),
        walk(positions(graph.spec_seg_to_mem()), m, segment_step(objs, graph, layout, symbols, m), win, n) is Ok,
    ensures
        walk(
            positions(graph.spec_seg_to_mem()),
            m,
            segment_step(objs, graph, layout, symbols, m),
            win,
            n,
        )->Ok_0.len() == win.len(),
    decreases n,
{
    if n > 0 {
        let keys = positions(graph.spec_seg_to_mem());
        let step = segment_step(objs, graph, layout, symbols, m);
        lemma_walk_ok_prefix(keys, m, step, win, n - 1, n);
        lemma_memory_keeps_length(objs, graph, layout, symbols, m, win, n - 1);
        if keys[n - 1] == m {
            lemma_segment_step(objs, graph, layout, symbols, m, n - 1, walk(keys, m, step, win, n - 1)->Ok_0);
        }
    }
}

/// A byte of a region that lies in none of its segments stays as it was.
pub proof fn lemma_memory_keeps_outside(
    objs: Seq<Object>,
    graph: &LinkGraph,
    layout: &LinkLayout,
    symbols: &SymbolTable,
    m: int,
    win: Seq<u8>,
    n: int,
    k: int,
)
    requires
        0 <= n <= graph.spec_seg_to_mem().len(),
        walk(positions(graph.spec_seg_to_mem()), m, segment_step(objs, graph, layout, symbols, m), win, n) is Ok,
        0 <= k < win.len(),
        forall|g: int| 0 <= g < n ==> !#[trigger] in_segment(graph, layout, m, g, k),
    ensures
        walk(
            positions(graph.spec_seg_to_mem()),
            m,
            segment_step(objs, graph, layout, symbols, m),
            win,
            n,
        )->Ok_0[k] == win[k],
    decreases n,
{
    if n > 0 {
        let keys = positions(graph.spec_seg_to_mem());
        let step = segment_step(objs, graph, layout, symbols, m);
        lemma_walk_ok_prefix(keys, m, step, win, n - 1, n);
        lemma_memory_keeps_outside(objs, graph, layout, symbols, m, win, n - 1, k);
        lemma_memory_keeps_length(objs, graph, layout, symbols, m, win, n - 1);
        if keys[n - 1] == m {
            assert(!in_segment(graph, layout, m, n - 1, k));
            assert(graph.spec_seg_to_mem()[n - 1].0 == m);
            lemma_segment_step(objs, graph, layout, symbols, m, n - 1, walk(keys, m, step, win, n - 1)->Ok_0);
        }
    }
}

/// A byte of a region that lies in one of its segments alone, and that no
/// literal and no expression writes there, is the fill byte of that segment,
/// or the fill byte of the region that stood there.
pub proof fn lemma_memory_fills_segment(
    objs: Seq<Object>,
    graph: &LinkGraph,
    layout: &LinkLayout,
    symbols: &SymbolTable,
    m: int,
    win: Seq<u8>,
    n: int,
    g: int,
    k: int,
)
    requires
        0 <= g < n <= graph.spec_seg_to_mem().len(),
        walk(positions(graph.spec_seg_to_mem()), m, segment_step(objs, graph, layout, symbols, m), win, n) is Ok,
        0 <= k < win.len(),
        in_segment(graph, layout, m, g, k),
        forall|g1: int| 0 <= g1 < n && g1 != g ==> !#[trigger] in_segment(graph, layout, m, g1, k),
        layout.segs()[g].fill_byte is None ==> win[k] == layout.mems()[m].fill_byte,
        !in_segment_data(
            objs,
            graph,
            layout,
            g,
            k - segment_offset(graph, layout, m, g),
            graph.spec_sect_to_seg().len() as int,
        ),
    ensures
        walk(
            positions(graph.spec_seg_to_mem()),
            m,
            segment_step(objs, graph, layout, symbols, m),
            win,
            n,
        )->Ok_0[k] == segment_fill(layout, g, win[k]),
    decreases n,
{
    let keys = positions(graph.spec_seg_to_mem());
    let step = segment_step(objs, graph, layout, symbols, m);
    lemma_walk_ok_prefix(keys, m, step, win, n - 1, n);
    lemma_memory_keeps_length(objs, graph, layout, symbols, m, win, n - 1);
    let before = walk(keys, m, step, win, n - 1)->Ok_0;
    if n - 1 == g {
        lemma_memory_keeps_outside(objs, graph, layout, symbols, m, win, g, k);
        assert(keys[g] == m);
        lemma_segment_step(objs, graph, layout, symbols, m, g, before);
    } else {
        lemma_memory_fills_segment(objs, graph, layout, symbols, m, win, n - 1, g, k);
        if keys[n - 1] == m {
            assert(!in_segment(graph, layout, m, n - 1, k));
            assert(graph.spec_seg_to_mem()[n - 1].0 == m);
            lemma_segment_step(objs, graph, layout, symbols, m, n - 1, before);
        }
    }
}

/// Byte `p` of a file lies in the bytes of memory region `m`.
pub open spec fn in_region(layout: &LinkLayout, m: int, p: int) -> bool {
    layout.mems()[m].output_len > 0 && layout.mems()[m].file_off <= p < layout.mems()[m].file_off
        + layout.mems()[m].output_len
}

/// Byte `p` of file `f` lies in the bytes of its memory region `m`.
pub open spec fn in_region_of(graph: &LinkGraph, layout: &LinkLayout, f: int, m: int, p: int) -> bool {
    0 <= m < graph.spec_mem_to_file().len() && graph.spec_mem_to_file()[m].0 == f && in_region(layout, m, p)
}

/// The bytes of memory region `m` before they are written to its file.
pub open spec fn region_bytes(
    objs: Seq<Object>,
    graph: &LinkGraph,
    layout: &LinkLayout,
    symbols: &SymbolTable,
    m: int,
) -> Seq<u8> {
    memory_bytes(
        objs,
        graph,
        layout,
        symbols,
        m,
        filled(layout.mems()[m].output_len as int, layout.mems()[m].fill_byte),
    )->Ok_0
}

proof fn lemma_memory_step(
    objs: Seq<Object>,
    graph: &LinkGraph,
    layout: &LinkLayout,
    symbols: &SymbolTable,
    m: int,
    buf: Seq<u8>,
)
    requires
        place_memory_bytes(objs, graph, layout, symbols, m, buf) is Ok,
    ensures
        place_memory_bytes(objs, graph, layout, symbols, m, buf)->Ok_0.len() == buf.len(),
        forall|p: int|
            0 <= p < buf.len() && !in_region(layout, m, p) ==> #[trigger] place_memory_bytes(
                objs,
                graph,
                layout,
                symbols,
                m,
                buf,
            )->Ok_0[p] == buf[p],
        forall|p: int|
            0 <= p < buf.len() && in_region(layout, m, p) ==> #[trigger] place_memory_bytes(
                objs,
                graph,
                layout,
                symbols,
                m,
                buf,
            )->Ok_0[p] == region_bytes(objs, graph, layout, symbols, m)[p - layout.mems()[m].file_off],
        layout.mems()[m].output_len > 0 ==> memory_bytes(
            objs,
            graph,
            layout,
            symbols,
            m,
            filled(layout.mems()[m].output_len as int, layout.mems()[m].fill_byte),
        ) is Ok,
{
    let mem = layout.mems()[m];
    if mem.output_len > 0 {
        lemma_memory_keeps_length(
            objs,
            graph,
            layout,
            symbols,
            m,
            filled(mem.output_len as int, mem.fill_byte),
            graph.spec_seg_to_mem().len() as int,
        );
    }
}

/// Writing the regions of a file keeps the length of the bytes.
pub proof fn lemma_file_keeps_length(
    objs: Seq<Object>,
    graph: &LinkGraph,
    layout: &LinkLayout,
    symbols: &SymbolTable,
    f: int,
    buf: Seq<u8>,
    n: int,
)
    requires
        0 <= n <= graph.spec_mem_to_file().len(),
        walk(positions(graph.spec_mem_to_file()), f, memory_step(objs, graph, layout, symbols), buf, n) is Ok,
    ensures
        walk(
            positions(graph.spec_mem_to_file()),
            f,
            memory_step(objs, graph, layout, symbols),
            buf,
            n,
        )->Ok_0.len() == buf.len(),
    decreases n,
{
    if n > 0 {
        let keys = positions(graph.spec_mem_to_file());
        let step = memory_step(objs, graph, layout, symbols);
        lemma_walk_ok_prefix(keys, f, step, buf, n - 1, n);
        lemma_file_keeps_length(objs, graph, layout, symbols, f, buf, n - 1);
        if keys[n - 1] == f {
            lemma_memory_step(objs, graph, layout, symbols, n - 1, walk(keys, f, step, buf, n - 1)->Ok_0);
        }
    }
}

/// A byte of a file that lies in one of its regions alone is the byte of
/// that region.
pub proof fn lemma_file_holds_region(
    objs: Seq<Object>,
    graph: &LinkGraph,
    layout: &LinkLayout,
    symbols: &SymbolTable,
    f: int,
    buf: Seq<u8>,
    n: int,
    m: int,
    p: int,
)
    requires
        0 <= m < n <= graph.spec_mem_to_file().len(),
        walk(positions(graph.spec_mem_to_file()), f, memory_step(objs, graph, layout, symbols), buf, n) is Ok,
        0 <= p < buf.len(),
        in_region_of(graph, layout, f, m, p),
        forall|m1: int| 0 <= m1 < n && m1 != m ==> !#[trigger] in_region_of(graph, layout, f, m1, p),
    ensures
        walk(
            positions(graph.spec_mem_to_file()),
            f,
            memory_step(objs, graph, layout, symbols),
            buf,
            n,
        )->Ok_0[p] == region_bytes(objs, graph, layout, symbols, m)[p - layout.mems()[m].file_off],
        memory_bytes(
            objs,
            graph,
            layout,
            symbols,
            m,
            filled(layout.mems()[m].output_len as int, layout.mems()[m].fill_byte),
        ) is Ok,
    decreases n,
{
    let keys = positions(graph.spec_mem_to_file());
    let step = memory_step(objs, graph, layout, symbols);
    lemma_walk_ok_prefix(keys, f, step, buf, n - 1, n);
    lemma_file_keeps_length(objs, graph, layout, symbols, f, buf, n - 1);
    let before = walk(keys, f, step, buf, n - 1)->Ok_0;
    if n - 1 == m {
        assert(keys[m] == f);
        lemma_memory_step(objs, graph, layout, symbols, m, before);
    } else {
        lemma_file_holds_region(objs, graph, layout, symbols, f, buf, n - 1, m, p);
        if keys[n - 1] == f {
            assert(!in_region_of(graph, layout, f, n - 1, p));
            assert(graph.spec_mem_to_file()[n - 1].0 == f);
            lemma_memory_step(objs, graph, layout, symbols, n - 1, before);
        }
    }
}

/// The offset in a file grows from region to region.
proof fn lemma_walk_mems_grows(script: &LinkScript, objs: Seq<Object>, graph: &LinkGraph, f: int, a: int, b: int)
    requires
        laid_out(script, objs, graph),
        0 <= f < graph.spec_file_to_mems().len(),
        0 <= a <= b <= graph.spec_mem_to_file().len(),
    ensures
        walk_mems(script, objs, graph, f, a) is Ok,
        walk_mems(script, objs, graph, f, b) is Ok,
        0 <= walk_mems(script, objs, graph, f, a)->Ok_0 <= walk_mems(script, objs, graph, f, b)->Ok_0
            <= usize::MAX,
    decreases b,
{
    let keys = positions(graph.spec_mem_to_file());
    let step = mem_step(script, objs, graph);
    let n = graph.spec_mem_to_file().len() as int;
    lemma_file_ok(script, objs, graph, f, graph.spec_file_to_mems().len() as int);
    lemma_walk_ok_prefix(keys, f, step, 0int, a, n);
    lemma_walk_ok_prefix(keys, f, step, 0int, b, n);
    if b > 0 {
        if a < b {
            lemma_walk_mems_grows(script, objs, graph, f, a, b - 1);
        } else {
            lemma_walk_mems_grows(script, objs, graph, f, b - 1, b - 1);
        }
        if keys[b - 1] == f {
            assert(script.mems()[b - 1].wf());
            lemma_memory_ok(script, objs, graph, b - 1);
            lemma_walk_segs_sums(script, objs, graph, b - 1, graph.spec_seg_to_mem().len() as int);
        }
    }
}

/// The address in a region grows from segment to segment.
proof fn lemma_walk_segs_grows(script: &LinkScript, objs: Seq<Object>, graph: &LinkGraph, m: int, a: int, b: int)
    requires
        laid_out(script, objs, graph),
        0 <= m < graph.spec_mem_to_file().len(),
        0 <= a <= b <= graph.spec_seg_to_mem().len(),
    ensures
        walk_segs(script, objs, graph, m, a) is Ok,
        walk_segs(script, objs, graph, m, b) is Ok,
        walk_segs(script, objs, graph, m, a)->Ok_0.addr <= walk_segs(script, objs, graph, m, b)->Ok_0.addr,
    decreases b - a,
{
    lemma_walk_segs_sums(script, objs, graph, m, a);
    lemma_walk_segs_sums(script, objs, graph, m, b);
    if a < b {
        lemma_walk_segs_grows(script, objs, graph, m, a, b - 1);
        let g = b - 1;
        if positions(graph.spec_seg_to_mem())[g] == m {
            assert(graph.spec_seg_to_mem()[g].0 == m);
            lemma_segment_ok(script, objs, graph, g);
            lemma_walk_sects_sums(
                script,
                objs,
                graph,
                g,
                segment_entry(script, objs, graph, g),
                graph.spec_sect_to_seg().len() as int,
            );
        }
    }
}

/// The bytes of two segments of one region lie apart, the earlier segment
/// first.
proof fn lemma_segments_apart(
    script: &LinkScript,
    objs: Seq<Object>,
    graph: &LinkGraph,
    layout: &LinkLayout,
    m: int,
    g1: int,
    g2: int,
)
    requires
        script.wf(),
        graph.wf_for(script, objs),
        layout.wf_for(script, objs, graph),
        0 <= m < graph.spec_mem_to_file().len(),
        0 <= g1 < g2 < graph.spec_seg_to_mem().len(),
        graph.spec_seg_to_mem()[g1].0 == m,
        graph.spec_seg_to_mem()[g2].0 == m,
    ensures
        0 <= segment_offset(graph, layout, m, g1),
        segment_offset(graph, layout, m, g1) + layout.segs()[g1].output_len <= segment_offset(graph, layout, m, g2),
{
    let n_sects = graph.spec_sect_to_seg().len() as int;
    let keys = positions(graph.spec_sect_to_seg());
    lemma_segment_ok(script, objs, graph, g1);
    lemma_segment_ok(script, objs, graph, g2);
    lemma_walk_segs_sums(script, objs, graph, m, g1);
    lemma_walk_segs_sums(script, objs, graph, m, g1 + 1);
    lemma_walk_segs_sums(script, objs, graph, m, g2);
    lemma_walk_segs_grows(script, objs, graph, m, g1 + 1, g2);
    let entry = segment_entry(script, objs, graph, g1);
    lemma_walk_sects_sums(script, objs, graph, g1, entry, n_sects);
    assert forall|s: int| 0 <= s < n_sects implies #[trigger] section_output_lens(script, objs, graph)(s)
        <= section_lens(objs, graph)(s) by {}
    lemma_sum_where_below(keys, g1, section_output_lens(script, objs, graph), section_lens(objs, graph), n_sects);
    assert(layout.segs()[g1] == seg_layout(script, objs, graph, g1));
    assert(layout.segs()[g2] == seg_layout(script, objs, graph, g2));
    assert(layout.mems()[m] == mem_layout(script, objs, graph, m));
    if !layout.mems()[m].filled {
        let owners = positions(graph.spec_seg_to_mem());
        let lens = recorded_segment_outputs(layout);
        assert(owners[g1] == m);
        lemma_sum_where_grows(owners, m, lens, 0, g1);
        lemma_sum_where_grows(owners, m, lens, g1 + 1, g2);
    }
}

/// The bytes of two regions of one file lie apart, the earlier region first.
proof fn lemma_regions_apart(
    script: &LinkScript,
    objs: Seq<Object>,
    graph: &LinkGraph,
    layout: &LinkLayout,
    f: int,
    m1: int,
    m2: int,
)
    requires
        script.wf(),
        graph.wf_for(script, objs),
        layout.wf_for(script, objs, graph),
        0 <= f < graph.spec_file_to_mems().len(),
        0 <= m1 < m2 <= graph.spec_mem_to_file().len(),
        graph.spec_mem_to_file()[m1].0 == f,
        m2 < graph.spec_mem_to_file().len() ==> graph.spec_mem_to_file()[m2].0 == f,
    ensures
        m2 < graph.spec_mem_to_file().len() ==> layout.mems()[m1].file_off + layout.mems()[m1].output_len
            <= layout.mems()[m2].file_off,
        layout.mems()[m1].file_off + layout.mems()[m1].output_len <= layout.files()[f].len,
{
    let n = graph.spec_mem_to_file().len() as int;
    assert(script.mems()[m1].wf());
    lemma_memory_ok(script, objs, graph, m1);
    lemma_walk_mems_grows(script, objs, graph, f, m1 + 1, m2);
    lemma_walk_mems_grows(script, objs, graph, f, m2, n);
    lemma_walk_mems_grows(script, objs, graph, f, m1, m1 + 1);
    assert(positions(graph.spec_mem_to_file())[m1] == f);
    assert(walk_mems(script, objs, graph, f, m1 + 1) == mem_step(script, objs, graph)(
        m1,
        walk_mems(script, objs, graph, f, m1)->Ok_0,
    ));
    assert(layout.mems()[m1] == mem_layout(script, objs, graph, m1));
    assert(layout.files()[f] == file_layout(script, objs, graph, f));
    if m2 < n {
        assert(script.mems()[m2].wf());
        lemma_memory_ok(script, objs, graph, m2);
        assert(layout.mems()[m2] == mem_layout(script, objs, graph, m2));
    }
}

/// The bytes of a memory region lie within the bytes of its file.
pub proof fn theorem_region_lies_in_file(
    script: &LinkScript,
    objs: Seq<Object>,
    graph: &LinkGraph,
    layout: &LinkLayout,
    m: int,
)
    requires
        script.wf(),
        graph.wf_for(script, objs),
        layout.wf_for(script, objs, graph),
        0 <= m < layout.mems().len(),
    ensures
        layout.mems()[m].file_off + layout.mems()[m].output_len <= layout.files()[graph.spec_mem_to_file()[m].0 as int].len,
{
    assert(script.mems()[m].wf());
    lemma_regions_apart(
        script,
        objs,
        graph,
        layout,
        graph.spec_mem_to_file()[m].0 as int,
        m,
        graph.spec_mem_to_file().len() as int,
    );
}

/// In a memory region that is not filled, the bytes of every segment lie
/// within the bytes of the region: whatever addresses a BSS segment takes or
/// a start address passes over, every segment finds its place.
pub proof fn theorem_segment_lies_in_region(
    script: &LinkScript,
    objs: Seq<Object>,
    graph: &LinkGraph,
    layout: &LinkLayout,
    g: int,
)
    requires
        script.wf(),
        graph.wf_for(script, objs),
        layout.wf_for(script, objs, graph),
        0 <= g < layout.segs().len(),
        !script.mems()[graph.spec_seg_to_mem()[g].0 as int].filled,
    ensures
        0 <= segment_offset(graph, layout, graph.spec_seg_to_mem()[g].0 as int, g),
        segment_offset(graph, layout, graph.spec_seg_to_mem()[g].0 as int, g) + layout.segs()[g].output_len
            <= layout.mems()[graph.spec_seg_to_mem()[g].0 as int].output_len,
{
    let m = graph.spec_seg_to_mem()[g].0 as int;
    let n = graph.spec_seg_to_mem().len() as int;
    let owners = positions(graph.spec_seg_to_mem());
    let lens = recorded_segment_outputs(layout);
    assert(graph.spec_seg_to_mem()[g] == script.segs()[g].mem_i);
    assert(script.segs()[g].mem_i.0 < script.mems().len());
    assert(script.mems()[m].wf());
    lemma_memory_ok(script, objs, graph, m);
    lemma_walk_segs_sums(script, objs, graph, m, n);
    assert(layout.mems()[m] == mem_layout(script, objs, graph, m));
    assert forall|k: int| 0 <= k < n && owners[k] == m implies #[trigger] segment_output_lens(
        script,
        objs,
        graph,
    )(k) == lens(k) by {
        assert(layout.segs()[k] == seg_layout(script, objs, graph, k));
    }
    lemma_sum_where_same(owners, m, segment_output_lens(script, objs, graph), lens, n);
    assert(owners[g] == m);
    lemma_sum_where_grows(owners, m, lens, 0, g);
    lemma_sum_where_grows(owners, m, lens, g + 1, n);
}

/// The bytes of every section lie within the bytes of its segment, as far
/// into them as the address of the section lies above that of the segment.
pub proof fn theorem_section_lies_in_segment(
    script: &LinkScript,
    objs: Seq<Object>,
    graph: &LinkGraph,
    layout: &LinkLayout,
    s: int,
)
    requires
        script.wf(),
        graph.wf_for(script, objs),
        layout.wf_for(script, objs, graph),
        0 <= s < layout.sects().len(),
        layout.sects()[s].output_len > 0,
    ensures
        0 <= layout.sects()[s].start - layout.segs()[graph.spec_sect_to_seg()[s].0 as int].start,
        layout.sects()[s].start - layout.segs()[graph.spec_sect_to_seg()[s].0 as int].start
            + layout.sects()[s].output_len <= layout.segs()[graph.spec_sect_to_seg()[s].0 as int].output_len,
{
    let g = graph.spec_sect_to_seg()[s].0 as int;
    let m = graph.spec_seg_to_mem()[g].0 as int;
    let n = graph.spec_sect_to_seg().len() as int;
    let owners = positions(graph.spec_sect_to_seg());
    let entry = segment_entry(script, objs, graph, g);
    lemma_section_ok(script, objs, graph, s);
    assert(0 <= g < graph.spec_seg_to_mem().len()) by {
        assert(placed_at(script, objs, graph.spec_sect_to_seg(), graph.spec_sect_to_obj_sect(), s));
    }
    assert(graph.spec_seg_to_mem()[g] == script.segs()[g].mem_i);
    assert(script.segs()[g].mem_i.0 < script.mems().len());
    lemma_segment_ok(script, objs, graph, g);
    lemma_walk_segs_sums(script, objs, graph, m, g);
    lemma_walk_sects_sums(script, objs, graph, g, entry, s);
    lemma_walk_sects_sums(script, objs, graph, g, entry, n);
    assert(layout.sects()[s] == sect_layout(script, objs, graph, s));
    assert(layout.segs()[g] == seg_layout(script, objs, graph, g));
    assert(!script.segs()[g].bss);
    assert forall|k: int| 0 <= k < n && owners[k] == g implies #[trigger] section_lens(objs, graph)(k)
        == section_output_lens(script, objs, graph)(k) by {
        assert(graph.spec_sect_to_seg()[k].0 == g);
    }
    lemma_sum_where_same(owners, g, section_lens(objs, graph), section_output_lens(script, objs, graph), s);
    assert(owners[s] == g);
    assert forall|k: int| 0 <= k < n implies #[trigger] section_output_lens(script, objs, graph)(k) >= 0 by {}
    lemma_sum_where_grows(owners, g, section_output_lens(script, objs, graph), s + 1, n);
}

/// The byte that fills byte `k` of memory region `m` where no section
/// writes: the fill byte of the segment that the byte lies in, where that
/// segment has one, else the fill byte of the region.
pub open spec fn region_fill_at(graph: &LinkGraph, layout: &LinkLayout, m: int, k: int) -> u8 {
    if exists|g: int| in_segment(graph, layout, m, g, k) {
        segment_fill(layout, choose|g: int| in_segment(graph, layout, m, g, k), layout.mems()[m].fill_byte)
    } else {
        layout.mems()[m].fill_byte
    }
}

/// No literal and no expression of a section writes byte `k` of memory
/// region `m`: the byte lies in no segment, between two sections, behind the
/// last fragment of a section, or in a fill run.
pub open spec fn unwritten(objs: Seq<Object>, graph: &LinkGraph, layout: &LinkLayout, m: int, k: int) -> bool {
    forall|g: int, s: int|
        in_segment(graph, layout, m, g, k) ==> !#[trigger] in_section_data(
            objs,
            graph,
            layout,
            g,
            s,
            k - segment_offset(graph, layout, m, g),
        )
}

/// In the bytes of a file, every byte of a memory region that no literal and
/// no expression writes is a fill byte: that of the segment it lies in,
/// where the segment has one of its own, else that of the region. In a
/// filled region these are all the bytes up to its capacity that hold no
/// content of a section.
pub proof fn theorem_unwritten_bytes_are_fill(
    script: &LinkScript,
    objs: Seq<Object>,
    graph: &LinkGraph,
    layout: &LinkLayout,
    symbols: &SymbolTable,
    f: int,
    m: int,
    k: int,
)
    requires
        script.wf(),
        graph.wf_for(script, objs),
        layout.wf_for(script, objs, graph),
        file_bytes(objs, graph, layout, symbols, f) is Ok,
        0 <= m < layout.mems().len(),
        graph.spec_mem_to_file()[m].0 == f,
        0 <= k < layout.mems()[m].output_len,
        unwritten(objs, graph, layout, m, k),
    ensures
        layout.mems()[m].file_off + k < file_bytes(objs, graph, layout, symbols, f)->Ok_0.len(),
        file_bytes(objs, graph, layout, symbols, f)->Ok_0[layout.mems()[m].file_off + k] == region_fill_at(
            graph,
            layout,
            m,
            k,
        ),
{
    let n_mems = graph.spec_mem_to_file().len() as int;
    let n_segs = graph.spec_seg_to_mem().len() as int;
    let n_sects = graph.spec_sect_to_seg().len() as int;
    let mem = layout.mems()[m];
    let p = mem.file_off + k;
    let buf = filled(layout.files()[f].len as int, 0);
    assert(script.mems()[m].wf());
    lemma_regions_apart(script, objs, graph, layout, f, m, n_mems);
    assert forall|m1: int| 0 <= m1 < n_mems && m1 != m implies !#[trigger] in_region_of(graph, layout, f, m1, p) by {
        if graph.spec_mem_to_file()[m1].0 == f {
            if m1 < m {
                lemma_regions_apart(script, objs, graph, layout, f, m1, m);
            } else {
                lemma_regions_apart(script, objs, graph, layout, f, m, m1);
            }
        }
    }
    lemma_file_keeps_length(objs, graph, layout, symbols, f, buf, n_mems);
    lemma_file_holds_region(objs, graph, layout, symbols, f, buf, n_mems, m, p);
    let win = filled(mem.output_len as int, mem.fill_byte);
    if exists|g: int| in_segment(graph, layout, m, g, k) {
        let g = choose|g: int| in_segment(graph, layout, m, g, k);
        assert forall|g1: int| 0 <= g1 < n_segs && g1 != g implies !#[trigger] in_segment(graph, layout, m, g1, k) by {
            if graph.spec_seg_to_mem()[g1].0 == m {
                if g1 < g {
                    lemma_segments_apart(script, objs, graph, layout, m, g1, g);
                } else {
                    lemma_segments_apart(script, objs, graph, layout, m, g, g1);
                }
            }
        }
        assert(!in_segment_data(objs, graph, layout, g, k - segment_offset(graph, layout, m, g), n_sects)) by {
            if in_segment_data(objs, graph, layout, g, k - segment_offset(graph, layout, m, g), n_sects) {
                let s = choose|s: int|
                    0 <= s < n_sects && #[trigger] in_section_data(
                        objs,
                        graph,
                        layout,
                        g,
                        s,
                        k - segment_offset(graph, layout, m, g),
                    );
                assert(in_section_data(objs, graph, layout, g, s, k - segment_offset(graph, layout, m, g)));
            }
        }
        lemma_memory_fills_segment(objs, graph, layout, symbols, m, win, n_segs, g, k);
    } else {
        assert forall|g: int| 0 <= g < n_segs implies !#[trigger] in_segment(graph, layout, m, g, k) by {}
        lemma_memory_keeps_outside(objs, graph, layout, symbols, m, win, n_segs, k);
    }
}

/// Whether fragments can be replayed does not depend on the bytes they are
/// written over, nor on the fill byte, but on the room alone.
pub proof fn lemma_replay_any(
    graph: &LinkGraph,
    layout: &LinkLayout,
    symbols: &SymbolTable,
    o: int,
    fill1: u8,
    fill2: u8,
    frags: Seq<Fragment>,
    under1: Seq<u8>,
    under2: Seq<u8>,
    n: int,
)
    requires
        under1.len() == under2.len(),
        write_fragments(graph, layout, symbols, o, fill1, frags, EmitState { buf: under1, off: 0 }, n) is Ok,
    ensures
        write_fragments(graph, layout, symbols, o, fill2, frags, EmitState { buf: under2, off: 0 }, n) is Ok,
        write_fragments(graph, layout, symbols, o, fill2, frags, EmitState { buf: under2, off: 0 }, n)->Ok_0.off
            == write_fragments(
            graph,
            layout,
            symbols,
            o,
            fill1,
            frags,
            EmitState { buf: under1, off: 0 },
            n,
        )->Ok_0.off,
    decreases n,
{
    reveal(write_fragment);
    if n > 0 {
        lemma_replay_any(graph, layout, symbols, o, fill1, fill2, frags, under1, under2, n - 1);
        lemma_fragments_keep_length(
            graph,
            layout,
            symbols,
            o,
            fill1,
            frags,
            EmitState { buf: under1, off: 0 },
            n - 1,
        );
        lemma_fragments_keep_length(
            graph,
            layout,
            symbols,
            o,
            fill2,
            frags,
            EmitState { buf: under2, off: 0 },
            n - 1,
        );
    }
}

/// The fragments of placed section `s` can be replayed in the bytes that the
/// section gives: every expression has a value that fits its width, and the
/// fragments are no longer than the section.
pub open spec fn section_replays(
    objs: Seq<Object>,
    graph: &LinkGraph,
    layout: &LinkLayout,
    symbols: &SymbolTable,
    s: int,
) -> bool {
    section_bytes(
        objs,
        graph,
        layout,
        symbols,
        graph.spec_sect_to_obj_sect()[s].0.0 as int,
        graph.spec_sect_to_obj_sect()[s].1.0 as int,
        0,
        filled(layout.sects()[s].output_len as int, 0),
    ) is Ok
}

/// The fragments of every placed section that gives bytes can be replayed.
pub open spec fn sections_replay(
    objs: Seq<Object>,
    graph: &LinkGraph,
    layout: &LinkLayout,
    symbols: &SymbolTable,
) -> bool {
    forall|s: int|
        0 <= s < layout.sects().len() && layout.sects()[s].output_len > 0 ==> #[trigger] section_replays(
            objs,
            graph,
            layout,
            symbols,
            s,
        )
}

/// The bytes of segment `g` lie within the bytes of its memory region.
pub open spec fn segment_within(graph: &LinkGraph, layout: &LinkLayout, g: int) -> bool {
    0 <= segment_offset(graph, layout, graph.spec_seg_to_mem()[g].0 as int, g) && segment_offset(
        graph,
        layout,
        graph.spec_seg_to_mem()[g].0 as int,
        g,
    ) + layout.segs()[g].output_len <= layout.mems()[graph.spec_seg_to_mem()[g].0 as int].output_len
}

/// In the filled memory regions the bytes of every segment lie within the
/// bytes of the region: no reservation has pushed a segment that gives bytes
/// past the end of the region.
pub open spec fn segments_within_filled(graph: &LinkGraph, layout: &LinkLayout) -> bool {
    forall|g: int|
        0 <= g < layout.segs().len() && layout.segs()[g].output_len > 0 && layout.mems()[graph.spec_seg_to_mem()[g].0 as int].filled
            ==> #[trigger] segment_within(graph, layout, g)
}

proof fn lemma_segment_emits(
    script: &LinkScript,
    objs: Seq<Object>,
    graph: &LinkGraph,
    layout: &LinkLayout,
    symbols: &SymbolTable,
    g: int,
    fill: u8,
    win: Seq<u8>,
    n: int,
)
    requires
        script.wf(),
        graph.wf_for(script, objs),
        layout.wf_for(script, objs, graph),
        sections_replay(objs, graph, layout, symbols),
        0 <= g < layout.segs().len(),
        win.len() == layout.segs()[g].output_len,
        0 <= n <= graph.spec_sect_to_seg().len(),
    ensures
        walk(
            positions(graph.spec_sect_to_seg()),
            g,
            section_step(objs, graph, layout, symbols, g, fill),
            win,
            n,
        ) is Ok,
    decreases n,
{
    if n > 0 {
        let keys = positions(graph.spec_sect_to_seg());
        let step = section_step(objs, graph, layout, symbols, g, fill);
        lemma_segment_emits(script, objs, graph, layout, symbols, g, fill, win, n - 1);
        lemma_segment_keeps(objs, graph, layout, symbols, g, fill, win, n - 1);
        let before = walk(keys, g, step, win, n - 1)->Ok_0;
        let s = n - 1;
        if keys[s] == g {
            assert(graph.spec_sect_to_seg()[s].0 == g);
            let sect = layout.sects()[s];
            if sect.output_len > 0 {
                theorem_section_lies_in_segment(script, objs, graph, layout, s);
                let off = sect.start - layout.segs()[g].start;
                let origin = graph.spec_sect_to_obj_sect()[s];
                let frags = objs[origin.0.0 as int].sections()[origin.1.0 as int].fragments@;
                assert(section_replays(objs, graph, layout, symbols, s));
                lemma_replay_any(
                    graph,
                    layout,
                    symbols,
                    origin.0.0 as int,
                    0,
                    fill,
                    frags,
                    filled(sect.output_len as int, 0),
                    before.subrange(off, off + sect.output_len),
                    frags.len() as int,
                );
            }
        }
    }
}

proof fn lemma_memory_emits(
    script: &LinkScript,
    objs: Seq<Object>,
    graph: &LinkGraph,
    layout: &LinkLayout,
    symbols: &SymbolTable,
    m: int,
    win: Seq<u8>,
    n: int,
)
    requires
        script.wf(),
        graph.wf_for(script, objs),
        layout.wf_for(script, objs, graph),
        sections_replay(objs, graph, layout, symbols),
        segments_within_filled(graph, layout),
        0 <= m < layout.mems().len(),
        win.len() == layout.mems()[m].output_len,
        0 <= n <= graph.spec_seg_to_mem().len(),
    ensures
        walk(positions(graph.spec_seg_to_mem()), m, segment_step(objs, graph, layout, symbols, m), win, n) is Ok,
    decreases n,
{
    if n > 0 {
        let keys = positions(graph.spec_seg_to_mem());
        let step = segment_step(objs, graph, layout, symbols, m);
        lemma_memory_emits(script, objs, graph, layout, symbols, m, win, n - 1);
        lemma_memory_keeps_length(objs, graph, layout, symbols, m, win, n - 1);
        let before = walk(keys, m, step, win, n - 1)->Ok_0;
        let g = n - 1;
        if keys[g] == m {
            assert(graph.spec_seg_to_mem()[g].0 == m);
            let seg = layout.segs()[g];
            if seg.output_len > 0 {
                assert(layout.mems()[m] == mem_layout(script, objs, graph, m));
                if layout.mems()[m].filled {
                    assert(segment_within(graph, layout, g));
                } else {
                    theorem_segment_lies_in_region(script, objs, graph, layout, g);
                }
                let off = segment_offset(graph, layout, m, g);
                let background = match seg.fill_byte {
                    Some(b) => filled(seg.output_len as int, b),
                    None => before.subrange(off, off + seg.output_len),
                };
                let fill = match seg.fill_byte {
                    Some(b) => b,
                    None => layout.mems()[m].fill_byte,
                };
                lemma_segment_emits(
                    script,
                    objs,
                    graph,
                    layout,
                    symbols,
                    g,
                    fill,
                    background,
                    graph.spec_sect_to_seg().len() as int,
                );
            }
        }
    }
}

proof fn lemma_file_emits(
    script: &LinkScript,
    objs: Seq<Object>,
    graph: &LinkGraph,
    layout: &LinkLayout,
    symbols: &SymbolTable,
    f: int,
    n: int,
)
    requires
        script.wf(),
        graph.wf_for(script, objs),
        layout.wf_for(script, objs, graph),
        sections_replay(objs, graph, layout, symbols),
        segments_within_filled(graph, layout),
        0 <= f < layout.files().len(),
        0 <= n <= graph.spec_mem_to_file().len(),
    ensures
        walk(
            positions(graph.spec_mem_to_file()),
            f,
            memory_step(objs, graph, layout, symbols),
            filled(layout.files()[f].len as int, 0),
            n,
        ) is Ok,
    decreases n,
{
    if n > 0 {
        let keys = positions(graph.spec_mem_to_file());
        let step = memory_step(objs, graph, layout, symbols);
        let buf = filled(layout.files()[f].len as int, 0);
        lemma_file_emits(script, objs, graph, layout, symbols, f, n - 1);
        lemma_file_keeps_length(objs, graph, layout, symbols, f, buf, n - 1);
        let m = n - 1;
        if keys[m] == f {
            assert(graph.spec_mem_to_file()[m].0 == f);
            let mem = layout.mems()[m];
            if mem.output_len > 0 {
                theorem_region_lies_in_file(script, objs, graph, layout, m);
                lemma_memory_emits(
                    script,
                    objs,
                    graph,
                    layout,
                    symbols,
                    m,
                    filled(mem.output_len as int, mem.fill_byte),
                    graph.spec_seg_to_mem().len() as int,
                );
            }
        }
    }
}

/// Every file of a layout can be written, provided that the fragments of
/// every section can be replayed and that no segment leaves a filled region.
/// Nothing else ends the emission: in a region that is not filled, the
/// addresses that a BSS segment takes, or that are passed over to reach a
/// start address, stand in no one's way.
pub proof fn theorem_emission_succeeds(
    script: &LinkScript,
    objs: Seq<Object>,
    graph: &LinkGraph,
    layout: &LinkLayout,
    symbols: &SymbolTable,
    f: int,
)
    requires
        script.wf(),
        graph.wf_for(script, objs),
        layout.wf_for(script, objs, graph),
        sections_replay(objs, graph, layout, symbols),
        segments_within_filled(graph, layout),
        0 <= f < layout.files().len(),
    ensures
        file_bytes(objs, graph, layout, symbols, f) is Ok,
        file_bytes(objs, graph, layout, symbols, f)->Ok_0.len() == layout.files()[f].len,
{
    let n = graph.spec_mem_to_file().len() as int;
    lemma_file_emits(script, objs, graph, layout, symbols, f, n);
    lemma_file_keeps_length(objs, graph, layout, symbols, f, filled(layout.files()[f].len as int, 0), n);
}

} // verus!
