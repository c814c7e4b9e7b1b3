//! What holds of every layout and of every symbol table.

use vstd::prelude::*;
use crate::error::LinkError;
use crate::index::{ObjIdx, ObjImportIdx, positions};
use crate::link::graph::{LinkGraph, lists_exactly, placed_at};
use crate::link::layout::{
    Cursor, LinkLayout, file_len, layout_result, mem_step, memory_output_len, place_section, sect_step,
    section_of, section_output_len, seg_step, segment_entry, segment_start, walk_files, walk_mems,
    walk_sects, walk_segs,
};
use crate::link::layout::{
    mem_layout, recorded_section_outputs, recorded_segment_outputs, sect_layout, seg_layout,
};
use crate::link::walk::{
    lemma_sum_over_same, lemma_sum_where_is_sum_over, lemma_walk_ok_prefix, lemma_walk_to_entry, sum_over,
    sum_where, walk,
};
use crate::expr::Expr;
use crate::link::graph::precedes;
use crate::link::symbol::{
    SymbolTable, duplicate_export_at, export_name, exports_unique, expr_value, find_export,
    first_duplicate_export, import_name, import_value, lemma_find_export, lemma_path_bound, path_valid,
    symbol_entry_ok, symbol_value, symbols_error, valid_export, valid_import,
};
use crate::object::Object;
use crate::script::LinkScript;

verus! {

/// The script and the graph belong together, and the layout of the graph
/// gives no error.
pub open spec fn laid_out(script: &LinkScript, objs: Seq<Object>, graph: &LinkGraph) -> bool {
    script.wf() && graph.wf_for(script, objs) && layout_result(script, objs, graph) is Ok
}

/// Every file can be laid out.
pub proof fn lemma_file_ok(script: &LinkScript, objs: Seq<Object>, graph: &LinkGraph, f: int, n: int)
    requires
        0 <= f < n,
        walk_files(script, objs, graph, n) is Ok,
    ensures
        file_len(script, objs, graph, f) is Ok,
    decreases n,
{
    if f < n - 1 {
        lemma_file_ok(script, objs, graph, f, n - 1);
    }
}

/// Every memory region can be laid out, at an offset of its file.
pub proof fn lemma_memory_ok(script: &LinkScript, objs: Seq<Object>, graph: &LinkGraph, m: int)
    requires
        laid_out(script, objs, graph),
        0 <= m < graph.spec_mem_to_file().len(),
    ensures
        walk_mems(script, objs, graph, graph.spec_mem_to_file()[m].0 as int, m) is Ok,
        memory_output_len(script, objs, graph, m) is Ok,
        walk_segs(script, objs, graph, m, graph.spec_seg_to_mem().len() as int) is Ok,
        walk_mems(script, objs, graph, graph.spec_mem_to_file()[m].0 as int, m)->Ok_0 + memory_output_len(
            script,
            objs,
            graph,
            m,
        )->Ok_0 <= usize::MAX,
{
    let f = graph.spec_mem_to_file()[m].0 as int;
    let keys = positions(graph.spec_mem_to_file());
    let step = mem_step(script, objs, graph);
    let n = graph.spec_mem_to_file().len() as int;
    assert(script.mems()[m].wf());
    lemma_file_ok(script, objs, graph, f, graph.spec_file_to_mems().len() as int);
    lemma_walk_ok_prefix(keys, f, step, 0int, m, n);
    lemma_walk_ok_prefix(keys, f, step, 0int, m + 1, n);
    assert(keys[m] == f);
}

/// Every segment can be laid out where the walk through its region has come.
pub proof fn lemma_segment_ok(script: &LinkScript, objs: Seq<Object>, graph: &LinkGraph, g: int)
    requires
        laid_out(script, objs, graph),
        0 <= g < graph.spec_seg_to_mem().len(),
    ensures
        walk_segs(script, objs, graph, graph.spec_seg_to_mem()[g].0 as int, g) is Ok,
        segment_start(
            script,
            g,
            walk_segs(script, objs, graph, graph.spec_seg_to_mem()[g].0 as int, g)->Ok_0.addr,
        ) is Ok,
        walk_sects(
            script,
            objs,
            graph,
            g,
            segment_entry(script, objs, graph, g),
            graph.spec_sect_to_seg().len() as int,
        ) is Ok,
        walk_segs(script, objs, graph, graph.spec_seg_to_mem()[g].0 as int, g + 1) == walk_sects(
            script,
            objs,
            graph,
            g,
            segment_entry(script, objs, graph, g),
            graph.spec_sect_to_seg().len() as int,
        ),
{
    let m = graph.spec_seg_to_mem()[g].0 as int;
    let keys = positions(graph.spec_seg_to_mem());
    let step = seg_step(script, objs, graph);
    let n = graph.spec_seg_to_mem().len() as int;
    let c0 = Cursor { addr: script.mems()[m].range.spec_min() as int, out: 0 };
    assert(script.segs()[g].mem_i.0 < script.mems().len());
    lemma_memory_ok(script, objs, graph, m);
    lemma_walk_ok_prefix(keys, m, step, c0, g, n);
    lemma_walk_ok_prefix(keys, m, step, c0, g + 1, n);
    assert(keys[g] == m);
}

/// Every placed section can be laid out where the walk through its segment
/// has come.
pub proof fn lemma_section_ok(script: &LinkScript, objs: Seq<Object>, graph: &LinkGraph, s: int)
    requires
        laid_out(script, objs, graph),
        0 <= s < graph.spec_sect_to_seg().len(),
    ensures
        walk_sects(
            script,
            objs,
            graph,
            graph.spec_sect_to_seg()[s].0 as int,
            segment_entry(script, objs, graph, graph.spec_sect_to_seg()[s].0 as int),
            s,
        ) is Ok,
        walk_sects(
            script,
            objs,
            graph,
            graph.spec_sect_to_seg()[s].0 as int,
            segment_entry(script, objs, graph, graph.spec_sect_to_seg()[s].0 as int),
            s + 1,
        ) == place_section(
            script,
            objs,
            graph,
            s,
            walk_sects(
                script,
                objs,
                graph,
                graph.spec_sect_to_seg()[s].0 as int,
                segment_entry(script, objs, graph, graph.spec_sect_to_seg()[s].0 as int),
                s,
            )->Ok_0,
        ),
        place_section(
            script,
            objs,
            graph,
            s,
            walk_sects(
                script,
                objs,
                graph,
                graph.spec_sect_to_seg()[s].0 as int,
                segment_entry(script, objs, graph, graph.spec_sect_to_seg()[s].0 as int),
                s,
            )->Ok_0,
        ) is Ok,
{
    let g = graph.spec_sect_to_seg()[s].0 as int;
    let keys = positions(graph.spec_sect_to_seg());
    let step = sect_step(script, objs, graph);
    let n = graph.spec_sect_to_seg().len() as int;
    let entry = segment_entry(script, objs, graph, g);
    assert(placed_at(script, objs, graph.spec_sect_to_seg(), graph.spec_sect_to_obj_sect(), s));
    lemma_segment_ok(script, objs, graph, g);
    lemma_walk_ok_prefix(keys, g, step, entry, s, n);
    lemma_walk_ok_prefix(keys, g, step, entry, s + 1, n);
    assert(keys[s] == g);
}

/// The bytes that each placed section gives to its file.
pub open spec fn section_output_lens(script: &LinkScript, objs: Seq<Object>, graph: &LinkGraph) -> spec_fn(
    int,
) -> int {
    |s: int| section_output_len(script, objs, graph, s)
}

/// The addresses that each placed section takes.
pub open spec fn section_lens(objs: Seq<Object>, graph: &LinkGraph) -> spec_fn(int) -> int {
    |s: int| section_of(objs, graph, s).len as int
}

/// The capacity of the region that segment `g` is loaded into.
pub open spec fn capacity_for(script: &LinkScript, g: int) -> int {
    script.mems()[script.segs()[g].mem_i.0 as int].capacity()
}

/// A walk through the sections of a segment moves the address on by the
/// lengths of the sections, and the bytes given by what the sections give.
/// Neither the address nor the bytes leave the range they started in.
pub proof fn lemma_walk_sects_sums(
    script: &LinkScript,
    objs: Seq<Object>,
    graph: &LinkGraph,
    g: int,
    c: Cursor,
    n: int,
)
    requires
        0 <= n <= graph.spec_sect_to_seg().len(),
        walk_sects(script, objs, graph, g, c, n) is Ok,
    ensures
        walk_sects(script, objs, graph, g, c, n)->Ok_0.out == c.out + sum_where(
            positions(graph.spec_sect_to_seg()),
            g,
            section_output_lens(script, objs, graph),
            n,
        ),
        walk_sects(script, objs, graph, g, c, n)->Ok_0.addr == c.addr + sum_where(
            positions(graph.spec_sect_to_seg()),
            g,
            section_lens(objs, graph),
            n,
        ),
        sum_where(positions(graph.spec_sect_to_seg()), g, section_output_lens(script, objs, graph), n) >= 0,
        sum_where(positions(graph.spec_sect_to_seg()), g, section_lens(objs, graph), n) >= 0,
        c.out <= capacity_for(script, g) ==> walk_sects(script, objs, graph, g, c, n)->Ok_0.out <= capacity_for(
            script,
            g,
        ),
        c.addr <= usize::MAX ==> walk_sects(script, objs, graph, g, c, n)->Ok_0.addr <= usize::MAX,
    decreases n,
{
    if n > 0 {
        let keys = positions(graph.spec_sect_to_seg());
        let step = sect_step(script, objs, graph);
        lemma_walk_ok_prefix(keys, g, step, c, n - 1, n);
        lemma_walk_sects_sums(script, objs, graph, g, c, n - 1);
        if keys[n - 1] == g {
            assert(graph.spec_sect_to_seg()[n - 1].0 == g);
        }
    }
}

/// The bytes that each segment gives to its file.
pub open spec fn segment_output_lens(script: &LinkScript, objs: Seq<Object>, graph: &LinkGraph) -> spec_fn(
    int,
) -> int {
    |g: int| seg_layout(script, objs, graph, g).output_len as int
}

/// A walk through the segments of a region gives the bytes that the
/// segments give, and never more than the region holds.
pub proof fn lemma_walk_segs_sums(script: &LinkScript, objs: Seq<Object>, graph: &LinkGraph, m: int, n: int)
    requires
        laid_out(script, objs, graph),
        0 <= m < graph.spec_mem_to_file().len(),
        0 <= n <= graph.spec_seg_to_mem().len(),
    ensures
        walk_segs(script, objs, graph, m, n) is Ok,
        walk_segs(script, objs, graph, m, n)->Ok_0.out == sum_where(
            positions(graph.spec_seg_to_mem()),
            m,
            segment_output_lens(script, objs, graph),
            n,
        ),
        0 <= walk_segs(script, objs, graph, m, n)->Ok_0.out <= script.mems()[m].capacity(),
        script.mems()[m].range.spec_min() <= walk_segs(script, objs, graph, m, n)->Ok_0.addr <= usize::MAX,
    decreases n,
{
    let keys = positions(graph.spec_seg_to_mem());
    let step = seg_step(script, objs, graph);
    let c0 = Cursor { addr: script.mems()[m].range.spec_min() as int, out: 0 };
    assert(script.mems()[m].wf());
    lemma_memory_ok(script, objs, graph, m);
    lemma_walk_ok_prefix(keys, m, step, c0, n, graph.spec_seg_to_mem().len() as int);
    if n > 0 {
        lemma_walk_segs_sums(script, objs, graph, m, n - 1);
        let g = n - 1;
        if keys[g] == m {
            assert(graph.spec_seg_to_mem()[g] == script.segs()[g].mem_i);
            lemma_segment_ok(script, objs, graph, g);
            let entry = segment_entry(script, objs, graph, g);
            lemma_walk_sects_sums(script, objs, graph, g, entry, graph.spec_sect_to_seg().len() as int);
        }
    }
}

/// The bytes that a segment gives to its file are the bytes that its
/// sections give, summed up.
pub proof fn theorem_segment_output_is_sum(
    script: &LinkScript,
    objs: Seq<Object>,
    graph: &LinkGraph,
    layout: &LinkLayout,
    g: int,
)
    requires
        script.wf(),
        graph.wf_for(script, objs),
        layout.wf_for(script, objs, graph),
        0 <= g < layout.segs().len(),
    ensures
        layout.segs()[g].output_len == sum_over(
            positions(graph.spec_seg_to_sects()[g]@),
            recorded_section_outputs(layout),
            graph.spec_seg_to_sects()[g]@.len() as int,
        ),
{
    let list = positions(graph.spec_seg_to_sects()[g]@);
    let keys = positions(graph.spec_sect_to_seg());
    let n = graph.spec_sect_to_seg().len() as int;
    let m = graph.spec_seg_to_mem()[g].0 as int;
    let entry = segment_entry(script, objs, graph, g);
    assert(graph.spec_seg_to_mem()[g] == script.segs()[g].mem_i);
    assert(script.segs()[g].mem_i.0 < script.mems().len());
    assert(script.mems()[m].wf());
    lemma_segment_ok(script, objs, graph, g);
    lemma_walk_segs_sums(script, objs, graph, m, g);
    lemma_walk_sects_sums(script, objs, graph, g, entry, n);
    assert(lists_exactly(list, keys, g));
    lemma_sum_where_is_sum_over(list, keys, g, section_output_lens(script, objs, graph), list.len() as int);
    assert forall|i: int| 0 <= i < list.len() implies section_output_lens(script, objs, graph)(#[trigger] list[i])
        == recorded_section_outputs(layout)(list[i]) by {
        assert(layout.sects()[list[i]] == sect_layout(script, objs, graph, list[i]));
    }
    lemma_sum_over_same(
        list,
        section_output_lens(script, objs, graph),
        recorded_section_outputs(layout),
        list.len() as int,
    );
    assert(layout.segs()[g] == seg_layout(script, objs, graph, g));
}

/// The bytes that the segments of a memory region give to its file are,
/// summed up, no more than the region holds.
pub proof fn theorem_region_within_capacity(
    script: &LinkScript,
    objs: Seq<Object>,
    graph: &LinkGraph,
    layout: &LinkLayout,
    m: int,
)
    requires
        script.wf(),
        graph.wf_for(script, objs),
        layout.wf_for(script, objs, graph),
        0 <= m < layout.mems().len(),
    ensures
        sum_over(
            positions(graph.spec_mem_to_segs()[m]@),
            recorded_segment_outputs(layout),
            graph.spec_mem_to_segs()[m]@.len() as int,
        ) <= script.mems()[m].capacity(),
{
    let list = positions(graph.spec_mem_to_segs()[m]@);
    let keys = positions(graph.spec_seg_to_mem());
    let n = graph.spec_seg_to_mem().len() as int;
    lemma_walk_segs_sums(script, objs, graph, m, n);
    assert(lists_exactly(list, keys, m));
    lemma_sum_where_is_sum_over(list, keys, m, segment_output_lens(script, objs, graph), list.len() as int);
    assert forall|i: int| 0 <= i < list.len() implies segment_output_lens(script, objs, graph)(#[trigger] list[i])
        == recorded_segment_outputs(layout)(list[i]) by {
        assert(layout.segs()[list[i]] == seg_layout(script, objs, graph, list[i]));
    }
    lemma_sum_over_same(
        list,
        segment_output_lens(script, objs, graph),
        recorded_segment_outputs(layout),
        list.len() as int,
    );
}

/// A memory region that is filled gives as many bytes as it holds.
pub proof fn theorem_filled_region_is_full(
    script: &LinkScript,
    objs: Seq<Object>,
    graph: &LinkGraph,
    layout: &LinkLayout,
    m: int,
)
    requires
        script.wf(),
        graph.wf_for(script, objs),
        layout.wf_for(script, objs, graph),
        0 <= m < layout.mems().len(),
        script.mems()[m].filled,
    ensures
        layout.mems()[m].output_len == script.mems()[m].capacity(),
{
    assert(script.mems()[m].wf());
    lemma_memory_ok(script, objs, graph, m);
    assert(layout.mems()[m] == mem_layout(script, objs, graph, m));
}

/// A section in a BSS segment gives no bytes; any other gives as many bytes
/// as it takes addresses.
pub proof fn theorem_section_output(
    script: &LinkScript,
    objs: Seq<Object>,
    graph: &LinkGraph,
    layout: &LinkLayout,
    s: int,
)
    requires
        script.wf(),
        graph.wf_for(script, objs),
        layout.wf_for(script, objs, graph),
        0 <= s < layout.sects().len(),
    ensures
        layout.sects()[s].output_len == if script.segs()[graph.spec_sect_to_seg()[s].0 as int].bss {
            0
        } else {
            section_of(objs, graph, s).len as int
        },
{
    assert(layout.sects()[s] == sect_layout(script, objs, graph, s));
}

/// A section starts where the section before it in its segment ends, BSS or
/// not; the first section starts where the segment starts.
pub proof fn theorem_section_follows(
    script: &LinkScript,
    objs: Seq<Object>,
    graph: &LinkGraph,
    layout: &LinkLayout,
    g: int,
    i: int,
)
    requires
        script.wf(),
        graph.wf_for(script, objs),
        layout.wf_for(script, objs, graph),
        0 <= g < layout.segs().len(),
        0 <= i < graph.spec_seg_to_sects()[g]@.len(),
    ensures
        layout.sects()[graph.spec_seg_to_sects()[g]@[i].0 as int].start == if i == 0 {
            layout.segs()[g].start as int
        } else {
            layout.sects()[graph.spec_seg_to_sects()[g]@[i - 1].0 as int].start + section_of(
                objs,
                graph,
                graph.spec_seg_to_sects()[g]@[i - 1].0 as int,
            ).len
        },
{
    let list = positions(graph.spec_seg_to_sects()[g]@);
    let keys = positions(graph.spec_sect_to_seg());
    let step = sect_step(script, objs, graph);
    let n = graph.spec_sect_to_seg().len() as int;
    let m = graph.spec_seg_to_mem()[g].0 as int;
    let entry = segment_entry(script, objs, graph, g);
    assert(graph.spec_seg_to_mem()[g] == script.segs()[g].mem_i);
    assert(script.segs()[g].mem_i.0 < script.mems().len());
    assert(lists_exactly(list, keys, g));
    lemma_segment_ok(script, objs, graph, g);
    lemma_walk_segs_sums(script, objs, graph, m, g);
    let s = list[i];
    assert(keys[s] == g);
    assert(graph.spec_sect_to_seg()[s].0 == g);
    lemma_section_ok(script, objs, graph, s);
    lemma_walk_sects_sums(script, objs, graph, g, entry, s);
    lemma_walk_to_entry(list, keys, g, step, entry, i);
    assert(layout.sects()[s] == sect_layout(script, objs, graph, s));
    assert(layout.segs()[g] == seg_layout(script, objs, graph, g));
    if i > 0 {
        let p = list[i - 1];
        assert(keys[p] == g);
        assert(graph.spec_sect_to_seg()[p].0 == g);
        lemma_section_ok(script, objs, graph, p);
        lemma_walk_sects_sums(script, objs, graph, g, entry, p);
        assert(layout.sects()[p] == sect_layout(script, objs, graph, p));
    }
}

/// The address after the last section of segment `g`.
pub open spec fn segment_end(objs: Seq<Object>, graph: &LinkGraph, layout: &LinkLayout, g: int) -> int {
    layout.segs()[g].start + sum_over(
        positions(graph.spec_seg_to_sects()[g]@),
        section_lens(objs, graph),
        graph.spec_seg_to_sects()[g]@.len() as int,
    )
}

/// A segment starts at or above the address where the segment before it in
/// its region ends, and the first segment at or above the lowest address of
/// the region. A segment that asks for no address starts exactly there.
pub proof fn theorem_segment_follows(
    script: &LinkScript,
    objs: Seq<Object>,
    graph: &LinkGraph,
    layout: &LinkLayout,
    m: int,
    j: int,
)
    requires
        script.wf(),
        graph.wf_for(script, objs),
        layout.wf_for(script, objs, graph),
        0 <= m < layout.mems().len(),
        0 <= j < graph.spec_mem_to_segs()[m]@.len(),
    ensures
        layout.segs()[graph.spec_mem_to_segs()[m]@[j].0 as int].start >= if j == 0 {
            script.mems()[m].range.spec_min() as int
        } else {
            segment_end(objs, graph, layout, graph.spec_mem_to_segs()[m]@[j - 1].0 as int)
        },
        !(script.segs()[graph.spec_mem_to_segs()[m]@[j].0 as int].start is Addr) ==> layout.segs()[graph.spec_mem_to_segs()[m]@[j].0 as int].start
            == if j == 0 {
            script.mems()[m].range.spec_min() as int
        } else {
            segment_end(objs, graph, layout, graph.spec_mem_to_segs()[m]@[j - 1].0 as int)
        },
{
    let list = positions(graph.spec_mem_to_segs()[m]@);
    let keys = positions(graph.spec_seg_to_mem());
    let step = seg_step(script, objs, graph);
    let n_sects = graph.spec_sect_to_seg().len() as int;
    let c0 = Cursor { addr: script.mems()[m].range.spec_min() as int, out: 0 };
    assert(lists_exactly(list, keys, m));
    let g = list[j];
    assert(keys[g] == m);
    assert(graph.spec_seg_to_mem()[g].0 == m);
    lemma_segment_ok(script, objs, graph, g);
    lemma_walk_segs_sums(script, objs, graph, m, g);
    lemma_walk_to_entry(list, keys, m, step, c0, j);
    assert(layout.segs()[g] == seg_layout(script, objs, graph, g));
    if j > 0 {
        let p = list[j - 1];
        assert(keys[p] == m);
        assert(graph.spec_seg_to_mem()[p].0 == m);
        lemma_segment_ok(script, objs, graph, p);
        lemma_walk_segs_sums(script, objs, graph, m, p);
        let entry = segment_entry(script, objs, graph, p);
        lemma_walk_sects_sums(script, objs, graph, p, entry, n_sects);
        let sects = positions(graph.spec_seg_to_sects()[p]@);
        assert(lists_exactly(sects, positions(graph.spec_sect_to_seg()), p));
        lemma_sum_where_is_sum_over(
            sects,
            positions(graph.spec_sect_to_seg()),
            p,
            section_lens(objs, graph),
            sects.len() as int,
        );
        assert(layout.segs()[p] == seg_layout(script, objs, graph, p));
    }
}

/// An import that is bound to an export whose expression is a literal has
/// the value of that literal, in the table and whatever else is being
/// resolved.
pub proof fn theorem_literal_export(
    objs: Seq<Object>,
    graph: &LinkGraph,
    layout: &LinkLayout,
    symbols: &SymbolTable,
    o: int,
    i: int,
    eo: int,
    ex: int,
    value: i64,
)
    requires
        symbols.wf_for(objs, graph, layout),
        valid_import(objs, o, i),
        valid_export(objs, eo, ex),
        export_name(objs, eo, ex) == import_name(objs, o, i),
        objs[eo].exports()[ex].expr == (Expr::Literal { value }),
    ensures
        symbols.entries()[o]@[i].value == value,
        forall|p: Seq<(int, int)>|
            path_valid(objs, p) && !p.contains((o, i)) ==> #[trigger] import_value(objs, graph, layout, o, i, p)
                == Ok::<i64, LinkError>(value),
{
    let empty = Seq::<(int, int)>::empty();
    lemma_find_export(objs, import_name(objs, o, i), eo, ex);
    lemma_path_bound(objs, empty, (o, i));
    assert(symbol_entry_ok(objs, graph, layout, o, i, symbols.entries()[o]@[i]));
    assert(symbol_value(objs, graph, layout, o, i) is Ok);
    assert forall|p: Seq<(int, int)>| path_valid(objs, p) && !p.contains((o, i)) implies #[trigger] import_value(
        objs,
        graph,
        layout,
        o,
        i,
        p,
    ) == Ok::<i64, LinkError>(value) by {
        lemma_path_bound(objs, p, (o, i));
    }
}

/// The expression names the import slot `idx`.
pub open spec fn mentions(expr: Expr, idx: int) -> bool
    decreases expr,
{
    match expr {
        Expr::Symbol { import_idx } => import_idx == idx,
        Expr::Unary(_, e) => mentions(*e, idx),
        Expr::Binary(_, l, r) => mentions(*l, idx) || mentions(*r, idx),
        _ => false,
    }
}

/// The export that import `a` is bound to names import `b` in its
/// expression.
pub open spec fn refers_to(objs: Seq<Object>, a: (int, int), b: (int, int)) -> bool {
    let target = find_export(objs, import_name(objs, a.0, a.1));
    target.0 == b.0 && mentions(objs[target.0].exports()[target.1].expr, b.1)
}

/// Every import of the chain refers to the next one.
pub open spec fn is_chain(objs: Seq<Object>, chain: Seq<(int, int)>) -> bool {
    forall|k: int| 0 <= k < chain.len() - 1 ==> refers_to(objs, #[trigger] chain[k], chain[k + 1])
}

/// An expression has a value only if every import that it names has one.
pub proof fn lemma_mentioned_has_value(
    objs: Seq<Object>,
    graph: &LinkGraph,
    layout: &LinkLayout,
    owner: int,
    addr_size: u8,
    expr: Expr,
    path: Seq<(int, int)>,
    idx: int,
)
    requires
        expr_value(objs, graph, layout, owner, addr_size, expr, path) is Ok,
        mentions(expr, idx),
    ensures
        import_value(objs, graph, layout, owner, idx, path) is Ok,
    decreases expr,
{
    match expr {
        Expr::Unary(_, e) => {
            lemma_mentioned_has_value(objs, graph, layout, owner, addr_size, *e, path, idx);
        },
        Expr::Binary(_, l, r) => {
            if mentions(*l, idx) {
                lemma_mentioned_has_value(objs, graph, layout, owner, addr_size, *l, path, idx);
            } else {
                lemma_mentioned_has_value(objs, graph, layout, owner, addr_size, *r, path, idx);
            }
        },
        _ => {},
    }
}

proof fn lemma_chain_has_values(
    objs: Seq<Object>,
    graph: &LinkGraph,
    layout: &LinkLayout,
    chain: Seq<(int, int)>,
    k: int,
)
    requires
        is_chain(objs, chain),
        0 <= k < chain.len(),
        symbol_value(objs, graph, layout, chain[0].0, chain[0].1) is Ok,
    ensures
        import_value(objs, graph, layout, chain[k].0, chain[k].1, chain.take(k)) is Ok,
    decreases k,
{
    if k == 0 {
        assert(chain.take(0) =~= Seq::<(int, int)>::empty());
    } else {
        lemma_chain_has_values(objs, graph, layout, chain, k - 1);
        let a = chain[k - 1];
        let b = chain[k];
        assert(refers_to(objs, a, b));
        assert(chain.take(k) =~= chain.take(k - 1).push(a));
        let target = find_export(objs, import_name(objs, a.0, a.1));
        let export = objs[target.0].exports()[target.1];
        lemma_mentioned_has_value(
            objs,
            graph,
            layout,
            target.0,
            export.addr_size,
            export.expr,
            chain.take(k),
            b.1,
        );
    }
}

/// An import that refers back to itself, through any chain of exports and
/// imports, has no value.
pub proof fn theorem_cycle_has_no_value(
    objs: Seq<Object>,
    graph: &LinkGraph,
    layout: &LinkLayout,
    chain: Seq<(int, int)>,
)
    requires
        is_chain(objs, chain),
        chain.len() >= 2,
        chain.first() == chain.last(),
    ensures
        symbol_value(objs, graph, layout, chain[0].0, chain[0].1) is Err,
{
    if symbol_value(objs, graph, layout, chain[0].0, chain[0].1) is Ok {
        let last = chain.len() - 1;
        lemma_chain_has_values(objs, graph, layout, chain, last);
        assert(chain.take(last)[0] == chain[last]);
        assert(chain.take(last).contains(chain[last]));
    }
}

/// Where an import refers back to itself, no symbol table exists.
pub proof fn theorem_cycle_has_no_table(
    objs: Seq<Object>,
    graph: &LinkGraph,
    layout: &LinkLayout,
    symbols: &SymbolTable,
    chain: Seq<(int, int)>,
)
    requires
        is_chain(objs, chain),
        chain.len() >= 2,
        chain.first() == chain.last(),
        valid_import(objs, chain[0].0, chain[0].1),
    ensures
        !symbols.wf_for(objs, graph, layout),
{
    theorem_cycle_has_no_value(objs, graph, layout, chain);
    if symbols.wf_for(objs, graph, layout) {
        assert(symbol_entry_ok(objs, graph, layout, chain[0].0, chain[0].1, symbols.entries()[chain[0].0]@[chain[0].1]));
    }
}

/// Import `a` is bound to an export whose expression is import `b` and
/// nothing else, with address sizes that agree.
pub open spec fn bare_link(objs: Seq<Object>, a: (int, int), b: (int, int)) -> bool {
    let target = find_export(objs, import_name(objs, a.0, a.1));
    let export = objs[target.0].exports()[target.1];
    &&& valid_import(objs, b.0, b.1)
    &&& target.0 == b.0
    &&& export.expr matches Expr::Symbol { import_idx } && import_idx == b.1
    &&& objs[a.0].imports()[a.1].addr_size == export.addr_size
    &&& objs[b.0].imports()[b.1].addr_size == export.addr_size
}

/// The chain leads from an import back to itself through exports that are
/// bare references, and meets no other import twice.
pub open spec fn is_bare_cycle(objs: Seq<Object>, chain: Seq<(int, int)>) -> bool {
    &&& chain.len() >= 2
    &&& chain.first() == chain.last()
    &&& valid_import(objs, chain[0].0, chain[0].1)
    &&& chain.drop_last().no_duplicates()
    &&& forall|k: int| 0 <= k < chain.len() - 1 ==> bare_link(objs, #[trigger] chain[k], chain[k + 1])
}

proof fn lemma_bare_cycle(objs: Seq<Object>, graph: &LinkGraph, layout: &LinkLayout, chain: Seq<(int, int)>, k: int)
    requires
        is_bare_cycle(objs, chain),
        0 <= k < chain.len(),
    ensures
        import_value(objs, graph, layout, chain[k].0, chain[k].1, chain.take(k)) == Err::<i64, LinkError>(
            LinkError::CircularReference {
                obj: ObjIdx(chain[0].0 as usize),
                import: ObjImportIdx(chain[0].1 as usize),
            },
        ),
    decreases chain.len() - k,
{
    let last = chain.len() - 1;
    if k == last {
        assert(chain.take(k)[0] == chain[k]);
        assert(chain.take(k).contains(chain[k]));
    } else {
        let path = chain.take(k);
        let a = chain[k];
        let b = chain[k + 1];
        assert(bare_link(objs, a, b));
        assert(valid_import(objs, a.0, a.1)) by {
            if k > 0 {
                assert(bare_link(objs, chain[k - 1], chain[k]));
            }
        }
        assert(path_valid(objs, path)) by {
            assert forall|i: int, j: int| 0 <= i < path.len() && 0 <= j < path.len() && i != j implies path[i]
                != path[j] by {
                assert(chain.drop_last()[i] != chain.drop_last()[j]);
            }
            assert forall|j: int| 0 <= j < path.len() implies valid_import(
                objs,
                (#[trigger] path[j]).0,
                path[j].1,
            ) by {
                if j > 0 {
                    assert(bare_link(objs, chain[j - 1], chain[j]));
                }
            }
        }
        assert(!path.contains(a)) by {
            if path.contains(a) {
                let i = choose|i: int| 0 <= i < path.len() && path[i] == a;
                assert(chain.drop_last()[i] == chain.drop_last()[k]);
            }
        }
        lemma_path_bound(objs, path, a);
        assert(chain.take(k + 1) =~= path.push(a));
        lemma_bare_cycle(objs, graph, layout, chain, k + 1);
    }
}

/// An import that leads back to itself through exports that are bare
/// references has no value, and the error is that of a circular reference
/// to it.
pub proof fn theorem_bare_cycle_is_circular(
    objs: Seq<Object>,
    graph: &LinkGraph,
    layout: &LinkLayout,
    chain: Seq<(int, int)>,
)
    requires
        is_bare_cycle(objs, chain),
    ensures
        symbol_value(objs, graph, layout, chain[0].0, chain[0].1) == Err::<i64, LinkError>(
            LinkError::CircularReference {
                obj: ObjIdx(chain[0].0 as usize),
                import: ObjImportIdx(chain[0].1 as usize),
            },
        ),
{
    lemma_bare_cycle(objs, graph, layout, chain, 0);
    assert(chain.take(0) =~= Seq::<(int, int)>::empty());
}

/// Where two exports carry one name, whichever object comes first, no symbol
/// table exists, and the error that ends the resolution reports a repeated
/// export.
pub proof fn theorem_duplicate_export_fails(
    objs: Seq<Object>,
    graph: &LinkGraph,
    layout: &LinkLayout,
    symbols: &SymbolTable,
    e: LinkError,
    o1: int,
    x1: int,
    o2: int,
    x2: int,
)
    requires
        valid_export(objs, o1, x1),
        valid_export(objs, o2, x2),
        (o1, x1) != (o2, x2),
        export_name(objs, o1, x1) == export_name(objs, o2, x2),
    ensures
        !exports_unique(objs),
        !symbols.wf_for(objs, graph, layout),
        symbols_error(objs, graph, layout, e) ==> first_duplicate_export(objs, e) && e is DuplicateExport,
{
    if precedes(o1, x1, o2, x2) {
        assert(duplicate_export_at(objs, o2, x2));
    } else {
        assert(precedes(o2, x2, o1, x1));
        assert(duplicate_export_at(objs, o1, x1));
    }
}

} // verus!
