//! The linking engine: graph, layout, symbol resolution and emission.

use vstd::prelude::*;
use crate::error::LinkError;
use crate::index::OutFileIdx;
use crate::link::emit::{emit_file, file_bytes};
use crate::link::graph::{LinkGraph, first_section_error};
use crate::link::layout::{LinkLayout, layout_result};
use crate::link::symbol::{SymbolTable, symbols_error};
use crate::object::Object;
use crate::script::LinkScript;

pub mod emit;
pub mod fill;
pub mod graph;
pub mod laws;
pub mod layout;
pub mod symbol;
pub mod walk;

verus! {

/// The bytes of one output file, with the name of the file.
#[derive(Debug)]
pub struct LinkOutput {
    path: String,
    body: Vec<u8>,
}

impl LinkOutput {
    pub closed spec fn spec_path(&self) -> Seq<char> {
        self.path@
    }

    pub closed spec fn spec_body(&self) -> Seq<u8> {
        self.body@
    }

    pub fn path(&self) -> (r: &str)
        ensures
            r@ == self.spec_path(),
    {
        self.path.as_str()
    }

    pub fn body(&self) -> (r: &[u8])
        ensures
            r@ == self.spec_body(),
    {
        self.body.as_slice()
    }
}

/// The output files of a link, in the order in which the script declares them.
#[derive(Debug)]
pub struct LinkOutputs {
    outputs: Vec<LinkOutput>,
}

impl LinkOutputs {
    pub closed spec fn outputs(&self) -> Seq<LinkOutput> {
        self.outputs@
    }

    /// The output files in order.
    pub fn iter(&self) -> (r: &[LinkOutput])
        ensures
            r@ == self.outputs(),
    {
        self.outputs.as_slice()
    }
}

/// `graph`, `layout` and `symbols` are the graph of the script and the
/// objects, the layout of that graph, and the symbol table of that layout.
pub open spec fn stages_fit(
    script: &LinkScript,
    objs: Seq<Object>,
    graph: &LinkGraph,
    layout: &LinkLayout,
    symbols: &SymbolTable,
) -> bool {
    graph.wf_for(script, objs) && layout.wf_for(script, objs, graph) && symbols.wf_for(objs, graph, layout)
}

/// The files below `n` can be written.
pub open spec fn files_written_before(
    objs: Seq<Object>,
    graph: &LinkGraph,
    layout: &LinkLayout,
    symbols: &SymbolTable,
    n: int,
) -> bool {
    forall|f: int| 0 <= f < n ==> (#[trigger] file_bytes(objs, graph, layout, symbols, f)) is Ok
}

/// The outputs are the files of the script, each with its name and with the
/// bytes that the stages give it.
pub open spec fn outputs_of(
    script: &LinkScript,
    objs: Seq<Object>,
    graph: &LinkGraph,
    layout: &LinkLayout,
    symbols: &SymbolTable,
    outputs: Seq<LinkOutput>,
) -> bool {
    &&& outputs.len() == script.outfiles().len()
    &&& forall|f: int|
        0 <= f < outputs.len() ==> (#[trigger] outputs[f]).spec_path() == script.outfiles()[f]@ && file_bytes(
            objs,
            graph,
            layout,
            symbols,
            f,
        ) == Ok::<Seq<u8>, LinkError>(outputs[f].spec_body())
}

/// `e` is the error that ends the link: the first error of the first stage
/// that fails, the stages being the graph, the layout, the symbols, and the
/// files in their order.
pub open spec fn link_error(script: &LinkScript, objs: Seq<Object>, e: LinkError) -> bool {
    ||| first_section_error(script, objs, e)
    ||| exists|graph: &LinkGraph| #[trigger]
        graph.wf_for(script, objs) && layout_result(script, objs, graph) == Err::<(), LinkError>(e)
    ||| exists|graph: &LinkGraph, layout: &LinkLayout|
        graph.wf_for(script, objs) && #[trigger] layout.wf_for(script, objs, graph) && symbols_error(
            objs,
            graph,
            layout,
            e,
        )
    ||| exists|graph: &LinkGraph, layout: &LinkLayout, symbols: &SymbolTable, f: int|
        stages_fit(script, objs, graph, layout, symbols) && 0 <= f < script.outfiles().len() && files_written_before(
            objs,
            graph,
            layout,
            symbols,
            f,
        ) && #[trigger] file_bytes(objs, graph, layout, symbols, f) == Err::<Seq<u8>, LinkError>(e)
}

/// Links the objects as the script says: builds the graph, lays it out,
/// resolves the symbols and writes every output file. The first failure ends
/// the link, and no output exists then.
pub fn link(script: &LinkScript, objs: &[Object]) -> (r: Result<LinkOutputs, LinkError>)
    requires
        script.wf(),
        forall|o: int| 0 <= o < objs@.len() ==> (#[trigger] objs@[o]).wf(),
    ensures
        match r {
            Ok(outs) => exists|graph: &LinkGraph, layout: &LinkLayout, symbols: &SymbolTable| #[trigger]
                stages_fit(script, objs@, graph, layout, symbols) && outputs_of(
                    script,
                    objs@,
                    graph,
                    layout,
                    symbols,
                    outs.outputs(),
                ),
            Err(e) => link_error(script, objs@, e),
        },
{
    let graph = match LinkGraph::new(script, objs) {
        Ok(graph) => graph,
        Err(e) => {
            return Err(e);
        },
    };
    let layout = match LinkLayout::new(script, objs, &graph) {
        Ok(layout) => layout,
        Err(e) => {
            return Err(e);
        },
    };
    let symbols = match SymbolTable::new(objs, &graph, &layout) {
        Ok(symbols) => symbols,
        Err(e) => {
            return Err(e);
        },
    };
    proof {
        graph.lemma_wf_linked(script, objs@);
    }
    let mut outputs: Vec<LinkOutput> = Vec::new();
    let mut f: usize = 0;
    while f < graph.file_count()
        invariant
            stages_fit(script, objs@, &graph, &layout, &symbols),
            graph.linked(objs@),
            f <= script.outfiles().len(),
            graph.spec_file_names().len() == script.outfiles().len(),
            outputs@.len() == f,
            files_written_before(objs@, &graph, &layout, &symbols, f as int),
            forall|f1: int|
                0 <= f1 < f ==> (#[trigger] outputs@[f1]).spec_path() == script.outfiles()[f1]@ && file_bytes(
                    objs@,
                    &graph,
                    &layout,
                    &symbols,
                    f1,
                ) == Ok::<Seq<u8>, LinkError>(outputs@[f1].spec_body()),
        decreases script.outfiles().len() - f,
    {
        let file_i = OutFileIdx::new(f);
        let body = match emit_file(objs, &graph, &layout, &symbols, file_i) {
            Ok(body) => body,
            Err(e) => {
                return Err(e);
            },
        };
        outputs.push(LinkOutput { path: graph.file_name(file_i).to_owned(), body });
        f += 1;
    }
    Ok(LinkOutputs { outputs })
}

} // verus!
