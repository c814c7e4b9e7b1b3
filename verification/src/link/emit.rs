//! The emitter: the bytes of every output file.

use vstd::prelude::*;
use crate::error::LinkError;
use crate::expr::{
    Expr, apply_binary, apply_unary, binary_defined, binary_is_defined, binary_value, unary_defined,
    unary_is_defined, unary_value,
};
use crate::index::{MemIdx, ObjIdx, ObjImportIdx, ObjSectIdx, OutFileIdx, SegIdx, positions};
use crate::link::graph::{LinkGraph, lists_exactly, valid_ref};
use crate::link::layout::{LinkLayout, recorded_segment_outputs};
use crate::link::symbol::{SymbolTable, section_address};
use crate::link::walk::{
    lemma_sum_where_is_sum_over, lemma_walk_err, lemma_walk_step, lemma_walk_to_entry, list_bound, sum_over,
    sum_where, walk,
};
use crate::object::{Fragment, Object};

verus! {

/// `len` bytes that all are `b`.
pub open spec fn filled(len: int, b: u8) -> Seq<u8> {
    Seq::new(len as nat, |k: int| b)
}

/// `buf` with `data` written over it from position `off` on.
pub open spec fn overlay(buf: Seq<u8>, off: int, data: Seq<u8>) -> Seq<u8> {
    Seq::new(
        buf.len(),
        |k: int|
            if off <= k < off + data.len() {
                data[k - off]
            } else {
                buf[k]
            },
    )
}

/// The number of values that `width` bytes can tell apart.
pub open spec fn width_span(width: int) -> int {
    if width == 1 {
        0x100
    } else if width == 2 {
        0x1_0000
    } else if width == 3 {
        0x100_0000
    } else {
        0x1_0000_0000
    }
}

/// The value fits `width` bytes: from 0 below the span for an unsigned
/// value, from minus half the span below half the span for a signed one.
pub open spec fn value_fits(value: i64, width: int, signed: bool) -> bool {
    if signed {
        -(width_span(width) / 2) <= value < width_span(width) / 2
    } else {
        0 <= value < width_span(width)
    }
}

/// The value in `width` bytes, lowest byte first, a negative value in two's
/// complement.
pub open spec fn value_bytes(value: i64, width: int) -> Seq<u8> {
    let u = if value < 0 {
        value + width_span(width)
    } else {
        value as int
    };
    Seq::new(
        width as nat,
        |k: int|
            if k == 0 {
                (u % 0x100) as u8
            } else if k == 1 {
                (u / 0x100 % 0x100) as u8
            } else if k == 2 {
                (u / 0x1_0000 % 0x100) as u8
            } else {
                (u / 0x100_0000 % 0x100) as u8
            },
    )
}

/// The bytes that an expression of that value gives in `width` bytes (1 to 4).
pub open spec fn encode_value(value: i64, width: int, signed: bool) -> Result<Seq<u8>, LinkError> {
    if value_fits(value, width, signed) {
        Ok(value_bytes(value, width))
    } else {
        Err(LinkError::ValueOutOfRange { value })
    }
}

/// Writes a value in `width` bytes, lowest byte first. A value that does not
/// fit the width is an error: nothing is cut off.
pub fn encode(value: i64, width: u8, signed: bool) -> (r: Result<Vec<u8>, LinkError>)
    requires
        1 <= width <= 4,
    ensures
        match r {
            Ok(bytes) => encode_value(value, width as int, signed) == Ok::<Seq<u8>, LinkError>(bytes@),
            Err(e) => encode_value(value, width as int, signed) == Err::<Seq<u8>, LinkError>(e),
        },
{
    let span: i64 = if width == 1 {
        0x100
    } else if width == 2 {
        0x1_0000
    } else if width == 3 {
        0x100_0000
    } else {
        0x1_0000_0000
    };
    let fits = if signed {
        -(span / 2) <= value && value < span / 2
    } else {
        0 <= value && value < span
    };
    if !fits {
        return Err(LinkError::ValueOutOfRange { value });
    }
    let u: i64 = if value < 0 {
        value + span
    } else {
        value
    };
    let mut bytes: Vec<u8> = Vec::new();
    bytes.push((u % 0x100) as u8);
    if width >= 2 {
        bytes.push((u / 0x100 % 0x100) as u8);
    }
    if width >= 3 {
        bytes.push((u / 0x1_0000 % 0x100) as u8);
    }
    if width >= 4 {
        bytes.push((u / 0x100_0000 % 0x100) as u8);
    }
    assert(bytes@ =~= value_bytes(value, width as int));
    Ok(bytes)
}

/// `len` bytes that all are `b`.
fn fill_bytes(len: usize, b: u8) -> (r: Vec<u8>)
    ensures
        r@ == filled(len as int, b),
{
    let mut r: Vec<u8> = Vec::new();
    let mut k: usize = 0;
    while k < len
        invariant
            k <= len,
            r@.len() == k,
            forall|j: int| 0 <= j < k ==> r@[j] == b,
        decreases len - k,
    {
        r.push(b);
        k += 1;
    }
    assert(r@ =~= filled(len as int, b));
    r
}

/// A copy of `len` bytes of `buf` from position `off` on.
fn take_window(buf: &Vec<u8>, off: usize, len: usize) -> (r: Vec<u8>)
    requires
        off + len <= buf@.len(),
    ensures
        r@ == buf@.subrange(off as int, off + len),
{
    let total = buf.len();
    let mut r: Vec<u8> = Vec::new();
    let mut k: usize = 0;
    while k < len
        invariant
            off + len <= buf@.len(),
            total == buf@.len(),
            k <= len,
            r@.len() == k,
            forall|j: int| 0 <= j < k ==> r@[j] == buf@[off + j],
        decreases len - k,
    {
        r.push(buf[off + k]);
        k += 1;
    }
    assert(r@ =~= buf@.subrange(off as int, off + len));
    r
}

/// Writes `data` over `buf` from position `off` on.
fn put_window(buf: &mut Vec<u8>, off: usize, data: &Vec<u8>)
    requires
        off + data@.len() <= old(buf)@.len(),
    ensures
        final(buf)@ == overlay(old(buf)@, off as int, data@),
{
    let total = buf.len();
    let mut k: usize = 0;
    while k < data.len()
        invariant
            off + data@.len() <= buf@.len(),
            total == buf@.len(),
            buf@.len() == old(buf)@.len(),
            k <= data@.len(),
            forall|j: int| 0 <= j < buf@.len() ==> buf@[j] == if off <= j < off + k {
                data@[j - off]
            } else {
                old(buf)@[j]
            },
        decreases data@.len() - k,
    {
        buf[off + k] = data[k];
        k += 1;
    }
    assert(buf@ =~= overlay(old(buf)@, off as int, data@));
}

/// The value of an expression of object `o` once all symbols are resolved.
/// A symbol has the value that stands in the table.
pub open spec fn emit_value(
    graph: &LinkGraph,
    layout: &LinkLayout,
    symbols: &SymbolTable,
    o: int,
    expr: Expr,
) -> Result<i64, LinkError>
    decreases expr,
{
    match expr {
        Expr::Null => Err(LinkError::NullExpr),
        Expr::Literal { value } => Ok(value),
        Expr::Symbol { import_idx } => if 0 <= o < symbols.entries().len() && import_idx
            < symbols.entries()[o]@.len() {
            Ok(symbols.entries()[o]@[import_idx as int].value)
        } else {
            Err(LinkError::UnknownImport { obj: ObjIdx(o as usize), import: ObjImportIdx(import_idx as usize) })
        },
        Expr::Section { section_idx } => section_address(graph, layout, o, section_idx as int),
        Expr::Unary(op, e) => match emit_value(graph, layout, symbols, o, *e) {
            Err(err) => Err(err),
            Ok(v) => if unary_defined(op) {
                Ok(unary_value(op, v))
            } else {
                Err(LinkError::UndefinedOperation)
            },
        },
        Expr::Binary(op, l, r) => match emit_value(graph, layout, symbols, o, *l) {
            Err(err) => Err(err),
            Ok(a) => match emit_value(graph, layout, symbols, o, *r) {
                Err(err) => Err(err),
                Ok(b) => if binary_defined(op, b) {
                    Ok(binary_value(op, a, b))
                } else {
                    Err(LinkError::UndefinedOperation)
                },
            },
        },
    }
}

/// Evaluates an expression of an object with the resolved symbols.
pub fn eval_expr(graph: &LinkGraph, layout: &LinkLayout, symbols: &SymbolTable, obj_i: ObjIdx, expr: &Expr) -> (r:
    Result<i64, LinkError>)
    ensures
        r == emit_value(graph, layout, symbols, obj_i.0 as int, *expr),
    decreases expr,
{
    match expr {
        Expr::Null => Err(LinkError::NullExpr),
        Expr::Literal { value } => Ok(*value),
        Expr::Symbol { import_idx } => {
            let imp_i = ObjImportIdx::new(*import_idx as usize);
            if obj_i.0 < symbols.object_count() && imp_i.0 < symbols.import_count(obj_i) {
                Ok(symbols.get(obj_i, imp_i).value())
            } else {
                Err(LinkError::UnknownImport { obj: obj_i, import: imp_i })
            }
        },
        Expr::Section { section_idx } => {
            let obj_sect_i = ObjSectIdx::new(*section_idx as usize);
            match graph.obj_sect_to_sect(obj_i, obj_sect_i) {
                Some(sect_i) => {
                    if sect_i.0 < layout.section_count() {
                        Ok(layout.section(sect_i).start() as i64)
                    } else {
                        Err(LinkError::UnknownSection { obj: obj_i, sect: obj_sect_i })
                    }
                },
                None => Err(LinkError::UnknownSection { obj: obj_i, sect: obj_sect_i }),
            }
        },
        Expr::Unary(op, e) => {
            let v = match eval_expr(graph, layout, symbols, obj_i, e) {
                Ok(v) => v,
                Err(err) => {
                    return Err(err);
                },
            };
            if !unary_is_defined(*op) {
                return Err(LinkError::UndefinedOperation);
            }
            Ok(apply_unary(*op, v))
        },
        Expr::Binary(op, l, r) => {
            let a = match eval_expr(graph, layout, symbols, obj_i, l) {
                Ok(v) => v,
                Err(err) => {
                    return Err(err);
                },
            };
            let b = match eval_expr(graph, layout, symbols, obj_i, r) {
                Ok(v) => v,
                Err(err) => {
                    return Err(err);
                },
            };
            if !binary_is_defined(*op, b) {
                return Err(LinkError::UndefinedOperation);
            }
            Ok(apply_binary(*op, a, b))
        },
    }
}

/// The bytes of an expression of object `o`, in `width` bytes.
pub open spec fn expr_bytes(
    graph: &LinkGraph,
    layout: &LinkLayout,
    symbols: &SymbolTable,
    o: int,
    expr: Expr,
    width: int,
    signed: bool,
) -> Result<Seq<u8>, LinkError> {
    match emit_value(graph, layout, symbols, o, expr) {
        Err(e) => Err(e),
        Ok(v) => encode_value(v, width, signed),
    }
}

/// Where the replay of the fragments of a section stands.
pub struct EmitState {
    /// The bytes of the section.
    pub buf: Seq<u8>,
    /// The position of the next byte to write.
    pub off: int,
}

/// Writes `bytes` at the position reached. Bytes that do not fit are an error.
pub open spec fn write_bytes(st: EmitState, bytes: Seq<u8>) -> Result<EmitState, LinkError> {
    if st.off + bytes.len() > st.buf.len() {
        Err(LinkError::OutputOutOfRange)
    } else {
        Ok(EmitState { buf: overlay(st.buf, st.off, bytes), off: st.off + bytes.len() })
    }
}

/// The bytes of a fragment of a section of object `o`: literal bytes as
/// they are, a fill run as so many bytes `fill`, an expression as its value
/// in the width of the fragment.
pub open spec fn fragment_bytes(
    graph: &LinkGraph,
    layout: &LinkLayout,
    symbols: &SymbolTable,
    o: int,
    fill: u8,
    frag: Fragment,
) -> Result<Seq<u8>, LinkError> {
    match frag {
        Fragment::Literal(bytes) => Ok(bytes@),
        Fragment::Fill(len) => Ok(filled(len as int, fill)),
        Fragment::ExprU8(e) => expr_bytes(graph, layout, symbols, o, e, 1, false),
        Fragment::ExprU16(e) => expr_bytes(graph, layout, symbols, o, e, 2, false),
        Fragment::ExprU24(e) => expr_bytes(graph, layout, symbols, o, e, 3, false),
        Fragment::ExprU32(e) => expr_bytes(graph, layout, symbols, o, e, 4, false),
        Fragment::ExprI8(e) => expr_bytes(graph, layout, symbols, o, e, 1, true),
        Fragment::ExprI16(e) => expr_bytes(graph, layout, symbols, o, e, 2, true),
        Fragment::ExprI24(e) => expr_bytes(graph, layout, symbols, o, e, 3, true),
        Fragment::ExprI32(e) => expr_bytes(graph, layout, symbols, o, e, 4, true),
    }
}

/// Writes a fragment of a section of object `o` at the position reached.
#[verifier::opaque]
pub open spec fn write_fragment(
    graph: &LinkGraph,
    layout: &LinkLayout,
    symbols: &SymbolTable,
    o: int,
    fill: u8,
    frag: Fragment,
    st: EmitState,
) -> Result<EmitState, LinkError> {
    match fragment_bytes(graph, layout, symbols, o, fill, frag) {
        Err(e) => Err(e),
        Ok(bytes) => write_bytes(st, bytes),
    }
}

/// The state after the first `n` fragments, or the first error.
pub open spec fn write_fragments(
    graph: &LinkGraph,
    layout: &LinkLayout,
    symbols: &SymbolTable,
    o: int,
    fill: u8,
    frags: Seq<Fragment>,
    st: EmitState,
    n: int,
) -> Result<EmitState, LinkError>
    decreases n,
{
    if n <= 0 {
        Ok(st)
    } else {
        match write_fragments(graph, layout, symbols, o, fill, frags, st, n - 1) {
            Err(e) => Err(e),
            Ok(st1) => write_fragment(graph, layout, symbols, o, fill, frags[n - 1], st1),
        }
    }
}

/// The bytes of section `k` of object `o`, written over `background`: the
/// fragments one after the other from the first byte on. What the fragments
/// do not reach stays as it is.
pub open spec fn section_bytes(
    objs: Seq<Object>,
    graph: &LinkGraph,
    layout: &LinkLayout,
    symbols: &SymbolTable,
    o: int,
    k: int,
    fill: u8,
    background: Seq<u8>,
) -> Result<Seq<u8>, LinkError> {
    let frags = objs[o].sections()[k].fragments@;
    match write_fragments(
        graph,
        layout,
        symbols,
        o,
        fill,
        frags,
        EmitState { buf: background, off: 0 },
        frags.len() as int,
    ) {
        Err(e) => Err(e),
        Ok(st) => Ok(st.buf),
    }
}

/// A replay that has failed stays failed.
proof fn lemma_write_fragments_err(
    graph: &LinkGraph,
    layout: &LinkLayout,
    symbols: &SymbolTable,
    o: int,
    fill: u8,
    frags: Seq<Fragment>,
    st: EmitState,
    a: int,
    b: int,
)
    requires
        a <= b,
        write_fragments(graph, layout, symbols, o, fill, frags, st, a) is Err,
    ensures
        write_fragments(graph, layout, symbols, o, fill, frags, st, b) == write_fragments(
            graph,
            layout,
            symbols,
            o,
            fill,
            frags,
            st,
            a,
        ),
    decreases b - a,
{
    if a < b {
        lemma_write_fragments_err(graph, layout, symbols, o, fill, frags, st, a, b - 1);
    }
}

/// Evaluates an expression and writes its value in `width` bytes.
fn emit_expr(
    graph: &LinkGraph,
    layout: &LinkLayout,
    symbols: &SymbolTable,
    obj_i: ObjIdx,
    expr: &Expr,
    width: u8,
    signed: bool,
) -> (r: Result<Vec<u8>, LinkError>)
    requires
        1 <= width <= 4,
    ensures
        match r {
            Ok(bytes) => expr_bytes(graph, layout, symbols, obj_i.0 as int, *expr, width as int, signed) == Ok::<
                Seq<u8>,
                LinkError,
            >(bytes@),
            Err(e) => expr_bytes(graph, layout, symbols, obj_i.0 as int, *expr, width as int, signed) == Err::<
                Seq<u8>,
                LinkError,
            >(e),
        },
{
    match eval_expr(graph, layout, symbols, obj_i, expr) {
        Ok(value) => encode(value, width, signed),
        Err(e) => Err(e),
    }
}

/// Writes `bytes` over `buf` at the position `off`, if they fit.
fn emit_at(buf: &mut Vec<u8>, off: usize, bytes: &Vec<u8>) -> (r: Result<usize, LinkError>)
    requires
        off <= old(buf)@.len(),
    ensures
        final(buf)@.len() == old(buf)@.len(),
        match r {
            Ok(next) => next <= final(buf)@.len() && write_bytes(
                EmitState { buf: old(buf)@, off: off as int },
                bytes@,
            ) == Ok::<EmitState, LinkError>(EmitState { buf: final(buf)@, off: next as int }),
            Err(e) => write_bytes(EmitState { buf: old(buf)@, off: off as int }, bytes@) == Err::<
                EmitState,
                LinkError,
            >(e),
        },
{
    if bytes.len() > buf.len() - off {
        return Err(LinkError::OutputOutOfRange);
    }
    put_window(buf, off, bytes);
    Ok(off + bytes.len())
}

/// Writes `len` bytes `b` over `buf` at the position `off`, if they fit.
fn emit_fill(buf: &mut Vec<u8>, off: usize, len: usize, b: u8) -> (r: Result<usize, LinkError>)
    requires
        off <= old(buf)@.len(),
    ensures
        final(buf)@.len() == old(buf)@.len(),
        match r {
            Ok(next) => next <= final(buf)@.len() && write_bytes(
                EmitState { buf: old(buf)@, off: off as int },
                filled(len as int, b),
            ) == Ok::<EmitState, LinkError>(EmitState { buf: final(buf)@, off: next as int }),
            Err(e) => write_bytes(EmitState { buf: old(buf)@, off: off as int }, filled(len as int, b)) == Err::<
                EmitState,
                LinkError,
            >(e),
        },
{
    if len > buf.len() - off {
        return Err(LinkError::OutputOutOfRange);
    }
    emit_at(buf, off, &fill_bytes(len, b))
}

/// Writes a fragment of a section of an object over `buf` at the position
/// `off`. Returns the position after the fragment.
fn emit_fragment(
    graph: &LinkGraph,
    layout: &LinkLayout,
    symbols: &SymbolTable,
    obj_i: ObjIdx,
    fill_byte: u8,
    frag: &Fragment,
    buf: &mut Vec<u8>,
    off: usize,
) -> (r: Result<usize, LinkError>)
    requires
        off <= old(buf)@.len(),
    ensures
        final(buf)@.len() == old(buf)@.len(),
        match r {
            Ok(next) => next <= final(buf)@.len() && write_fragment(
                graph,
                layout,
                symbols,
                obj_i.0 as int,
                fill_byte,
                *frag,
                EmitState { buf: old(buf)@, off: off as int },
            ) == Ok::<EmitState, LinkError>(EmitState { buf: final(buf)@, off: next as int }),
            Err(e) => write_fragment(
                graph,
                layout,
                symbols,
                obj_i.0 as int,
                fill_byte,
                *frag,
                EmitState { buf: old(buf)@, off: off as int },
            ) == Err::<EmitState, LinkError>(e),
        },
{
    reveal(write_fragment);
    let bytes = match frag {
        Fragment::Literal(bytes) => {
            return emit_at(buf, off, bytes);
        },
        Fragment::Fill(len) => {
            return emit_fill(buf, off, *len as usize, fill_byte);
        },
        Fragment::ExprU8(e) => emit_expr(graph, layout, symbols, obj_i, e, 1, false),
        Fragment::ExprU16(e) => emit_expr(graph, layout, symbols, obj_i, e, 2, false),
        Fragment::ExprU24(e) => emit_expr(graph, layout, symbols, obj_i, e, 3, false),
        Fragment::ExprU32(e) => emit_expr(graph, layout, symbols, obj_i, e, 4, false),
        Fragment::ExprI8(e) => emit_expr(graph, layout, symbols, obj_i, e, 1, true),
        Fragment::ExprI16(e) => emit_expr(graph, layout, symbols, obj_i, e, 2, true),
        Fragment::ExprI24(e) => emit_expr(graph, layout, symbols, obj_i, e, 3, true),
        Fragment::ExprI32(e) => emit_expr(graph, layout, symbols, obj_i, e, 4, true),
    };
    match bytes {
        Ok(bytes) => emit_at(buf, off, &bytes),
        Err(e) => Err(e),
    }
}

/// Replays the fragments of a section of an object over `buf`, which holds
/// the bytes that stand where the section goes.
pub fn emit_section(
    objs: &[Object],
    graph: &LinkGraph,
    layout: &LinkLayout,
    symbols: &SymbolTable,
    obj_i: ObjIdx,
    obj_sect_i: ObjSectIdx,
    fill_byte: u8,
    buf: Vec<u8>,
) -> (r: Result<Vec<u8>, LinkError>)
    requires
        valid_ref(objs@, obj_i.0 as int, obj_sect_i.0 as int),
    ensures
        match r {
            Ok(bytes) => bytes@.len() == buf@.len() && section_bytes(
                objs@,
                graph,
                layout,
                symbols,
                obj_i.0 as int,
                obj_sect_i.0 as int,
                fill_byte,
                buf@,
            ) == Ok::<Seq<u8>, LinkError>(bytes@),
            Err(e) => section_bytes(
                objs@,
                graph,
                layout,
                symbols,
                obj_i.0 as int,
                obj_sect_i.0 as int,
                fill_byte,
                buf@,
            ) == Err::<Seq<u8>, LinkError>(e),
        },
{
    let sect = objs[obj_i.0].section(obj_sect_i);
    let ghost o = obj_i.0 as int;
    let ghost frags = sect.fragments@;
    let ghost st0 = EmitState { buf: buf@, off: 0 };
    let mut out = buf;
    let mut off: usize = 0;
    let mut i: usize = 0;
    while i < sect.fragments.len()
        invariant
            frags == sect.fragments@,
            i <= frags.len(),
            o == obj_i.0,
            st0 == (EmitState { buf: buf@, off: 0 }),
            sect == objs@[o].sections()[obj_sect_i.0 as int],
            valid_ref(objs@, o, obj_sect_i.0 as int),
            out@.len() == st0.buf.len(),
            off <= out@.len(),
            write_fragments(graph, layout, symbols, o, fill_byte, frags, st0, i as int) == Ok::<
                EmitState,
                LinkError,
            >(EmitState { buf: out@, off: off as int }),
        decreases frags.len() - i,
    {
        off = match emit_fragment(graph, layout, symbols, obj_i, fill_byte, &sect.fragments[i], &mut out, off) {
            Ok(next) => next,
            Err(e) => {
                proof {
                    assert(sect.fragments[i as int] == frags[i as int]);
                    assert(write_fragments(graph, layout, symbols, o, fill_byte, frags, st0, i + 1) == Err::<
                        EmitState,
                        LinkError,
                    >(e));
                    lemma_write_fragments_err(
                        graph,
                        layout,
                        symbols,
                        o,
                        fill_byte,
                        frags,
                        st0,
                        i + 1,
                        frags.len() as int,
                    );
                }
                return Err(e);
            },
        };
        i += 1;
    }
    Ok(out)
}

/// Writes placed section `s` of segment `g` over the bytes `win` of the
/// segment. A section that gives no bytes is passed over. The bytes of the
/// section start as far into the segment as its address lies above that of
/// the segment, and must lie within the segment.
pub open spec fn place_section_bytes(
    objs: Seq<Object>,
    graph: &LinkGraph,
    layout: &LinkLayout,
    symbols: &SymbolTable,
    g: int,
    fill: u8,
    s: int,
    win: Seq<u8>,
) -> Result<Seq<u8>, LinkError> {
    let sect = layout.sects()[s];
    let off = sect.start - layout.segs()[g].start;
    let origin = graph.spec_sect_to_obj_sect()[s];
    if sect.output_len == 0 {
        Ok(win)
    } else if off < 0 || off + sect.output_len > win.len() {
        Err(LinkError::OutputOutOfRange)
    } else {
        match section_bytes(
            objs,
            graph,
            layout,
            symbols,
            origin.0.0 as int,
            origin.1.0 as int,
            fill,
            win.subrange(off, off + sect.output_len),
        ) {
            Err(e) => Err(e),
            Ok(bytes) => Ok(overlay(win, off, bytes)),
        }
    }
}

pub open spec fn section_step(
    objs: Seq<Object>,
    graph: &LinkGraph,
    layout: &LinkLayout,
    symbols: &SymbolTable,
    g: int,
    fill: u8,
) -> spec_fn(int, Seq<u8>) -> Result<Seq<u8>, LinkError> {
    |s: int, win: Seq<u8>| place_section_bytes(objs, graph, layout, symbols, g, fill, s, win)
}

/// The bytes of segment `g`, written over `win`: its sections in ascending
/// order.
pub open spec fn segment_bytes(
    objs: Seq<Object>,
    graph: &LinkGraph,
    layout: &LinkLayout,
    symbols: &SymbolTable,
    g: int,
    fill: u8,
    win: Seq<u8>,
) -> Result<Seq<u8>, LinkError> {
    walk(
        positions(graph.spec_sect_to_seg()),
        g,
        section_step(objs, graph, layout, symbols, g, fill),
        win,
        graph.spec_sect_to_seg().len() as int,
    )
}

/// How far into the bytes of memory region `m` the bytes of its segment `g`
/// start.
///
/// A filled region holds a byte for every address, so the segment starts as
/// far in as its address lies above the lowest address of the region. A
/// region that is not filled holds the bytes of its segments one after the
/// other, so the segment starts after the bytes that the segments before it
/// give: addresses that a BSS segment takes, or that are passed over to reach
/// a start address, take no bytes.
pub open spec fn segment_offset(graph: &LinkGraph, layout: &LinkLayout, m: int, g: int) -> int {
    if layout.mems()[m].filled {
        layout.segs()[g].start - layout.mems()[m].range.spec_min()
    } else {
        sum_where(positions(graph.spec_seg_to_mem()), m, recorded_segment_outputs(layout), g)
    }
}

/// Writes segment `g` of memory region `m` over the bytes `win` of the
/// region, from its offset on. A segment that gives no bytes is passed over.
/// A segment whose bytes do not lie within those of the region is an error;
/// that is a segment of a filled region whose addresses leave the region. A
/// segment with a fill byte of its own is first filled with it, and its fill
/// runs use it; another keeps what stands there, and its fill runs use the
/// fill byte of the region.
pub open spec fn place_segment_bytes(
    objs: Seq<Object>,
    graph: &LinkGraph,
    layout: &LinkLayout,
    symbols: &SymbolTable,
    m: int,
    g: int,
    win: Seq<u8>,
) -> Result<Seq<u8>, LinkError> {
    let seg = layout.segs()[g];
    let mem = layout.mems()[m];
    let off = segment_offset(graph, layout, m, g);
    if seg.output_len == 0 {
        Ok(win)
    } else if off < 0 || off + seg.output_len > win.len() {
        Err(LinkError::OutputOutOfRange)
    } else {
        let background = match seg.fill_byte {
            Some(b) => filled(seg.output_len as int, b),
            None => win.subrange(off, off + seg.output_len),
        };
        let fill = match seg.fill_byte {
            Some(b) => b,
            None => mem.fill_byte,
        };
        match segment_bytes(objs, graph, layout, symbols, g, fill, background) {
            Err(e) => Err(e),
            Ok(bytes) => Ok(overlay(win, off, bytes)),
        }
    }
}

pub open spec fn segment_step(
    objs: Seq<Object>,
    graph: &LinkGraph,
    layout: &LinkLayout,
    symbols: &SymbolTable,
    m: int,
) -> spec_fn(int, Seq<u8>) -> Result<Seq<u8>, LinkError> {
    |g: int, win: Seq<u8>| place_segment_bytes(objs, graph, layout, symbols, m, g, win)
}

/// The bytes of memory region `m`, written over `win`: its segments in
/// ascending order.
pub open spec fn memory_bytes(
    objs: Seq<Object>,
    graph: &LinkGraph,
    layout: &LinkLayout,
    symbols: &SymbolTable,
    m: int,
    win: Seq<u8>,
) -> Result<Seq<u8>, LinkError> {
    walk(
        positions(graph.spec_seg_to_mem()),
        m,
        segment_step(objs, graph, layout, symbols, m),
        win,
        graph.spec_seg_to_mem().len() as int,
    )
}

/// Writes memory region `m` over the bytes `buf` of its file. A region that
/// gives no bytes is passed over. The bytes of the region start at its
/// offset in the file and are first filled with its fill byte.
pub open spec fn place_memory_bytes(
    objs: Seq<Object>,
    graph: &LinkGraph,
    layout: &LinkLayout,
    symbols: &SymbolTable,
    m: int,
    buf: Seq<u8>,
) -> Result<Seq<u8>, LinkError> {
    let mem = layout.mems()[m];
    if mem.output_len == 0 {
        Ok(buf)
    } else if mem.file_off + mem.output_len > buf.len() {
        Err(LinkError::OutputOutOfRange)
    } else {
        match memory_bytes(objs, graph, layout, symbols, m, filled(mem.output_len as int, mem.fill_byte)) {
            Err(e) => Err(e),
            Ok(bytes) => Ok(overlay(buf, mem.file_off as int, bytes)),
        }
    }
}

pub open spec fn memory_step(
    objs: Seq<Object>,
    graph: &LinkGraph,
    layout: &LinkLayout,
    symbols: &SymbolTable,
) -> spec_fn(int, Seq<u8>) -> Result<Seq<u8>, LinkError> {
    |m: int, buf: Seq<u8>| place_memory_bytes(objs, graph, layout, symbols, m, buf)
}

/// The bytes of file `f`: as many zero bytes as the file is long, with its
/// memory regions written over them in ascending order.
pub open spec fn file_bytes(
    objs: Seq<Object>,
    graph: &LinkGraph,
    layout: &LinkLayout,
    symbols: &SymbolTable,
    f: int,
) -> Result<Seq<u8>, LinkError> {
    walk(
        positions(graph.spec_mem_to_file()),
        f,
        memory_step(objs, graph, layout, symbols),
        filled(layout.files()[f].len as int, 0),
        graph.spec_mem_to_file().len() as int,
    )
}

/// Writes the sections of a segment over `win`, which holds the bytes that
/// stand where the segment goes.
pub fn emit_segment(
    objs: &[Object],
    graph: &LinkGraph,
    layout: &LinkLayout,
    symbols: &SymbolTable,
    seg_i: SegIdx,
    fill_byte: u8,
    win: Vec<u8>,
) -> (r: Result<Vec<u8>, LinkError>)
    requires
        graph.linked(objs@),
        layout.shaped_for(graph),
        seg_i.0 < layout.segs().len(),
    ensures
        match r {
            Ok(bytes) => bytes@.len() == win@.len() && segment_bytes(
                objs@,
                graph,
                layout,
                symbols,
                seg_i.0 as int,
                fill_byte,
                win@,
            ) == Ok::<Seq<u8>, LinkError>(bytes@),
            Err(e) => segment_bytes(objs@, graph, layout, symbols, seg_i.0 as int, fill_byte, win@) == Err::<
                Seq<u8>,
                LinkError,
            >(e),
        },
{
    let list = graph.seg_to_sects(seg_i);
    let seg_start = layout.segment(seg_i).start();
    let ghost keys = positions(graph.spec_sect_to_seg());
    let ghost ids = positions(list@);
    let ghost g = seg_i.0 as int;
    let ghost step = section_step(objs@, graph, layout, symbols, g, fill_byte);
    let ghost n = graph.spec_sect_to_seg().len() as int;
    let ghost win0 = win@;
    let mut out = win;
    let mut i: usize = 0;
    proof {
        assert(graph.spec_seg_to_sects()[g]@ == list@);
        assert(lists_exactly(ids, keys, g));
        lemma_walk_to_entry(ids, keys, g, step, win0, 0);
    }
    while i < list.len()
        invariant
            graph.linked(objs@),
            layout.shaped_for(graph),
            g == seg_i.0,
            g < layout.segs().len(),
            seg_start == layout.segs()[g].start,
            n == graph.spec_sect_to_seg().len(),
            keys == positions(graph.spec_sect_to_seg()),
            ids == positions(list@),
            step == section_step(objs@, graph, layout, symbols, g, fill_byte),
            lists_exactly(ids, keys, g),
            i <= list@.len(),
            win0 == win@,
            out@.len() == win0.len(),
            walk(keys, g, step, win0, list_bound(ids, i as int, n)) == Ok::<Seq<u8>, LinkError>(out@),
        decreases list@.len() - i,
    {
        let sect_i = list[i];
        let ghost s = sect_i.0 as int;
        assert(s == ids[i as int]);
        assert(0 <= s < n && keys[s] == g);
        proof {
            lemma_walk_step(ids, keys, g, step, win0, i as int);
            lemma_walk_to_entry(ids, keys, g, step, win0, i + 1);
        }
        let sect = layout.section(sect_i);
        if !sect.output_is_empty() {
            let len = sect.output_len();
            if sect.start() < seg_start || sect.start() - seg_start > out.len() || len > out.len() - (sect.start()
                - seg_start) {
                proof {
                    lemma_walk_err(keys, g, step, win0, s + 1, n);
                }
                return Err(LinkError::OutputOutOfRange);
            }
            let off = sect.start() - seg_start;
            let (obj_i, obj_sect_i) = graph.sect_to_obj_sect(sect_i);
            let background = take_window(&out, off, len);
            let bytes = match emit_section(objs, graph, layout, symbols, obj_i, obj_sect_i, fill_byte, background) {
                Ok(bytes) => bytes,
                Err(e) => {
                    proof {
                        lemma_walk_err(keys, g, step, win0, s + 1, n);
                    }
                    return Err(e);
                },
            };
            put_window(&mut out, off, &bytes);
        }
        i += 1;
    }
    Ok(out)
}

/// Writes the segments of a memory region over `win`, which holds the bytes
/// of the region.
pub fn emit_memory(
    objs: &[Object],
    graph: &LinkGraph,
    layout: &LinkLayout,
    symbols: &SymbolTable,
    mem_i: MemIdx,
    win: Vec<u8>,
) -> (r: Result<Vec<u8>, LinkError>)
    requires
        graph.linked(objs@),
        layout.shaped_for(graph),
        mem_i.0 < layout.mems().len(),
    ensures
        match r {
            Ok(bytes) => bytes@.len() == win@.len() && memory_bytes(
                objs@,
                graph,
                layout,
                symbols,
                mem_i.0 as int,
                win@,
            ) == Ok::<Seq<u8>, LinkError>(bytes@),
            Err(e) => memory_bytes(objs@, graph, layout, symbols, mem_i.0 as int, win@) == Err::<Seq<u8>, LinkError>(
                e,
            ),
        },
{
    let list = graph.mem_to_segs(mem_i);
    let layout_mem = layout.memory(mem_i);
    let mem_start = layout_mem.start();
    let filled = layout_mem.is_filled();
    let ghost keys = positions(graph.spec_seg_to_mem());
    let ghost ids = positions(list@);
    let ghost m = mem_i.0 as int;
    let ghost step = segment_step(objs@, graph, layout, symbols, m);
    let ghost lens = recorded_segment_outputs(layout);
    let ghost n = graph.spec_seg_to_mem().len() as int;
    let ghost win0 = win@;
    let mut out = win;
    let mut given: usize = 0;
    let mut j: usize = 0;
    proof {
        assert(graph.spec_mem_to_segs()[m]@ == list@);
        assert(lists_exactly(ids, keys, m));
        lemma_walk_to_entry(ids, keys, m, step, win0, 0);
    }
    while j < list.len()
        invariant
            graph.linked(objs@),
            layout.shaped_for(graph),
            m == mem_i.0,
            m < layout.mems().len(),
            *layout_mem == layout.mems()[m],
            mem_start == layout.mems()[m].range.spec_min(),
            filled == layout.mems()[m].filled,
            n == graph.spec_seg_to_mem().len(),
            keys == positions(graph.spec_seg_to_mem()),
            ids == positions(list@),
            step == segment_step(objs@, graph, layout, symbols, m),
            lens == recorded_segment_outputs(layout),
            lists_exactly(ids, keys, m),
            j <= list@.len(),
            !filled ==> given == sum_over(ids, lens, j as int),
            win0 == win@,
            out@.len() == win0.len(),
            walk(keys, m, step, win0, list_bound(ids, j as int, n)) == Ok::<Seq<u8>, LinkError>(out@),
        decreases list@.len() - j,
    {
        let seg_i = list[j];
        let ghost g = seg_i.0 as int;
        assert(g == ids[j as int]);
        assert(0 <= g < n && keys[g] == m);
        proof {
            lemma_walk_step(ids, keys, m, step, win0, j as int);
            lemma_walk_to_entry(ids, keys, m, step, win0, j + 1);
        }
        proof {
            lemma_sum_where_is_sum_over(ids, keys, m, lens, j as int);
        }
        let seg = layout.segment(seg_i);
        if !seg.output_is_empty() {
            let len = seg.output_len();
            if filled && seg.start() < mem_start {
                proof {
                    lemma_walk_err(keys, m, step, win0, g + 1, n);
                }
                return Err(LinkError::OutputOutOfRange);
            }
            let off = if filled {
                seg.start() - mem_start
            } else {
                given
            };
            assert(off == segment_offset(graph, layout, m, g));
            if off > out.len() || len > out.len() - off {
                proof {
                    lemma_walk_err(keys, m, step, win0, g + 1, n);
                }
                return Err(LinkError::OutputOutOfRange);
            }
            let (background, fill_byte) = match seg.fill_byte() {
                Some(b) => (fill_bytes(len, b), b),
                None => (take_window(&out, off, len), layout_mem.fill_byte()),
            };
            let bytes = match emit_segment(objs, graph, layout, symbols, seg_i, fill_byte, background) {
                Ok(bytes) => bytes,
                Err(e) => {
                    proof {
                        lemma_walk_err(keys, m, step, win0, g + 1, n);
                    }
                    return Err(e);
                },
            };
            put_window(&mut out, off, &bytes);
            if !filled {
                given = given + len;
            }
        }
        j += 1;
    }
    Ok(out)
}

/// Writes the bytes of an output file: a buffer of the length of the file,
/// with every memory region of the file filled and written in turn.
pub fn emit_file(
    objs: &[Object],
    graph: &LinkGraph,
    layout: &LinkLayout,
    symbols: &SymbolTable,
    file_i: OutFileIdx,
) -> (r: Result<Vec<u8>, LinkError>)
    requires
        graph.linked(objs@),
        layout.shaped_for(graph),
        file_i.0 < layout.files().len(),
    ensures
        match r {
            Ok(bytes) => bytes@.len() == layout.files()[file_i.0 as int].len && file_bytes(
                objs@,
                graph,
                layout,
                symbols,
                file_i.0 as int,
            ) == Ok::<Seq<u8>, LinkError>(bytes@),
            Err(e) => file_bytes(objs@, graph, layout, symbols, file_i.0 as int) == Err::<Seq<u8>, LinkError>(e),
        },
{
    let list = graph.file_to_mems(file_i);
    let ghost keys = positions(graph.spec_mem_to_file());
    let ghost ids = positions(list@);
    let ghost f = file_i.0 as int;
    let ghost step = memory_step(objs@, graph, layout, symbols);
    let ghost n = graph.spec_mem_to_file().len() as int;
    let mut out = fill_bytes(layout.file(file_i).len(), 0);
    let ghost buf0 = out@;
    let mut j: usize = 0;
    proof {
        assert(graph.spec_file_to_mems()[f]@ == list@);
        assert(lists_exactly(ids, keys, f));
        lemma_walk_to_entry(ids, keys, f, step, buf0, 0);
    }
    while j < list.len()
        invariant
            graph.linked(objs@),
            layout.shaped_for(graph),
            f == file_i.0,
            n == graph.spec_mem_to_file().len(),
            keys == positions(graph.spec_mem_to_file()),
            ids == positions(list@),
            step == memory_step(objs@, graph, layout, symbols),
            lists_exactly(ids, keys, f),
            j <= list@.len(),
            f < layout.files().len(),
            buf0 == filled(layout.files()[f].len as int, 0),
            out@.len() == buf0.len(),
            walk(keys, f, step, buf0, list_bound(ids, j as int, n)) == Ok::<Seq<u8>, LinkError>(out@),
        decreases list@.len() - j,
    {
        let mem_i = list[j];
        let ghost m = mem_i.0 as int;
        assert(m == ids[j as int]);
        assert(0 <= m < n && keys[m] == f);
        proof {
            lemma_walk_step(ids, keys, f, step, buf0, j as int);
            lemma_walk_to_entry(ids, keys, f, step, buf0, j + 1);
        }
        let mem = layout.memory(mem_i);
        if !mem.output_is_empty() {
            let off = mem.file_offset();
            let len = mem.output_len();
            if off > out.len() || len > out.len() - off {
                proof {
                    lemma_walk_err(keys, f, step, buf0, m + 1, n);
                }
                return Err(LinkError::OutputOutOfRange);
            }
            let background = fill_bytes(len, mem.fill_byte());
            let bytes = match emit_memory(objs, graph, layout, symbols, mem_i, background) {
                Ok(bytes) => bytes,
                Err(e) => {
                    proof {
                        lemma_walk_err(keys, f, step, buf0, m + 1, n);
                    }
                    return Err(e);
                },
            };
            put_window(&mut out, off, &bytes);
        }
        j += 1;
    }
    Ok(out)
}

} // verus!
