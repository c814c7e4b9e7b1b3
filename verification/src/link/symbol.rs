//! The symbol table: one value for every import of every object.

use vstd::prelude::*;
use indexmap::IndexSet;
use vstd::set_lib::{lemma_int_range, lemma_len_subset, set_int_range};
use crate::error::LinkError;
use crate::expr::{
    Expr, apply_binary, apply_unary, binary_defined, binary_is_defined, binary_value, unary_defined,
    unary_is_defined, unary_value,
};
use crate::index::{ObjIdx, ObjImportIdx, ObjSectIdx};
use crate::link::graph::{LinkGraph, precedes};
use crate::link::layout::LinkLayout;
use crate::names::{name_set_index_of, name_set_insert, name_set_new, names_of};
use crate::object::Object;

verus! {

/// Export `x` of object `o` exists, and both numbers are positions.
pub open spec fn valid_export(objs: Seq<Object>, o: int, x: int) -> bool {
    0 <= o < objs.len() && 0 <= x < objs[o].exports().len() && o <= usize::MAX && x <= usize::MAX
}

/// Import `i` of object `o` exists, and both numbers are positions.
pub open spec fn valid_import(objs: Seq<Object>, o: int, i: int) -> bool {
    0 <= o < objs.len() && 0 <= i < objs[o].imports().len() && o <= usize::MAX && i <= usize::MAX
}

/// The name of export `x` of object `o`.
pub open spec fn export_name(objs: Seq<Object>, o: int, x: int) -> Seq<char> {
    objs[o].export_name_of(x)
}

/// The name of import `i` of object `o`.
pub open spec fn import_name(objs: Seq<Object>, o: int, i: int) -> Seq<char> {
    objs[o].import_name_of(i)
}

/// Some export carries the name.
pub open spec fn has_export(objs: Seq<Object>, name: Seq<char>) -> bool {
    exists|o: int, x: int| valid_export(objs, o, x) && #[trigger] export_name(objs, o, x) == name
}

/// An export that carries the name: the object and the position in its table.
pub open spec fn find_export(objs: Seq<Object>, name: Seq<char>) -> (int, int) {
    choose|p: (int, int)| valid_export(objs, p.0, p.1) && #[trigger] export_name(objs, p.0, p.1) == name
}

/// Export `x` of object `o` carries the name of an export met before it.
pub open spec fn duplicate_export_at(objs: Seq<Object>, o: int, x: int) -> bool {
    exists|o1: int, x1: int|
        valid_export(objs, o1, x1) && precedes(o1, x1, o, x) && #[trigger] export_name(objs, o1, x1)
            == export_name(objs, o, x)
}

/// No export that is met before export `x` of object `o` repeats a name.
pub open spec fn no_duplicate_export_before(objs: Seq<Object>, o: int, x: int) -> bool {
    forall|o1: int, x1: int|
        valid_export(objs, o1, x1) && precedes(o1, x1, o, x) ==> !#[trigger] duplicate_export_at(objs, o1, x1)
}

/// No two exports carry one name.
pub open spec fn exports_unique(objs: Seq<Object>) -> bool {
    forall|o: int, x: int| valid_export(objs, o, x) ==> !#[trigger] duplicate_export_at(objs, o, x)
}

/// `e` reports the first export, in the order of objects and of their tables,
/// that repeats a name.
pub open spec fn first_duplicate_export(objs: Seq<Object>, e: LinkError) -> bool {
    exists|o: int, x: int|
        valid_export(objs, o, x) && #[trigger] duplicate_export_at(objs, o, x) && no_duplicate_export_before(
            objs,
            o,
            x,
        ) && e == (LinkError::DuplicateExport { obj: ObjIdx(o as usize), export: x as usize })
}

/// Where an export stands.
#[derive(Clone, Copy, Debug)]
pub struct ExportDesc {
    pub obj_i: ObjIdx,
    /// The position in the export table of the object.
    pub export_i: usize,
}

/// The exports of all objects, to be found by name.
pub struct Exports {
    names: IndexSet<String>,
    descs: Vec<ExportDesc>,
}

/// Entry `e` of the table is an export, under its own name.
pub open spec fn export_entry_ok(objs: Seq<Object>, names: Seq<Seq<char>>, descs: Seq<ExportDesc>, e: int) -> bool {
    valid_export(objs, descs[e].obj_i.0 as int, descs[e].export_i as int) && names[e] == export_name(
        objs,
        descs[e].obj_i.0 as int,
        descs[e].export_i as int,
    )
}

/// Export `x` of object `o` stands in the table.
pub open spec fn export_listed(descs: Seq<ExportDesc>, o: int, x: int) -> bool {
    exists|e: int| 0 <= e < descs.len() && (#[trigger] descs[e]).obj_i.0 == o && descs[e].export_i == x
}

impl Exports {
    pub closed spec fn names(&self) -> Seq<Seq<char>> {
        names_of(self.names)
    }

    pub closed spec fn descs(&self) -> Seq<ExportDesc> {
        self.descs@
    }

    /// The table holds every export of `objs` once, under its name, and no
    /// name twice.
    pub open spec fn wf_for(&self, objs: Seq<Object>) -> bool {
        &&& self.names().len() == self.descs().len()
        &&& self.names().no_duplicates()
        &&& forall|e: int| 0 <= e < self.descs().len() ==> #[trigger] export_entry_ok(objs, self.names(), self.descs(), e)
        &&& forall|o: int, x: int| valid_export(objs, o, x) ==> #[trigger] export_listed(self.descs(), o, x)
    }

    /// The position of the export of that name.
    pub fn get_index_of(&self, name: &str) -> (r: Option<usize>)
        ensures
            match r {
                Some(e) => e < self.names().len() && self.names()[e as int] == name@,
                None => !self.names().contains(name@),
            },
    {
        name_set_index_of(&self.names, name)
    }

    pub fn get(&self, e: usize) -> (r: ExportDesc)
        requires
            e < self.descs().len(),
        ensures
            r == self.descs()[e as int],
    {
        self.descs[e]
    }
}

/// Collects the exports of all objects, object by object, each table from its
/// start. The link ends at the first export whose name was met before.
pub fn build_exports(objs: &[Object]) -> (r: Result<Exports, LinkError>)
    requires
        forall|o: int| 0 <= o < objs@.len() ==> (#[trigger] objs@[o]).wf(),
    ensures
        match r {
            Ok(t) => t.wf_for(objs@) && exports_unique(objs@),
            Err(e) => first_duplicate_export(objs@, e),
        },
{
    let mut names = name_set_new();
    let mut descs: Vec<ExportDesc> = Vec::new();
    let mut o: usize = 0;
    while o < objs.len()
        invariant
            forall|o1: int| 0 <= o1 < objs@.len() ==> (#[trigger] objs@[o1]).wf(),
            o <= objs@.len(),
            names_of(names).len() == descs@.len(),
            names_of(names).no_duplicates(),
            forall|e: int| 0 <= e < descs@.len() ==> #[trigger] export_entry_ok(objs@, names_of(names), descs@, e),
            forall|e: int| 0 <= e < descs@.len() ==> (#[trigger] descs@[e]).obj_i.0 < o,
            forall|o1: int, x1: int|
                valid_export(objs@, o1, x1) && o1 < o ==> #[trigger] export_listed(descs@, o1, x1),
            no_duplicate_export_before(objs@, o as int, 0),
        decreases objs@.len() - o,
    {
        let obj = &objs[o];
        let mut x: usize = 0;
        while x < obj.export_count()
            invariant
                forall|o1: int| 0 <= o1 < objs@.len() ==> (#[trigger] objs@[o1]).wf(),
                o < objs@.len(),
                *obj == objs@[o as int],
                x <= obj.exports().len(),
                names_of(names).len() == descs@.len(),
                names_of(names).no_duplicates(),
                forall|e: int|
                    0 <= e < descs@.len() ==> #[trigger] export_entry_ok(objs@, names_of(names), descs@, e),
                forall|e: int|
                    0 <= e < descs@.len() ==> precedes(
                        (#[trigger] descs@[e]).obj_i.0 as int,
                        descs@[e].export_i as int,
                        o as int,
                        x as int,
                    ),
                forall|o1: int, x1: int|
                    valid_export(objs@, o1, x1) && precedes(o1, x1, o as int, x as int) ==> #[trigger] export_listed(
                        descs@,
                        o1,
                        x1,
                    ),
                no_duplicate_export_before(objs@, o as int, x as int),
            decreases obj.exports().len() - x,
        {
            let name = obj.query_export_name(x);
            let ghost old_names = names_of(names);
            let ghost old_descs = descs@;
            assert(valid_export(objs@, o as int, x as int));
            let (idx, fresh) = name_set_insert(&mut names, name);
            if !fresh {
                proof {
                    assert(export_entry_ok(objs@, old_names, old_descs, idx as int));
                    let o1 = old_descs[idx as int].obj_i.0 as int;
                    let x1 = old_descs[idx as int].export_i as int;
                    assert(export_name(objs@, o1, x1) == export_name(objs@, o as int, x as int));
                    assert(duplicate_export_at(objs@, o as int, x as int));
                }
                return Err(LinkError::DuplicateExport { obj: ObjIdx::new(o), export: x });
            }
            descs.push(ExportDesc { obj_i: ObjIdx::new(o), export_i: x });
            proof {
                assert forall|e: int| 0 <= e < descs@.len() implies #[trigger] export_entry_ok(
                    objs@,
                    names_of(names),
                    descs@,
                    e,
                ) by {
                    if e < old_descs.len() {
                        assert(export_entry_ok(objs@, old_names, old_descs, e));
                    }
                }
                assert forall|i: int, j: int|
                    0 <= i < names_of(names).len() && 0 <= j < names_of(names).len() && i != j implies names_of(
                    names,
                )[i] != names_of(names)[j] by {
                    if i < old_names.len() && j < old_names.len() {
                    } else if i < old_names.len() {
                        assert(old_names.contains(old_names[i]));
                    } else if j < old_names.len() {
                        assert(old_names.contains(old_names[j]));
                    }
                }
                if duplicate_export_at(objs@, o as int, x as int) {
                    let (o1, x1) = choose|o1: int, x1: int|
                        valid_export(objs@, o1, x1) && precedes(o1, x1, o as int, x as int) && #[trigger] export_name(
                            objs@,
                            o1,
                            x1,
                        ) == export_name(objs@, o as int, x as int);
                    assert(export_listed(old_descs, o1, x1));
                    let e = choose|e: int|
                        0 <= e < old_descs.len() && (#[trigger] old_descs[e]).obj_i.0 == o1 && old_descs[e].export_i
                            == x1;
                    assert(export_entry_ok(objs@, old_names, old_descs, e));
                    assert(old_names.contains(old_names[e]));
                }
                assert forall|o1: int, x1: int|
                    valid_export(objs@, o1, x1) && precedes(o1, x1, o as int, x + 1) implies #[trigger] export_listed(
                    descs@,
                    o1,
                    x1,
                ) by {
                    if o1 == o && x1 == x {
                        assert(descs@[old_descs.len() as int].obj_i.0 == o1);
                    } else {
                        assert(export_listed(old_descs, o1, x1));
                        let e = choose|e: int|
                            0 <= e < old_descs.len() && (#[trigger] old_descs[e]).obj_i.0 == o1
                                && old_descs[e].export_i == x1;
                        assert(descs@[e] == old_descs[e]);
                    }
                }
                assert forall|o1: int, x1: int|
                    valid_export(objs@, o1, x1) && precedes(o1, x1, o as int, x + 1) implies !#[trigger] duplicate_export_at(
                    objs@,
                    o1,
                    x1,
                ) by {
                    if !(o1 == o && x1 == x) {
                        assert(precedes(o1, x1, o as int, x as int));
                    }
                }
            }
            x += 1;
        }
        proof {
            assert forall|o1: int, x1: int|
                valid_export(objs@, o1, x1) && precedes(o1, x1, o + 1, 0) implies !#[trigger] duplicate_export_at(
                objs@,
                o1,
                x1,
            ) by {
                assert(precedes(o1, x1, o as int, x as int));
            }
            assert forall|o1: int, x1: int| valid_export(objs@, o1, x1) && o1 < o + 1 implies #[trigger] export_listed(
                descs@,
                o1,
                x1,
            ) by {
                assert(precedes(o1, x1, o as int, x as int));
            }
        }
        o += 1;
    }
    proof {
        assert forall|o1: int, x1: int| valid_export(objs@, o1, x1) implies !#[trigger] duplicate_export_at(
            objs@,
            o1,
            x1,
        ) by {
            assert(precedes(o1, x1, o as int, 0));
        }
    }
    Ok(Exports { names, descs })
}

/// The number of imports of the objects below `o`.
pub open spec fn imports_before(objs: Seq<Object>, o: int) -> nat
    decreases o,
{
    if o <= 0 {
        0
    } else {
        imports_before(objs, o - 1) + objs[o - 1].imports().len()
    }
}

/// The number of imports of all objects.
pub open spec fn total_imports(objs: Seq<Object>) -> nat {
    imports_before(objs, objs.len() as int)
}

/// The depth of an expression tree.
pub open spec fn expr_height(expr: Expr) -> nat
    decreases expr,
{
    match expr {
        Expr::Unary(_, e) => 1 + expr_height(*e),
        Expr::Binary(_, l, r) => 1 + if expr_height(*l) >= expr_height(*r) {
            expr_height(*l)
        } else {
            expr_height(*r)
        },
        _ => 0,
    }
}

/// The address of section `k` of object `owner`, if the section was placed.
pub open spec fn section_address(graph: &LinkGraph, layout: &LinkLayout, owner: int, k: int) -> Result<
    i64,
    LinkError,
> {
    let rows = graph.spec_obj_sect_to_sect();
    let unknown = Err(LinkError::UnknownSection { obj: ObjIdx(owner as usize), sect: ObjSectIdx(k as usize) });
    if 0 <= owner < rows.len() && 0 <= k < rows[owner]@.len() {
        match rows[owner]@[k] {
            Some(s) => if s.0 < layout.sects().len() {
                Ok(layout.sects()[s.0 as int].start as i64)
            } else {
                unknown
            },
            None => unknown,
        }
    } else {
        unknown
    }
}

/// The value of an expression of object `owner` that stands in an export of
/// address size `addr_size`, while the imports in `path` are being resolved.
///
/// A literal is its own value. A symbol is the value of the import it names,
/// which must exist and declare the address size of the export. A section is
/// its address. An operator is applied to the values of its operands, the
/// left one first; the first error met is the result.
pub open spec fn expr_value(
    objs: Seq<Object>,
    graph: &LinkGraph,
    layout: &LinkLayout,
    owner: int,
    addr_size: u8,
    expr: Expr,
    path: Seq<(int, int)>,
) -> Result<i64, LinkError>
    decreases total_imports(objs) - path.len(), expr_height(expr) + 1,
{
    match expr {
        Expr::Null => Err(LinkError::NullExpr),
        Expr::Literal { value } => Ok(value),
        Expr::Symbol { import_idx } => if import_idx >= objs[owner].imports().len() {
            Err(LinkError::UnknownImport { obj: ObjIdx(owner as usize), import: ObjImportIdx(import_idx as usize) })
        } else if objs[owner].imports()[import_idx as int].addr_size != addr_size {
            Err(
                LinkError::AddrSizeMismatch {
                    obj: ObjIdx(owner as usize),
                    import: ObjImportIdx(import_idx as usize),
                },
            )
        } else {
            import_value(objs, graph, layout, owner, import_idx as int, path)
        },
        Expr::Section { section_idx } => section_address(graph, layout, owner, section_idx as int),
        Expr::Unary(op, e) => match expr_value(objs, graph, layout, owner, addr_size, *e, path) {
            Err(err) => Err(err),
            Ok(v) => if unary_defined(op) {
                Ok(unary_value(op, v))
            } else {
                Err(LinkError::UndefinedOperation)
            },
        },
        Expr::Binary(op, l, r) => match expr_value(objs, graph, layout, owner, addr_size, *l, path) {
            Err(err) => Err(err),
            Ok(a) => match expr_value(objs, graph, layout, owner, addr_size, *r, path) {
                Err(err) => Err(err),
                Ok(b) => if binary_defined(op, b) {
                    Ok(binary_value(op, a, b))
                } else {
                    Err(LinkError::UndefinedOperation)
                },
            },
        },
    }
}

/// The value of import `i` of object `o`, while the imports in `path` are
/// being resolved: the value of the expression of the export that carries
/// its name, which must declare the same address size. An import that is
/// being resolved already depends on itself and has no value.
pub open spec fn import_value(
    objs: Seq<Object>,
    graph: &LinkGraph,
    layout: &LinkLayout,
    o: int,
    i: int,
    path: Seq<(int, int)>,
) -> Result<i64, LinkError>
    decreases total_imports(objs) - path.len(), 0nat,
{
    if path.contains((o, i)) || path.len() >= total_imports(objs) {
        Err(LinkError::CircularReference { obj: ObjIdx(o as usize), import: ObjImportIdx(i as usize) })
    } else {
        let (eo, ex) = find_export(objs, import_name(objs, o, i));
        let export = objs[eo].exports()[ex];
        if objs[o].imports()[i].addr_size != export.addr_size {
            Err(LinkError::AddrSizeMismatch { obj: ObjIdx(o as usize), import: ObjImportIdx(i as usize) })
        } else {
            expr_value(objs, graph, layout, eo, export.addr_size, export.expr, path.push((o, i)))
        }
    }
}

/// The imports of `path` exist and none stands twice.
pub open spec fn path_valid(objs: Seq<Object>, path: Seq<(int, int)>) -> bool {
    &&& path.no_duplicates()
    &&& forall|k: int| 0 <= k < path.len() ==> valid_import(objs, (#[trigger] path[k]).0, path[k].1)
}

proof fn lemma_imports_before_monotone(objs: Seq<Object>, a: int, b: int)
    requires
        0 <= a <= b,
    ensures
        imports_before(objs, a) <= imports_before(objs, b),
    decreases b - a,
{
    if a < b {
        lemma_imports_before_monotone(objs, a, b - 1);
    }
}

/// The number of an import when all imports are counted through.
spec fn flat(objs: Seq<Object>, slot: (int, int)) -> int {
    imports_before(objs, slot.0) + slot.1
}

proof fn lemma_flat_injective(objs: Seq<Object>, a: (int, int), b: (int, int))
    requires
        valid_import(objs, a.0, a.1),
        valid_import(objs, b.0, b.1),
        a != b,
    ensures
        flat(objs, a) != flat(objs, b),
        0 <= flat(objs, a) < total_imports(objs),
{
    lemma_imports_before_monotone(objs, a.0 + 1, objs.len() as int);
    if a.0 < b.0 {
        lemma_imports_before_monotone(objs, a.0 + 1, b.0);
    } else if b.0 < a.0 {
        lemma_imports_before_monotone(objs, b.0 + 1, a.0);
    }
}

/// A path that an import can still join is shorter than the number of all
/// imports.
pub proof fn lemma_path_bound(objs: Seq<Object>, path: Seq<(int, int)>, q: (int, int))
    requires
        path_valid(objs, path),
        valid_import(objs, q.0, q.1),
        !path.contains(q),
    ensures
        path.len() < total_imports(objs),
{
    let longer = path.push(q);
    let numbers = Seq::new(longer.len(), |k: int| flat(objs, longer[k]));
    assert forall|i: int, j: int| 0 <= i < numbers.len() && 0 <= j < numbers.len() && i != j implies numbers[i]
        != numbers[j] by {
        assert(longer[i] != longer[j]) by {
            if i < path.len() && j < path.len() {
            } else if i < path.len() {
                assert(path.contains(path[i]));
            } else {
                assert(path.contains(path[j]));
            }
        }
        assert(valid_import(objs, longer[i].0, longer[i].1));
        assert(valid_import(objs, longer[j].0, longer[j].1));
        lemma_flat_injective(objs, longer[i], longer[j]);
    }
    numbers.unique_seq_to_set();
    let total = total_imports(objs) as int;
    lemma_int_range(0, total);
    assert forall|x: int| numbers.to_set().contains(x) implies set_int_range(0, total).contains(x) by {
        let k = choose|k: int| 0 <= k < numbers.len() && numbers[k] == x;
        assert(valid_import(objs, longer[k].0, longer[k].1));
        lemma_imports_before_monotone(objs, longer[k].0 + 1, objs.len() as int);
    }
    lemma_len_subset(numbers.to_set(), set_int_range(0, total));
}

/// Where no two exports carry one name, the export that carries a name is
/// the only one.
pub proof fn lemma_find_export(objs: Seq<Object>, name: Seq<char>, o: int, x: int)
    requires
        exports_unique(objs),
        valid_export(objs, o, x),
        export_name(objs, o, x) == name,
    ensures
        find_export(objs, name) == (o, x),
{
    let p = find_export(objs, name);
    let q = (o, x);
    assert(valid_export(objs, q.0, q.1) && export_name(objs, q.0, q.1) == name);
    assert(valid_export(objs, p.0, p.1) && export_name(objs, p.0, p.1) == name);
    if p != q {
        if precedes(p.0, p.1, o, x) {
            assert(duplicate_export_at(objs, o, x));
        } else {
            assert(precedes(o, x, p.0, p.1));
            assert(duplicate_export_at(objs, p.0, p.1));
        }
    }
}

/// How far the resolution of an import has come.
#[derive(Clone, Copy, Debug)]
enum ResolveState {
    /// The value is known.
    Done(i64),
    /// The value is being computed.
    Resolving,
    /// Nothing was done yet. The export of that position carries the name.
    Unresolved { export_i: usize },
}

#[derive(Clone, Copy, Debug)]
struct ResolveEntry {
    addr_size: u8,
    state: ResolveState,
}

spec fn table_shape(objs: Seq<Object>, table: Seq<Vec<ResolveEntry>>) -> bool {
    &&& table.len() == objs.len()
    &&& forall|o: int| 0 <= o < objs.len() ==> (#[trigger] table[o])@.len() == objs[o].imports().len()
}

/// A path of imports that exist, none twice and none resolved.
spec fn path_ok(objs: Seq<Object>, table: Seq<Vec<ResolveEntry>>, p: Seq<(int, int)>) -> bool {
    &&& path_valid(objs, p)
    &&& forall|k: int| 0 <= k < p.len() ==> !((#[trigger] table[p[k].0])@[p[k].1].state is Done)
}

/// Whatever is being resolved, the import has the value `v`.
spec fn done_prop(
    objs: Seq<Object>,
    graph: &LinkGraph,
    layout: &LinkLayout,
    table: Seq<Vec<ResolveEntry>>,
    o: int,
    i: int,
    v: i64,
) -> bool {
    forall|p: Seq<(int, int)>| #[trigger]
        path_ok(objs, table, p) ==> import_value(objs, graph, layout, o, i, p) == Ok::<i64, LinkError>(v)
}

spec fn entry_ok(
    objs: Seq<Object>,
    graph: &LinkGraph,
    layout: &LinkLayout,
    exports: &Exports,
    table: Seq<Vec<ResolveEntry>>,
    path: Seq<(int, int)>,
    o: int,
    i: int,
) -> bool {
    let entry = table[o]@[i];
    &&& entry.addr_size == objs[o].imports()[i].addr_size
    &&& match entry.state {
        ResolveState::Done(v) => !path.contains((o, i)) && done_prop(objs, graph, layout, table, o, i, v),
        ResolveState::Resolving => path.contains((o, i)),
        ResolveState::Unresolved { export_i } => !path.contains((o, i)) && export_i < exports.descs().len()
            && exports.names()[export_i as int] == import_name(objs, o, i),
    }
}

spec fn table_inv(
    objs: Seq<Object>,
    graph: &LinkGraph,
    layout: &LinkLayout,
    exports: &Exports,
    table: Seq<Vec<ResolveEntry>>,
    path: Seq<(int, int)>,
) -> bool {
    &&& table_shape(objs, table)
    &&& path_valid(objs, path)
    &&& forall|o: int, i: int|
        valid_import(objs, o, i) ==> #[trigger] entry_ok(objs, graph, layout, exports, table, path, o, i)
}

/// The entry of an import for which nothing was done yet.
spec fn fresh_entry_ok(
    objs: Seq<Object>,
    graph: &LinkGraph,
    layout: &LinkLayout,
    exports: &Exports,
    table: Seq<Vec<ResolveEntry>>,
    o: int,
    i: int,
) -> bool {
    table[o]@[i].state is Unresolved && entry_ok(
        objs,
        graph,
        layout,
        exports,
        table,
        Seq::<(int, int)>::empty(),
        o,
        i,
    )
}

/// What was resolved stays resolved, with its value.
spec fn done_grows(objs: Seq<Object>, t1: Seq<Vec<ResolveEntry>>, t2: Seq<Vec<ResolveEntry>>) -> bool {
    forall|o: int, i: int|
        valid_import(objs, o, i) && (#[trigger] t1[o]@[i]).state is Done ==> t2[o]@[i] == t1[o]@[i]
}

proof fn lemma_path_ok_back(
    objs: Seq<Object>,
    t1: Seq<Vec<ResolveEntry>>,
    t2: Seq<Vec<ResolveEntry>>,
    p: Seq<(int, int)>,
)
    requires
        done_grows(objs, t1, t2),
        path_ok(objs, t2, p),
    ensures
        path_ok(objs, t1, p),
{
    assert forall|k: int| 0 <= k < p.len() implies !((#[trigger] t1[p[k].0])@[p[k].1].state is Done) by {
        assert(valid_import(objs, p[k].0, p[k].1));
        if t1[p[k].0]@[p[k].1].state is Done {
            assert(t2[p[k].0]@[p[k].1] == t1[p[k].0]@[p[k].1]);
        }
    }
}

proof fn lemma_done_kept(
    objs: Seq<Object>,
    graph: &LinkGraph,
    layout: &LinkLayout,
    t1: Seq<Vec<ResolveEntry>>,
    t2: Seq<Vec<ResolveEntry>>,
    o: int,
    i: int,
    v: i64,
)
    requires
        done_grows(objs, t1, t2),
        done_prop(objs, graph, layout, t1, o, i, v),
    ensures
        done_prop(objs, graph, layout, t2, o, i, v),
{
    assert forall|p: Seq<(int, int)>| #[trigger] path_ok(objs, t2, p) implies import_value(
        objs,
        graph,
        layout,
        o,
        i,
        p,
    ) == Ok::<i64, LinkError>(v) by {
        lemma_path_ok_back(objs, t1, t2, p);
    }
}

/// The path that is being resolved is a path of imports not resolved.
proof fn lemma_own_path_ok(
    objs: Seq<Object>,
    graph: &LinkGraph,
    layout: &LinkLayout,
    exports: &Exports,
    table: Seq<Vec<ResolveEntry>>,
    path: Seq<(int, int)>,
)
    requires
        table_inv(objs, graph, layout, exports, table, path),
    ensures
        path_ok(objs, table, path),
{
    assert forall|k: int| 0 <= k < path.len() implies !((#[trigger] table[path[k].0])@[path[k].1].state is Done) by {
        assert(valid_import(objs, path[k].0, path[k].1));
        assert(entry_ok(objs, graph, layout, exports, table, path, path[k].0, path[k].1));
        assert(path.contains(path[k]));
    }
}

/// What the resolver works on fits together: the objects are well formed,
/// and the export table is theirs.
spec fn env_ok(objs: Seq<Object>, exports: &Exports) -> bool {
    &&& forall|o: int| 0 <= o < objs.len() ==> (#[trigger] objs[o]).wf()
    &&& exports.wf_for(objs)
    &&& exports_unique(objs)
}

/// The address of a section of an object, for an expression that names it.
fn resolve_section(graph: &LinkGraph, layout: &LinkLayout, owner: ObjIdx, section_idx: u32) -> (r: Result<
    i64,
    LinkError,
>)
    ensures
        r == section_address(graph, layout, owner.0 as int, section_idx as int),
{
    let obj_sect_i = ObjSectIdx::new(section_idx as usize);
    match graph.obj_sect_to_sect(owner, obj_sect_i) {
        Some(sect_i) => {
            if sect_i.0 < layout.section_count() {
                Ok(layout.section(sect_i).start() as i64)
            } else {
                Err(LinkError::UnknownSection { obj: owner, sect: obj_sect_i })
            }
        },
        None => Err(LinkError::UnknownSection { obj: owner, sect: obj_sect_i }),
    }
}

/// Resolves an import and remembers its value. An import that is resolved
/// gives its value at once; one that is being resolved depends on itself.
fn resolve_import(
    objs: &[Object],
    graph: &LinkGraph,
    layout: &LinkLayout,
    exports: &Exports,
    table: &mut Vec<Vec<ResolveEntry>>,
    obj_i: ObjIdx,
    imp_i: ObjImportIdx,
    path: Ghost<Seq<(int, int)>>,
) -> (r: Result<i64, LinkError>)
    requires
        env_ok(objs@, exports),
        table_inv(objs@, graph, layout, exports, old(table)@, path@),
        valid_import(objs@, obj_i.0 as int, imp_i.0 as int),
    ensures
        match r {
            Ok(v) => {
                &&& table_inv(objs@, graph, layout, exports, final(table)@, path@)
                &&& done_grows(objs@, old(table)@, final(table)@)
                &&& final(table)@[obj_i.0 as int]@[imp_i.0 as int].state == ResolveState::Done(v)
            },
            Err(e) => import_value(objs@, graph, layout, obj_i.0 as int, imp_i.0 as int, path@) == Err::<
                i64,
                LinkError,
            >(e),
        },
    decreases total_imports(objs@) - path@.len(), 0nat,
{
    let ghost o = obj_i.0 as int;
    let ghost i = imp_i.0 as int;
    let ghost q = (o, i);
    let ghost t0 = table@;
    assert(entry_ok(objs@, graph, layout, exports, t0, path@, o, i));
    let entry = table[obj_i.0][imp_i.0];
    match entry.state {
        ResolveState::Done(v) => Ok(v),
        ResolveState::Resolving => Err(LinkError::CircularReference { obj: obj_i, import: imp_i }),
        ResolveState::Unresolved { export_i } => {
            proof {
                lemma_path_bound(objs@, path@, q);
            }
            let desc = exports.get(export_i);
            assert(export_entry_ok(objs@, exports.names(), exports.descs(), export_i as int));
            let export = objs[desc.obj_i.0].export(desc.export_i);
            proof {
                lemma_find_export(objs@, import_name(objs@, o, i), desc.obj_i.0 as int, desc.export_i as int);
            }
            if entry.addr_size != export.addr_size {
                return Err(LinkError::AddrSizeMismatch { obj: obj_i, import: imp_i });
            }
            table[obj_i.0][imp_i.0] = ResolveEntry { addr_size: entry.addr_size, state: ResolveState::Resolving };
            let ghost t1 = table@;
            let ghost path1 = path@.push(q);
            proof {
                assert(done_grows(objs@, t0, t1));
                assert(path_valid(objs@, path1)) by {
                    assert forall|a: int, b: int| 0 <= a < path1.len() && 0 <= b < path1.len() && a != b implies path1[a]
                        != path1[b] by {
                        if a < path@.len() && b < path@.len() {
                        } else if a < path@.len() {
                            assert(path@.contains(path@[a]));
                        } else {
                            assert(path@.contains(path@[b]));
                        }
                    }
                }
                assert forall|o1: int, i1: int| valid_import(objs@, o1, i1) implies #[trigger] entry_ok(
                    objs@,
                    graph,
                    layout,
                    exports,
                    t1,
                    path1,
                    o1,
                    i1,
                ) by {
                    assert(entry_ok(objs@, graph, layout, exports, t0, path@, o1, i1));
                    if (o1, i1) == q {
                        assert(path1[path@.len() as int] == q);
                    } else {
                        assert(t1[o1]@[i1] == t0[o1]@[i1]);
                        match t0[o1]@[i1].state {
                            ResolveState::Done(v1) => {
                                lemma_done_kept(objs@, graph, layout, t0, t1, o1, i1, v1);
                            },
                            ResolveState::Resolving => {
                                let k = choose|k: int| 0 <= k < path@.len() && path@[k] == (o1, i1);
                                assert(path1[k] == (o1, i1));
                            },
                            ResolveState::Unresolved { export_i } => {},
                        }
                    }
                }
            }
            let v = match resolve_expr(
                objs,
                graph,
                layout,
                exports,
                table,
                desc.obj_i,
                export.addr_size,
                &export.expr,
                Ghost(path1),
            ) {
                Ok(v) => v,
                Err(e) => {
                    return Err(e);
                },
            };
            let ghost t2 = table@;
            assert(entry_ok(objs@, graph, layout, exports, t2, path1, o, i));
            table[obj_i.0][imp_i.0] = ResolveEntry { addr_size: entry.addr_size, state: ResolveState::Done(v) };
            let ghost t3 = table@;
            proof {
                assert(path1[path@.len() as int] == q);
                assert(!(t2[o]@[i].state is Done));
                assert(done_grows(objs@, t2, t3));
                assert forall|p: Seq<(int, int)>| #[trigger] path_ok(objs@, t3, p) implies import_value(
                    objs@,
                    graph,
                    layout,
                    o,
                    i,
                    p,
                ) == Ok::<i64, LinkError>(v) by {
                    if p.contains(q) {
                        let k = choose|k: int| 0 <= k < p.len() && p[k] == q;
                        assert(t3[p[k].0]@[p[k].1].state is Done);
                    }
                    lemma_path_bound(objs@, p, q);
                    let longer = p.push(q);
                    assert(path_ok(objs@, t2, longer)) by {
                        assert forall|a: int, b: int|
                            0 <= a < longer.len() && 0 <= b < longer.len() && a != b implies longer[a]
                            != longer[b] by {
                            if a < p.len() && b < p.len() {
                            } else if a < p.len() {
                                assert(p.contains(p[a]));
                            } else {
                                assert(p.contains(p[b]));
                            }
                        }
                        assert forall|k: int| 0 <= k < longer.len() implies !((#[trigger] t2[longer[k].0])@[longer[k].1].state is Done) by {
                            if k < p.len() {
                                assert(p.contains(p[k]));
                                assert(!(t3[p[k].0]@[p[k].1].state is Done));
                                assert(valid_import(objs@, p[k].0, p[k].1));
                            }
                        }
                    }
                }
                assert forall|o1: int, i1: int| valid_import(objs@, o1, i1) implies #[trigger] entry_ok(
                    objs@,
                    graph,
                    layout,
                    exports,
                    t3,
                    path@,
                    o1,
                    i1,
                ) by {
                    assert(entry_ok(objs@, graph, layout, exports, t2, path1, o1, i1));
                    if (o1, i1) == q {
                    } else {
                        assert(t3[o1]@[i1] == t2[o1]@[i1]);
                        match t2[o1]@[i1].state {
                            ResolveState::Done(v1) => {
                                lemma_done_kept(objs@, graph, layout, t2, t3, o1, i1, v1);
                                if path@.contains((o1, i1)) {
                                    let k = choose|k: int| 0 <= k < path@.len() && path@[k] == (o1, i1);
                                    assert(path1[k] == (o1, i1));
                                }
                            },
                            ResolveState::Resolving => {
                                let k = choose|k: int| 0 <= k < path1.len() && path1[k] == (o1, i1);
                                assert(path@[k] == (o1, i1));
                            },
                            ResolveState::Unresolved { export_i } => {
                                if path@.contains((o1, i1)) {
                                    let k = choose|k: int| 0 <= k < path@.len() && path@[k] == (o1, i1);
                                    assert(path1[k] == (o1, i1));
                                }
                            },
                        }
                    }
                }
                assert forall|o1: int, i1: int|
                    valid_import(objs@, o1, i1) && (#[trigger] t0[o1]@[i1]).state is Done implies t3[o1]@[i1]
                    == t0[o1]@[i1] by {
                    assert(t1[o1]@[i1] == t0[o1]@[i1]);
                    assert(t2[o1]@[i1] == t1[o1]@[i1]);
                }
            }
            Ok(v)
        },
    }
}

/// Evaluates an expression of an object, resolving the imports it names.
fn resolve_expr(
    objs: &[Object],
    graph: &LinkGraph,
    layout: &LinkLayout,
    exports: &Exports,
    table: &mut Vec<Vec<ResolveEntry>>,
    owner: ObjIdx,
    addr_size: u8,
    expr: &Expr,
    path: Ghost<Seq<(int, int)>>,
) -> (r: Result<i64, LinkError>)
    requires
        env_ok(objs@, exports),
        table_inv(objs@, graph, layout, exports, old(table)@, path@),
        owner.0 < objs@.len(),
    ensures
        match r {
            Ok(v) => {
                &&& table_inv(objs@, graph, layout, exports, final(table)@, path@)
                &&& done_grows(objs@, old(table)@, final(table)@)
                &&& forall|p: Seq<(int, int)>| #[trigger]
                    path_ok(objs@, final(table)@, p) ==> expr_value(
                        objs@,
                        graph,
                        layout,
                        owner.0 as int,
                        addr_size,
                        *expr,
                        p,
                    ) == Ok::<i64, LinkError>(v)
            },
            Err(e) => expr_value(objs@, graph, layout, owner.0 as int, addr_size, *expr, path@) == Err::<
                i64,
                LinkError,
            >(e),
        },
    decreases total_imports(objs@) - path@.len(), expr_height(*expr) + 1,
{
    let ghost t0 = table@;
    match expr {
        Expr::Null => Err(LinkError::NullExpr),
        Expr::Literal { value } => Ok(*value),
        Expr::Symbol { import_idx } => {
            let idx = *import_idx as usize;
            let imp_i = ObjImportIdx::new(idx);
            if idx >= objs[owner.0].import_count() {
                return Err(LinkError::UnknownImport { obj: owner, import: imp_i });
            }
            assert(valid_import(objs@, owner.0 as int, idx as int));
            assert(entry_ok(objs@, graph, layout, exports, t0, path@, owner.0 as int, idx as int));
            if table[owner.0][idx].addr_size != addr_size {
                return Err(LinkError::AddrSizeMismatch { obj: owner, import: imp_i });
            }
            let v = match resolve_import(objs, graph, layout, exports, table, owner, imp_i, path) {
                Ok(v) => v,
                Err(e) => {
                    return Err(e);
                },
            };
            proof {
                assert(entry_ok(objs@, graph, layout, exports, table@, path@, owner.0 as int, idx as int));
            }
            Ok(v)
        },
        Expr::Section { section_idx } => resolve_section(graph, layout, owner, *section_idx),
        Expr::Unary(op, e) => {
            let v = match resolve_expr(objs, graph, layout, exports, table, owner, addr_size, e, path) {
                Ok(v) => v,
                Err(err) => {
                    return Err(err);
                },
            };
            proof {
                lemma_own_path_ok(objs@, graph, layout, exports, table@, path@);
            }
            if !unary_is_defined(*op) {
                return Err(LinkError::UndefinedOperation);
            }
            Ok(apply_unary(*op, v))
        },
        Expr::Binary(op, l, r) => {
            let a = match resolve_expr(objs, graph, layout, exports, table, owner, addr_size, l, path) {
                Ok(v) => v,
                Err(err) => {
                    return Err(err);
                },
            };
            let ghost t1 = table@;
            proof {
                lemma_own_path_ok(objs@, graph, layout, exports, t1, path@);
            }
            let b = match resolve_expr(objs, graph, layout, exports, table, owner, addr_size, r, path) {
                Ok(v) => v,
                Err(err) => {
                    return Err(err);
                },
            };
            proof {
                lemma_own_path_ok(objs@, graph, layout, exports, table@, path@);
                assert forall|p: Seq<(int, int)>| #[trigger] path_ok(objs@, table@, p) implies expr_value(
                    objs@,
                    graph,
                    layout,
                    owner.0 as int,
                    addr_size,
                    **l,
                    p,
                ) == Ok::<i64, LinkError>(a) by {
                    lemma_path_ok_back(objs@, t1, table@, p);
                }
                assert forall|o1: int, i1: int|
                    valid_import(objs@, o1, i1) && (#[trigger] t0[o1]@[i1]).state is Done implies table@[o1]@[i1]
                    == t0[o1]@[i1] by {
                    assert(t1[o1]@[i1] == t0[o1]@[i1]);
                }
            }
            if !binary_is_defined(*op, b) {
                return Err(LinkError::UndefinedOperation);
            }
            Ok(apply_binary(*op, a, b))
        },
    }
}

/// Every import carries the name of some export.
pub open spec fn all_imports_bound(objs: Seq<Object>) -> bool {
    forall|o: int, i: int| valid_import(objs, o, i) ==> has_export(objs, #[trigger] import_name(objs, o, i))
}

/// Every import that is met before import `i` of object `o` carries the name
/// of some export.
pub open spec fn imports_bound_before(objs: Seq<Object>, o: int, i: int) -> bool {
    forall|o1: int, i1: int|
        valid_import(objs, o1, i1) && precedes(o1, i1, o, i) ==> has_export(objs, #[trigger] import_name(objs, o1, i1))
}

/// `e` reports the first import, in the order of objects and of their tables,
/// whose name no export carries.
pub open spec fn first_unresolved_import(objs: Seq<Object>, e: LinkError) -> bool {
    exists|o: int, i: int|
        valid_import(objs, o, i) && !has_export(objs, #[trigger] import_name(objs, o, i)) && imports_bound_before(
            objs,
            o,
            i,
        ) && e == (LinkError::UnresolvedImport { obj: ObjIdx(o as usize), import: ObjImportIdx(i as usize) })
}

/// The value of import `i` of object `o` when nothing else is being resolved.
pub open spec fn symbol_value(objs: Seq<Object>, graph: &LinkGraph, layout: &LinkLayout, o: int, i: int) -> Result<
    i64,
    LinkError,
> {
    import_value(objs, graph, layout, o, i, Seq::<(int, int)>::empty())
}

/// Every import that is met before import `i` of object `o` has a value.
pub open spec fn symbols_valued_before(
    objs: Seq<Object>,
    graph: &LinkGraph,
    layout: &LinkLayout,
    o: int,
    i: int,
) -> bool {
    forall|o1: int, i1: int|
        valid_import(objs, o1, i1) && precedes(o1, i1, o, i) ==> (#[trigger] symbol_value(
            objs,
            graph,
            layout,
            o1,
            i1,
        )) is Ok
}

/// `e` is the error of the first import, in the order of objects and of their
/// tables, that has no value.
pub open spec fn first_resolution_error(
    objs: Seq<Object>,
    graph: &LinkGraph,
    layout: &LinkLayout,
    e: LinkError,
) -> bool {
    exists|o: int, i: int|
        valid_import(objs, o, i) && #[trigger] symbol_value(objs, graph, layout, o, i) == Err::<i64, LinkError>(e)
            && symbols_valued_before(objs, graph, layout, o, i)
}

/// `e` is the error that ends the resolution of the symbols: that of the
/// first export that repeats a name; where there is none, that of the first
/// import that no export matches; where there is none either, that of the
/// first import without a value.
pub open spec fn symbols_error(objs: Seq<Object>, graph: &LinkGraph, layout: &LinkLayout, e: LinkError) -> bool {
    ||| first_duplicate_export(objs, e)
    ||| exports_unique(objs) && first_unresolved_import(objs, e)
    ||| exports_unique(objs) && all_imports_bound(objs) && first_resolution_error(objs, graph, layout, e)
}

/// The value of an import.
#[derive(Clone, Copy, Debug)]
pub struct SymbolEntry {
    pub addr_size: u8,
    pub value: i64,
}

impl SymbolEntry {
    pub fn addr_size(&self) -> (r: u8)
        ensures
            r == self.addr_size,
    {
        self.addr_size
    }

    pub fn value(&self) -> (r: i64)
        ensures
            r == self.value,
    {
        self.value
    }
}

/// The values of all imports of all objects.
#[derive(Debug)]
pub struct SymbolTable {
    table: Vec<Vec<SymbolEntry>>,
}

/// Import `i` of object `o` has the value of the entry, and its address size.
pub open spec fn symbol_entry_ok(
    objs: Seq<Object>,
    graph: &LinkGraph,
    layout: &LinkLayout,
    o: int,
    i: int,
    entry: SymbolEntry,
) -> bool {
    entry.addr_size == objs[o].imports()[i].addr_size && symbol_value(objs, graph, layout, o, i) == Ok::<
        i64,
        LinkError,
    >(entry.value)
}

impl SymbolTable {
    pub closed spec fn entries(&self) -> Seq<Vec<SymbolEntry>> {
        self.table@
    }

    /// The table is the one of `objs`, `graph` and `layout`: exports are
    /// unique, every import matches one, and every import has the value that
    /// stands in the table.
    pub open spec fn wf_for(&self, objs: Seq<Object>, graph: &LinkGraph, layout: &LinkLayout) -> bool {
        &&& exports_unique(objs)
        &&& all_imports_bound(objs)
        &&& self.entries().len() == objs.len()
        &&& forall|o: int| 0 <= o < objs.len() ==> (#[trigger] self.entries()[o])@.len() == objs[o].imports().len()
        &&& forall|o: int, i: int|
            valid_import(objs, o, i) ==> symbol_entry_ok(objs, graph, layout, o, i, #[trigger] self.entries()[o]@[i])
    }

    pub fn object_count(&self) -> (r: usize)
        ensures
            r == self.entries().len(),
    {
        self.table.len()
    }

    pub fn import_count(&self, obj_i: ObjIdx) -> (r: usize)
        requires
            obj_i.0 < self.entries().len(),
        ensures
            r == self.entries()[obj_i.0 as int]@.len(),
    {
        self.table[obj_i.0].len()
    }

    pub fn get(&self, obj_i: ObjIdx, imp_i: ObjImportIdx) -> (r: &SymbolEntry)
        requires
            obj_i.0 < self.entries().len(),
            imp_i.0 < self.entries()[obj_i.0 as int]@.len(),
        ensures
            *r == self.entries()[obj_i.0 as int]@[imp_i.0 as int],
    {
        &self.table[obj_i.0][imp_i.0]
    }

    /// Resolves every import of every object to a value. Each import is
    /// bound to the export of its name and gets the value of the expression
    /// of that export. Every value is computed once.
    pub fn new(objs: &[Object], graph: &LinkGraph, layout: &LinkLayout) -> (r: Result<Self, LinkError>)
        requires
            forall|o: int| 0 <= o < objs@.len() ==> (#[trigger] objs@[o]).wf(),
        ensures
            match r {
                Ok(t) => t.wf_for(objs@, graph, layout),
                Err(e) => symbols_error(objs@, graph, layout, e),
            },
    {
        let exports = match build_exports(objs) {
            Ok(exports) => exports,
            Err(e) => {
                return Err(e);
            },
        };
        let mut table: Vec<Vec<ResolveEntry>> = Vec::new();
        let ghost empty = Seq::<(int, int)>::empty();
        let mut o: usize = 0;
        while o < objs.len()
            invariant
                env_ok(objs@, &exports),
                o <= objs@.len(),
                table@.len() == o,
                forall|o1: int| 0 <= o1 < o ==> (#[trigger] table@[o1])@.len() == objs@[o1].imports().len(),
                forall|o1: int, i1: int|
                    valid_import(objs@, o1, i1) && o1 < o ==> #[trigger] fresh_entry_ok(
                        objs@,
                        graph,
                        layout,
                        &exports,
                        table@,
                        o1,
                        i1,
                    ),
                imports_bound_before(objs@, o as int, 0),
                empty == Seq::<(int, int)>::empty(),
            decreases objs@.len() - o,
        {
            let obj = &objs[o];
            let mut row: Vec<ResolveEntry> = Vec::new();
            let mut i: usize = 0;
            while i < obj.import_count()
                invariant
                    env_ok(objs@, &exports),
                    o < objs@.len(),
                    *obj == objs@[o as int],
                    i <= obj.imports().len(),
                    row@.len() == i,
                    forall|i1: int|
                        0 <= i1 < i ==> (#[trigger] row@[i1]).addr_size == obj.imports()[i1].addr_size && (
                        row@[i1].state matches ResolveState::Unresolved { export_i } && export_i
                            < exports.descs().len() && exports.names()[export_i as int] == import_name(
                            objs@,
                            o as int,
                            i1,
                        )),
                    imports_bound_before(objs@, o as int, i as int),
                decreases obj.imports().len() - i,
            {
                let name = obj.query_import_name(ObjImportIdx::new(i));
                assert(valid_import(objs@, o as int, i as int));
                let export_i = match exports.get_index_of(name) {
                    Some(export_i) => export_i,
                    None => {
                        proof {
                            if has_export(objs@, import_name(objs@, o as int, i as int)) {
                                let (o1, x1) = choose|o1: int, x1: int|
                                    valid_export(objs@, o1, x1) && #[trigger] export_name(objs@, o1, x1)
                                        == import_name(objs@, o as int, i as int);
                                assert(export_listed(exports.descs(), o1, x1));
                                let e = choose|e: int|
                                    0 <= e < exports.descs().len() && (#[trigger] exports.descs()[e]).obj_i.0 == o1
                                        && exports.descs()[e].export_i == x1;
                                assert(export_entry_ok(objs@, exports.names(), exports.descs(), e));
                                assert(exports.names().contains(exports.names()[e]));
                            }
                        }
                        return Err(
                            LinkError::UnresolvedImport { obj: ObjIdx::new(o), import: ObjImportIdx::new(i) },
                        );
                    },
                };
                proof {
                    assert(export_entry_ok(objs@, exports.names(), exports.descs(), export_i as int));
                    let d = exports.descs()[export_i as int];
                    assert(export_name(objs@, d.obj_i.0 as int, d.export_i as int) == import_name(
                        objs@,
                        o as int,
                        i as int,
                    ));
                    assert(has_export(objs@, import_name(objs@, o as int, i as int)));
                    assert forall|o1: int, i1: int|
                        valid_import(objs@, o1, i1) && precedes(o1, i1, o as int, i + 1) implies has_export(
                        objs@,
                        #[trigger] import_name(objs@, o1, i1),
                    ) by {
                        if !(o1 == o && i1 == i) {
                            assert(precedes(o1, i1, o as int, i as int));
                        }
                    }
                }
                row.push(
                    ResolveEntry {
                        addr_size: obj.import(ObjImportIdx::new(i)).addr_size,
                        state: ResolveState::Unresolved { export_i },
                    },
                );
                i += 1;
            }
            let ghost before = table@;
            let ghost entries = row@;
            table.push(row);
            proof {
                assert forall|o1: int, i1: int|
                    valid_import(objs@, o1, i1) && o1 < o + 1 implies #[trigger] fresh_entry_ok(
                    objs@,
                    graph,
                    layout,
                    &exports,
                    table@,
                    o1,
                    i1,
                ) by {
                    if o1 < o {
                        assert(fresh_entry_ok(objs@, graph, layout, &exports, before, o1, i1));
                        assert(table@[o1] == before[o1]);
                    } else {
                        assert(table@[o1]@ == entries);
                        assert(entries[i1].addr_size == obj.imports()[i1].addr_size);
                    }
                }
                assert forall|o1: int, i1: int|
                    valid_import(objs@, o1, i1) && precedes(o1, i1, o + 1, 0) implies has_export(
                    objs@,
                    #[trigger] import_name(objs@, o1, i1),
                ) by {
                    assert(precedes(o1, i1, o as int, i as int));
                }
            }
            o += 1;
        }
        proof {
            assert forall|o1: int, i1: int| valid_import(objs@, o1, i1) implies has_export(
                objs@,
                #[trigger] import_name(objs@, o1, i1),
            ) by {
                assert(precedes(o1, i1, o as int, 0));
            }
            assert forall|o1: int, i1: int| valid_import(objs@, o1, i1) implies #[trigger] entry_ok(
                objs@,
                graph,
                layout,
                &exports,
                table@,
                empty,
                o1,
                i1,
            ) by {
                assert(fresh_entry_ok(objs@, graph, layout, &exports, table@, o1, i1));
            }
        }
        let mut result: Vec<Vec<SymbolEntry>> = Vec::new();
        let mut o: usize = 0;
        while o < objs.len()
            invariant
                env_ok(objs@, &exports),
                all_imports_bound(objs@),
                empty == Seq::<(int, int)>::empty(),
                table_inv(objs@, graph, layout, &exports, table@, empty),
                o <= objs@.len(),
                result@.len() == o,
                forall|o1: int| 0 <= o1 < o ==> (#[trigger] result@[o1])@.len() == objs@[o1].imports().len(),
                forall|o1: int, i1: int|
                    valid_import(objs@, o1, i1) && o1 < o ==> symbol_entry_ok(
                        objs@,
                        graph,
                        layout,
                        o1,
                        i1,
                        #[trigger] result@[o1]@[i1],
                    ),
                symbols_valued_before(objs@, graph, layout, o as int, 0),
            decreases objs@.len() - o,
        {
            let n = objs[o].import_count();
            let mut row: Vec<SymbolEntry> = Vec::new();
            let mut i: usize = 0;
            while i < n
                invariant
                    env_ok(objs@, &exports),
                    all_imports_bound(objs@),
                    empty == Seq::<(int, int)>::empty(),
                    table_inv(objs@, graph, layout, &exports, table@, empty),
                    o < objs@.len(),
                    n == objs@[o as int].imports().len(),
                    i <= n,
                    row@.len() == i,
                    forall|i1: int|
                        0 <= i1 < i ==> symbol_entry_ok(objs@, graph, layout, o as int, i1, #[trigger] row@[i1]),
                    symbols_valued_before(objs@, graph, layout, o as int, i as int),
                decreases n - i,
            {
                assert(valid_import(objs@, o as int, i as int));
                let value = match resolve_import(
                    objs,
                    graph,
                    layout,
                    &exports,
                    &mut table,
                    ObjIdx::new(o),
                    ObjImportIdx::new(i),
                    Ghost(empty),
                ) {
                    Ok(value) => value,
                    Err(e) => {
                        proof {
                            assert(symbol_value(objs@, graph, layout, o as int, i as int) == Err::<i64, LinkError>(e));
                        }
                        return Err(e);
                    },
                };
                proof {
                    assert(entry_ok(objs@, graph, layout, &exports, table@, empty, o as int, i as int));
                    assert(path_ok(objs@, table@, empty));
                    assert(symbol_value(objs@, graph, layout, o as int, i as int) == Ok::<i64, LinkError>(value));
                    assert forall|o1: int, i1: int|
                        valid_import(objs@, o1, i1) && precedes(o1, i1, o as int, i + 1) implies (
                    #[trigger] symbol_value(objs@, graph, layout, o1, i1)) is Ok by {
                        if !(o1 == o && i1 == i) {
                            assert(precedes(o1, i1, o as int, i as int));
                        }
                    }
                }
                row.push(SymbolEntry { addr_size: objs[o].import(ObjImportIdx::new(i)).addr_size, value });
                i += 1;
            }
            let ghost before = result@;
            result.push(row);
            proof {
                assert forall|o1: int, i1: int| valid_import(objs@, o1, i1) && o1 < o + 1 implies symbol_entry_ok(
                    objs@,
                    graph,
                    layout,
                    o1,
                    i1,
                    #[trigger] result@[o1]@[i1],
                ) by {
                    if o1 < o {
                        assert(result@[o1] == before[o1]);
                        assert(symbol_entry_ok(objs@, graph, layout, o1, i1, before[o1]@[i1]));
                    }
                }
                assert forall|o1: int, i1: int|
                    valid_import(objs@, o1, i1) && precedes(o1, i1, o + 1, 0) implies (#[trigger] symbol_value(
                    objs@,
                    graph,
                    layout,
                    o1,
                    i1,
                )) is Ok by {
                    assert(precedes(o1, i1, o as int, i as int));
                }
            }
            o += 1;
        }
        Ok(SymbolTable { table: result })
    }
}

} // verus!
