use ld65::error::LinkError;
use ld65::expr::Expr;
use ld65::index::{MemIdx, ObjIdx, ObjImportIdx, ObjSectIdx, ObjStrIdx};
use ld65::link::emit::{encode, eval_expr};
use ld65::link::graph::LinkGraph;
use ld65::link::layout::LinkLayout;
use ld65::link::symbol::{build_exports, SymbolTable};
use ld65::object::{Export, Fragment, Import, Object, Section};
use ld65::range::NonemptyRange;
use ld65::script::{LinkScript, LinkScriptMemory, LinkScriptSegment};
use xo65::expr::{OpBinary, OpUnary};

fn plain_script() -> LinkScript {
    let mem = LinkScriptMemory::new("ROM".to_owned(), NonemptyRange::from_start_len(0x8000, 0x100));
    let seg = LinkScriptSegment::new("CODE".to_owned(), MemIdx::new(0));
    LinkScript::new(vec!["out.bin".to_owned()], vec![mem], vec![seg]).unwrap()
}

fn object(strings: &[&str], sections: Vec<Section>, imports: Vec<Import>, exports: Vec<Export>) -> Object {
    let strings = strings.iter().map(|s| (*s).to_owned()).collect();
    Object::new("obj.o".to_owned(), strings, sections, imports, exports).unwrap()
}

fn import(name: u32) -> Import {
    Import { name, addr_size: 2 }
}

fn export(name: u32, expr: Expr) -> Export {
    Export { name, addr_size: 2, expr }
}

fn symbol(import_idx: u32) -> Expr {
    Expr::Symbol { import_idx }
}

fn literal(value: i64) -> Expr {
    Expr::Literal { value }
}

fn resolve(objs: &[Object]) -> Result<SymbolTable, LinkError> {
    let script = plain_script();
    let graph = LinkGraph::new(&script, objs).unwrap();
    let layout = LinkLayout::new(&script, objs, &graph).unwrap();
    SymbolTable::new(objs, &graph, &layout)
}

fn value(table: &SymbolTable, obj: usize, imp: usize) -> i64 {
    table.get(ObjIdx::new(obj), ObjImportIdx::new(imp)).value()
}

#[test]
fn literal_export_gives_its_value_to_every_import() {
    let objs = vec![
        object(&["k"], vec![], vec![import(0), import(0)], vec![]),
        object(&["k"], vec![], vec![import(0)], vec![export(0, literal(-7))]),
    ];
    let table = resolve(&objs).unwrap();
    assert_eq!(value(&table, 0, 0), -7);
    assert_eq!(value(&table, 0, 1), -7);
    assert_eq!(value(&table, 1, 0), -7);
    assert_eq!(table.get(ObjIdx::new(0), ObjImportIdx::new(0)).addr_size(), 2);
    assert_eq!(table.object_count(), 2);
    assert_eq!(table.import_count(ObjIdx::new(0)), 2);
}

#[test]
fn value_does_not_depend_on_the_order_of_objects() {
    let user = || object(&["a", "b"], vec![], vec![import(0), import(1)], vec![]);
    let giver = || {
        object(
            &["a", "b"],
            vec![],
            vec![import(1)],
            vec![export(0, Expr::Binary(OpBinary::Add, Box::new(symbol(0)), Box::new(literal(1)))), export(1, literal(10))],
        )
    };
    let first = resolve(&[user(), giver()]).unwrap();
    assert_eq!(value(&first, 0, 0), 11);
    assert_eq!(value(&first, 0, 1), 10);
    assert_eq!(value(&first, 1, 0), 10);
    let second = resolve(&[giver(), user()]).unwrap();
    assert_eq!(value(&second, 1, 0), 11);
    assert_eq!(value(&second, 1, 1), 10);
    assert_eq!(value(&second, 0, 0), 10);
}

#[test]
fn import_that_resolves_back_to_itself_is_circular() {
    let a = object(&["x", "y"], vec![], vec![import(0)], vec![export(1, symbol(0))]);
    let b = object(&["x", "y"], vec![], vec![import(1)], vec![export(0, symbol(0))]);
    assert_eq!(
        resolve(&[a, b]).err(),
        Some(LinkError::CircularReference { obj: ObjIdx::new(0), import: ObjImportIdx::new(0) })
    );
}

#[test]
fn export_that_names_itself_is_circular() {
    let a = object(&["x"], vec![], vec![import(0)], vec![export(0, symbol(0))]);
    assert_eq!(
        resolve(&[a]).err(),
        Some(LinkError::CircularReference { obj: ObjIdx::new(0), import: ObjImportIdx::new(0) })
    );
}

#[test]
fn same_export_name_in_two_objects_is_a_duplicate() {
    let a = || object(&["x"], vec![], vec![], vec![export(0, literal(1))]);
    let b = || object(&["pad", "x"], vec![], vec![], vec![export(1, literal(2))]);
    assert_eq!(resolve(&[a(), b()]).err(), Some(LinkError::DuplicateExport { obj: ObjIdx::new(1), export: 0 }));
    assert_eq!(resolve(&[b(), a()]).err(), Some(LinkError::DuplicateExport { obj: ObjIdx::new(1), export: 0 }));
    assert!(build_exports(&[a(), b()]).is_err());
}

#[test]
fn exports_are_found_by_name_in_order_of_insertion() {
    let a = object(&["x", "y"], vec![], vec![], vec![export(0, literal(1)), export(1, literal(2))]);
    let b = object(&["z"], vec![], vec![], vec![export(0, literal(3))]);
    let exports = build_exports(&[a, b]).ok().unwrap();
    assert_eq!(exports.get_index_of("x"), Some(0));
    assert_eq!(exports.get_index_of("y"), Some(1));
    assert_eq!(exports.get_index_of("z"), Some(2));
    assert_eq!(exports.get_index_of("w"), None);
    assert_eq!(exports.get(2).obj_i, ObjIdx::new(1));
    assert_eq!(exports.get(2).export_i, 0);
    assert_eq!(exports.get(1).obj_i, ObjIdx::new(0));
    assert_eq!(exports.get(1).export_i, 1);
}

#[test]
fn import_without_export_is_unresolved() {
    let a = object(&["x", "y"], vec![], vec![import(0), import(1)], vec![export(0, literal(1))]);
    assert_eq!(
        resolve(&[a]).err(),
        Some(LinkError::UnresolvedImport { obj: ObjIdx::new(0), import: ObjImportIdx::new(1) })
    );
}

#[test]
fn address_sizes_of_import_and_export_must_agree() {
    let a = object(
        &["x"],
        vec![],
        vec![Import { name: 0, addr_size: 1 }],
        vec![export(0, literal(1))],
    );
    assert_eq!(
        resolve(&[a]).err(),
        Some(LinkError::AddrSizeMismatch { obj: ObjIdx::new(0), import: ObjImportIdx::new(0) })
    );
    let b = object(
        &["x", "y"],
        vec![],
        vec![import(0), Import { name: 1, addr_size: 3 }],
        vec![export(0, symbol(1)), Export { name: 1, addr_size: 3, expr: literal(1) }],
    );
    assert_eq!(
        resolve(&[b]).err(),
        Some(LinkError::AddrSizeMismatch { obj: ObjIdx::new(0), import: ObjImportIdx::new(1) })
    );
}

#[test]
fn expression_errors_end_the_resolution() {
    let null = object(&["x"], vec![], vec![import(0)], vec![export(0, Expr::Null)]);
    assert_eq!(resolve(&[null]).err(), Some(LinkError::NullExpr));
    let slot = object(&["x"], vec![], vec![import(0)], vec![export(0, symbol(5))]);
    assert_eq!(
        resolve(&[slot]).err(),
        Some(LinkError::UnknownImport { obj: ObjIdx::new(0), import: ObjImportIdx::new(5) })
    );
    let sect = object(&["x"], vec![], vec![import(0)], vec![export(0, Expr::Section { section_idx: 0 })]);
    assert_eq!(
        resolve(&[sect]).err(),
        Some(LinkError::UnknownSection { obj: ObjIdx::new(0), sect: ObjSectIdx::new(0) })
    );
    let bank = object(
        &["x"],
        vec![],
        vec![import(0)],
        vec![export(0, Expr::Unary(OpUnary::Bank, Box::new(literal(1))))],
    );
    assert_eq!(resolve(&[bank]).err(), Some(LinkError::UndefinedOperation));
    let div = object(
        &["x"],
        vec![],
        vec![import(0)],
        vec![export(0, Expr::Binary(OpBinary::Div, Box::new(literal(1)), Box::new(literal(0))))],
    );
    assert_eq!(resolve(&[div]).err(), Some(LinkError::UndefinedOperation));
}

#[test]
fn dropped_section_has_no_address() {
    let objs = vec![
        object(
            &["RODATA", "x"],
            vec![Section { segment_name: 0, len: 0, align: 1, fragments: vec![] }],
            vec![import(1)],
            vec![export(1, Expr::Section { section_idx: 0 })],
        ),
    ];
    assert_eq!(
        resolve(&objs).err(),
        Some(LinkError::UnknownSection { obj: ObjIdx::new(0), sect: ObjSectIdx::new(0) })
    );
}

#[test]
fn operators_are_applied_to_the_values_of_their_operands() {
    let expr = Expr::Binary(
        OpBinary::Sub,
        Box::new(Expr::Unary(OpUnary::Neg, Box::new(literal(5)))),
        Box::new(Expr::Binary(OpBinary::Mul, Box::new(literal(3)), Box::new(literal(4)))),
    );
    let objs = vec![
        object(
            &["CODE", "x"],
            vec![Section { segment_name: 0, len: 4, align: 1, fragments: vec![Fragment::Fill(4)] }],
            vec![import(1)],
            vec![export(1, Expr::Binary(OpBinary::Add, Box::new(Expr::Section { section_idx: 0 }), Box::new(expr)))],
        ),
    ];
    let table = resolve(&objs).unwrap();
    assert_eq!(value(&table, 0, 0), 0x8000 - 17);
    let script = plain_script();
    let graph = LinkGraph::new(&script, &objs).unwrap();
    let layout = LinkLayout::new(&script, &objs, &graph).unwrap();
    let high = Expr::Unary(OpUnary::Byte1, Box::new(symbol(0)));
    assert_eq!(eval_expr(&graph, &layout, &table, ObjIdx::new(0), &high), Ok(0x7F));
    assert_eq!(
        eval_expr(&graph, &layout, &table, ObjIdx::new(0), &symbol(1)),
        Err(LinkError::UnknownImport { obj: ObjIdx::new(0), import: ObjImportIdx::new(1) })
    );
    assert_eq!(
        eval_expr(&graph, &layout, &table, ObjIdx::new(3), &symbol(0)),
        Err(LinkError::UnknownImport { obj: ObjIdx::new(3), import: ObjImportIdx::new(0) })
    );
}

#[test]
fn values_are_written_lowest_byte_first() {
    assert_eq!(encode(0x1234, 2, false), Ok(vec![0x34, 0x12]));
    assert_eq!(encode(0xFF, 1, false), Ok(vec![0xFF]));
    assert_eq!(encode(0x123456, 3, false), Ok(vec![0x56, 0x34, 0x12]));
    assert_eq!(encode(0x89ABCDEF, 4, false), Ok(vec![0xEF, 0xCD, 0xAB, 0x89]));
    assert_eq!(encode(-1, 1, true), Ok(vec![0xFF]));
    assert_eq!(encode(-2, 2, true), Ok(vec![0xFE, 0xFF]));
    assert_eq!(encode(-0x800000, 3, true), Ok(vec![0x00, 0x00, 0x80]));
    assert_eq!(encode(-0x80000000, 4, true), Ok(vec![0x00, 0x00, 0x00, 0x80]));
    assert_eq!(encode(0x7FFFFFFF, 4, true), Ok(vec![0xFF, 0xFF, 0xFF, 0x7F]));
}

#[test]
fn values_beyond_the_width_are_refused() {
    assert_eq!(encode(0x100, 1, false), Err(LinkError::ValueOutOfRange { value: 0x100 }));
    assert_eq!(encode(-1, 1, false), Err(LinkError::ValueOutOfRange { value: -1 }));
    assert_eq!(encode(0x10000, 2, false), Err(LinkError::ValueOutOfRange { value: 0x10000 }));
    assert_eq!(encode(0xFFFFFF, 3, false), Ok(vec![0xFF, 0xFF, 0xFF]));
    assert_eq!(encode(0x1000000, 3, false), Err(LinkError::ValueOutOfRange { value: 0x1000000 }));
    assert_eq!(encode(0x100000000, 4, false), Err(LinkError::ValueOutOfRange { value: 0x100000000 }));
    assert_eq!(encode(0x80, 1, true), Err(LinkError::ValueOutOfRange { value: 0x80 }));
    assert_eq!(encode(-0x81, 1, true), Err(LinkError::ValueOutOfRange { value: -0x81 }));
    assert_eq!(encode(0x800000, 3, true), Err(LinkError::ValueOutOfRange { value: 0x800000 }));
    assert_eq!(encode(-0x800001, 3, true), Err(LinkError::ValueOutOfRange { value: -0x800001 }));
}

#[test]
fn object_refuses_names_outside_its_string_table() {
    let sect = Section { segment_name: 1, len: 0, align: 1, fragments: vec![] };
    assert!(Object::new("o".to_owned(), vec!["a".to_owned()], vec![sect], vec![], vec![]).is_none());
    assert!(Object::new("o".to_owned(), vec![], vec![], vec![import(0)], vec![]).is_none());
    assert!(Object::new("o".to_owned(), vec![], vec![], vec![], vec![export(0, literal(0))]).is_none());
    let sect = Section { segment_name: 0, len: 0, align: 1, fragments: vec![] };
    let obj = Object::new(
        "o".to_owned(),
        vec!["a".to_owned(), "b".to_owned()],
        vec![sect],
        vec![import(1)],
        vec![export(0, literal(0))],
    )
    .unwrap();
    assert_eq!(obj.name(), "o");
    assert_eq!(obj.section_count(), 1);
    assert_eq!(obj.import_count(), 1);
    assert_eq!(obj.export_count(), 1);
    assert_eq!(obj.query_segment_name(ObjSectIdx::new(0)), "a");
    assert_eq!(obj.query_import_name(ObjImportIdx::new(0)), "b");
    assert_eq!(obj.query_export_name(0), "a");
    assert_eq!(obj.query_string(ObjStrIdx::new(1)), "b");
    assert_eq!(obj.section(ObjSectIdx::new(0)).len, 0);
    assert_eq!(obj.import(ObjImportIdx::new(0)).name, 1);
    assert_eq!(obj.export(0).addr_size, 2);
    let listed = obj.enumerate_sections();
    assert_eq!(listed.len(), 1);
    assert_eq!(listed[0].0, ObjSectIdx::new(0));
}
