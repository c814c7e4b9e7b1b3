use ld65::index::{MemIdx, OutFileIdx, SegIdx};
use ld65::range::NonemptyRange;
use ld65::script::ast::{Attribute, Block, Element, FormatString, FormatStringPart, Script, Value};
use ld65::script::eval::{check_dup, eval, find_dup_str, ScriptError, ScriptErrorKind};
use ld65::script::parse::parse;
use ld65::script::text::is_word;
use ld65::script::{LinkScript, LinkScriptMemory, LinkScriptSegment, LinkScriptSegmentStart};

const SCRIPT: &str = r#"
# A cartridge with program and character data.
MEMORY {
    ZP:  start = $0000, size = $0100, type = rw;
    ROM: start = $8000, size = $8000, type = ro, file = %O, fill = yes, fillval = $FF;
    CHR: start = 0 size = %10000000000000 file = "%O.chr";
}
SEGMENTS {
    ZEROPAGE: load = ZP, type = zp;
    CODE:     load = ROM, type = ro, start = $8000;
    VECTORS:  load = ROM start $FFFA fillval = 0;
    TILES:    load = CHR, align = 1;
}
"#;

fn error(kind: ScriptErrorKind, block: Option<usize>, elem: Option<usize>, attr: Option<usize>) -> ScriptError {
    ScriptError { kind, block, elem, attr }
}

fn load_error(text: &str) -> ScriptError {
    LinkScript::load(text, "out.bin").err().unwrap()
}

#[test]
fn script_is_loaded_with_files_regions_and_segments() {
    let script = LinkScript::load(SCRIPT, "game.nes").unwrap();
    assert_eq!(script.outfile_count(), 2);
    assert_eq!(script.iter_outfiles(), vec!["game.nes", "game.nes.chr"]);
    assert_eq!(script.outfile(OutFileIdx::new(1)), "game.nes.chr");
    assert_eq!(script.enumerate_outfiles()[1], (OutFileIdx::new(1), "game.nes.chr"));
    assert_eq!(script.memory_count(), 3);
    let zp = script.memory(MemIdx::new(0));
    assert_eq!(zp.name(), "ZP");
    assert_eq!(zp.range(), NonemptyRange::from_min_max(0, 0xFF));
    assert_eq!(zp.start(), 0);
    assert_eq!(zp.len(), 0x100);
    assert!(!zp.is_filled());
    assert_eq!(zp.fill_byte(), 0);
    assert_eq!(zp.outfile_idx(), OutFileIdx::new(0));
    let rom = script.memory(MemIdx::new(1));
    assert_eq!(rom.name(), "ROM");
    assert_eq!(rom.start(), 0x8000);
    assert_eq!(rom.len(), 0x8000);
    assert!(rom.is_filled());
    assert_eq!(rom.fill_byte(), 0xFF);
    assert_eq!(rom.outfile_idx(), OutFileIdx::new(0));
    let chr = script.memory(MemIdx::new(2));
    assert_eq!(chr.len(), 0x2000);
    assert_eq!(chr.outfile_idx(), OutFileIdx::new(1));
    assert_eq!(script.iter_memorys().len(), 3);
    assert_eq!(script.enumerate_memorys()[2].0, MemIdx::new(2));
    assert_eq!(script.segment_count(), 4);
    let zeropage = script.segment(SegIdx::new(0));
    assert_eq!(zeropage.name(), "ZEROPAGE");
    assert!(zeropage.is_bss());
    assert_eq!(zeropage.start(), LinkScriptSegmentStart::Unspecified);
    assert_eq!(zeropage.memory_idx(), MemIdx::new(0));
    assert_eq!(zeropage.fill_byte(), None);
    let code = script.segment(SegIdx::new(1));
    assert!(!code.is_bss());
    assert_eq!(code.start(), LinkScriptSegmentStart::Addr(0x8000));
    assert_eq!(code.memory_idx(), MemIdx::new(1));
    let vectors = script.segment(SegIdx::new(2));
    assert_eq!(vectors.start(), LinkScriptSegmentStart::Addr(0xFFFA));
    assert_eq!(vectors.fill_byte(), Some(0));
    let tiles = script.segment(SegIdx::new(3));
    assert_eq!(tiles.start(), LinkScriptSegmentStart::Align(1));
    assert_eq!(tiles.memory_idx(), MemIdx::new(2));
    assert_eq!(script.iter_segments().len(), 4);
    assert_eq!(script.enumerate_segments()[3].0, SegIdx::new(3));
}

#[test]
fn names_of_blocks_and_keys_are_taken_in_lower_case() {
    let ast = parse("Memory { Rom: START = 1, Size = 2; }").unwrap();
    assert_eq!(ast.blocks.len(), 1);
    assert_eq!(ast.blocks[0].name, "memory");
    assert_eq!(ast.blocks[0].elems[0].name, "Rom");
    assert_eq!(ast.blocks[0].elems[0].attrs[0].key, "start");
    assert_eq!(ast.blocks[0].elems[0].attrs[0].value.as_uint(), Some(1));
    assert_eq!(ast.blocks[0].elems[0].attrs[1].key, "size");
}

#[test]
fn values_are_truth_values_names_strings_and_numbers() {
    let ast = parse(
        "b { e: a = YES, b = no, c = True, d = FALSE, e = rw, f = %O, g = \"x%Oy%%\", h = $1f, i = %101, j = 42; }",
    )
    .unwrap();
    let attrs = &ast.blocks[0].elems[0].attrs;
    assert_eq!(attrs.len(), 10);
    assert_eq!(attrs[0].value.as_bool(), Some(true));
    assert_eq!(attrs[1].value.as_bool(), Some(false));
    assert_eq!(attrs[2].value.as_bool(), Some(true));
    assert_eq!(attrs[3].value.as_bool(), Some(false));
    assert_eq!(attrs[4].value.as_ident(), Some("rw"));
    assert_eq!(attrs[4].value.as_uint(), None);
    assert_eq!(attrs[4].value.as_bool(), None);
    assert!(attrs[4].value.as_string().is_none());
    assert_eq!(attrs[5].value.as_string().unwrap().format("main"), "main");
    assert_eq!(attrs[6].value.as_string().unwrap().format("main"), "xmainy%");
    assert_eq!(attrs[6].value.as_string().unwrap().parts.len(), 4);
    assert_eq!(attrs[6].value.as_ident(), None);
    assert_eq!(attrs[7].value.as_uint(), Some(0x1F));
    assert_eq!(attrs[8].value.as_uint(), Some(5));
    assert_eq!(attrs[9].value.as_uint(), Some(42));
}

#[test]
fn format_string_puts_its_pieces_together() {
    let text = FormatString {
        parts: vec![
            FormatStringPart::Literal("a-".to_owned()),
            FormatStringPart::MainOutFile,
            FormatStringPart::EscapedPercent,
            FormatStringPart::Literal(".x".to_owned()),
        ],
    };
    assert_eq!(text.format("out"), "a-out%.x");
    assert_eq!(FormatString { parts: vec![] }.format("out"), "");
}

#[test]
fn empty_text_and_comments_are_scripts_without_blocks() {
    assert_eq!(parse("").unwrap().blocks.len(), 0);
    assert_eq!(parse("  # nothing here\n\t# nor here\n").unwrap().blocks.len(), 0);
    assert_eq!(parse("memory{}segments{}").unwrap().blocks.len(), 2);
    assert_eq!(parse("memory { }  # rest").unwrap().blocks[0].elems.len(), 0);
}

#[test]
fn text_that_is_no_script_is_a_syntax_error() {
    let syntax = error(ScriptErrorKind::Syntax, None, None, None);
    assert_eq!(parse("memory").err(), Some(syntax));
    assert_eq!(parse("memory {").err(), Some(syntax));
    assert_eq!(parse("memory { a: ; }").err(), Some(syntax));
    assert_eq!(parse("memory { a: b = 1 }").err(), Some(syntax));
    assert_eq!(parse("memory { a: b = ; }").err(), Some(syntax));
    assert_eq!(parse("memory { a: b = $100000000; }").err(), Some(syntax));
    assert_eq!(parse("memory { a: b = 4294967296; }").err(), Some(syntax));
    assert_eq!(parse("memory { a: b = 4294967295; }").unwrap().blocks[0].elems[0].attrs[0].value.as_uint(), Some(u32::MAX));
    assert_eq!(parse("memory { a: b = \"open; }").err(), Some(syntax));
    assert_eq!(parse("memory { a: b = \"50%\"; }").err(), Some(syntax));
    assert_eq!(parse("memory { a: b = normal; }").err(), Some(syntax));
    assert_eq!(parse("memory { a: b = 1 # note\n c = 2; }").err(), Some(syntax));
    assert_eq!(parse("memory { a: b = 1, # note\n c = 2; }").unwrap().blocks[0].elems[0].attrs.len(), 2);
    assert_eq!(parse("memory { a: b = 1; } }").err(), Some(syntax));
    assert_eq!(parse("#\nmemory {}").err(), Some(syntax));
    assert_eq!(load_error("memory {"), syntax);
}

#[test]
fn names_that_stand_twice_are_refused() {
    assert_eq!(
        load_error("memory {} segments {} MEMORY {}"),
        error(ScriptErrorKind::DuplicateBlock, Some(2), None, None)
    );
    assert_eq!(
        load_error("memory { A: start = 0, size = 1; B: start = 0, size = 1; A: start = 0, size = 1; }"),
        error(ScriptErrorKind::DuplicateElement, Some(0), Some(2), None)
    );
    assert_eq!(
        load_error("memory { A: start = 0, size = 1; B: start = 0, size = 1, Start = 2; }"),
        error(ScriptErrorKind::DuplicateAttribute, Some(0), Some(1), Some(2))
    );
    let ast = parse("memory { A: x = 1; } segments { A: y = 1, z = 2; }").unwrap();
    assert_eq!(check_dup(&ast), Ok(()));
    assert_eq!(find_dup_str(&vec!["a", "b", "c", "b", "a"]), Some(3));
    assert_eq!(find_dup_str(&vec!["a", "b", "c"]), None);
    assert_eq!(find_dup_str(&vec![]), None);
}

#[test]
fn memory_regions_must_be_well_declared() {
    assert_eq!(load_error("other {}"), error(ScriptErrorKind::UnknownBlock, Some(0), None, None));
    assert_eq!(
        load_error("memory { A: size = 1; }"),
        error(ScriptErrorKind::MissingStart, Some(0), Some(0), None)
    );
    assert_eq!(
        load_error("memory { A: start = 1; }"),
        error(ScriptErrorKind::MissingSize, Some(0), Some(0), None)
    );
    assert_eq!(
        load_error("memory { A: start = 1, size = 0; }"),
        error(ScriptErrorKind::ZeroSize, Some(0), Some(0), None)
    );
    assert_eq!(
        load_error("memory { A: start = x, size = 1; }"),
        error(ScriptErrorKind::InvalidValue, Some(0), Some(0), Some(0))
    );
    assert_eq!(
        load_error("memory { A: start = 0, size = 1, type = zp; }"),
        error(ScriptErrorKind::InvalidType, Some(0), Some(0), Some(2))
    );
    assert_eq!(
        load_error("memory { A: start = 0, size = 1, type = 1; }"),
        error(ScriptErrorKind::InvalidValue, Some(0), Some(0), Some(2))
    );
    assert_eq!(
        load_error("memory { A: start = 0, size = 1, fill = 1; }"),
        error(ScriptErrorKind::InvalidValue, Some(0), Some(0), Some(2))
    );
    assert_eq!(
        load_error("memory { A: start = 0, size = 1, fillval = 256; }"),
        error(ScriptErrorKind::InvalidValue, Some(0), Some(0), Some(2))
    );
    assert_eq!(
        load_error("memory { A: start = 0, size = 1, file = \"\"; }"),
        error(ScriptErrorKind::EmptyOutputName, Some(0), Some(0), Some(2))
    );
    assert_eq!(
        load_error("memory { A: start = 0, size = 1, file = name; }"),
        error(ScriptErrorKind::InvalidValue, Some(0), Some(0), Some(2))
    );
    assert_eq!(
        load_error("memory { A: start = 0, size = 1, bank = 1; }"),
        error(ScriptErrorKind::UnsupportedAttribute, Some(0), Some(0), Some(2))
    );
    assert_eq!(
        load_error("memory { A: start = 0, size = 1, define = yes; }"),
        error(ScriptErrorKind::UnsupportedAttribute, Some(0), Some(0), Some(2))
    );
    assert_eq!(
        load_error("memory { A: start = 0, size = 1, colour = 1; }"),
        error(ScriptErrorKind::UnknownAttribute, Some(0), Some(0), Some(2))
    );
    let script = LinkScript::load("memory { A: start = 0, size = 1, type = RW; }", "o").unwrap();
    assert_eq!(script.memory(MemIdx::new(0)).len(), 1);
}

#[test]
fn segments_must_be_well_declared() {
    let mem = "memory { M: start = $10, size = $10; } ";
    let seg_error = |attrs: &str| load_error(&format!("{mem} segments {{ S: {attrs}; }}"));
    assert_eq!(seg_error("type = ro"), error(ScriptErrorKind::MissingLoad, Some(1), Some(0), None));
    assert_eq!(seg_error("load = N"), error(ScriptErrorKind::UnknownMemory, Some(1), Some(0), Some(0)));
    assert_eq!(seg_error("load = 1"), error(ScriptErrorKind::InvalidValue, Some(1), Some(0), Some(0)));
    assert_eq!(
        seg_error("load = M, type = overwrite"),
        error(ScriptErrorKind::UnsupportedSegmentType, Some(1), Some(0), Some(1))
    );
    assert_eq!(
        seg_error("load = M, type = fast"),
        error(ScriptErrorKind::InvalidType, Some(1), Some(0), Some(1))
    );
    assert_eq!(
        seg_error("load = M, start = $10, align = 1"),
        error(ScriptErrorKind::StartTwice, Some(1), Some(0), Some(2))
    );
    assert_eq!(
        seg_error("load = M, align = 1, start = $10"),
        error(ScriptErrorKind::StartTwice, Some(1), Some(0), Some(2))
    );
    assert_eq!(
        seg_error("load = M, start = $20"),
        error(ScriptErrorKind::StartOutOfMemory, Some(1), Some(0), None)
    );
    assert_eq!(
        seg_error("load = M, start = $0F"),
        error(ScriptErrorKind::StartOutOfMemory, Some(1), Some(0), None)
    );
    assert_eq!(
        seg_error("load = M, fillval = $100"),
        error(ScriptErrorKind::InvalidValue, Some(1), Some(0), Some(1))
    );
    assert_eq!(
        seg_error("load = M, run = M"),
        error(ScriptErrorKind::UnsupportedAttribute, Some(1), Some(0), Some(1))
    );
    assert_eq!(
        seg_error("load = M, optional = yes"),
        error(ScriptErrorKind::UnsupportedAttribute, Some(1), Some(0), Some(1))
    );
    assert_eq!(
        seg_error("load = M, shape = 1"),
        error(ScriptErrorKind::UnknownAttribute, Some(1), Some(0), Some(1))
    );
    assert_eq!(
        load_error("segments { S: load = M; } memory { M: start = 0, size = 1; }"),
        error(ScriptErrorKind::UnknownMemory, Some(0), Some(0), Some(0))
    );
    let text = format!("{mem} segments {{ S: load = M, type = BSS, start = $1F; T: load = M, type = Zp; }}");
    let script = LinkScript::load(&text, "o").unwrap();
    assert!(script.segment(SegIdx::new(0)).is_bss());
    assert_eq!(script.segment(SegIdx::new(0)).start(), LinkScriptSegmentStart::Addr(0x1F));
    assert!(script.segment(SegIdx::new(1)).is_bss());
}

#[test]
fn output_files_are_numbered_in_the_order_they_are_named() {
    let text = "memory {
        A: start = 0, size = 1, file = \"b.bin\";
        B: start = 0, size = 1, file = \"%O\";
        C: start = 0, size = 1, file = \"c.bin\";
        D: start = 0, size = 1, file = \"b.bin\";
        E: start = 0, size = 1;
    }";
    let script = LinkScript::load(text, "a.bin").unwrap();
    assert_eq!(script.iter_outfiles(), vec!["a.bin", "b.bin", "c.bin"]);
    let files: Vec<usize> = script.iter_memorys().iter().map(|m| m.outfile_idx().get()).collect();
    assert_eq!(files, vec![1, 0, 2, 1, 0]);
}

#[test]
fn syntax_tree_is_evaluated_without_its_text() {
    let attr = |key: &str, value: Value| Attribute { key: key.to_owned(), value };
    let ast = Script {
        blocks: vec![
            Block {
                name: "memory".to_owned(),
                elems: vec![
                    Element {
                        name: "RAM".to_owned(),
                        attrs: vec![attr("start", Value::Uint(0x200)), attr("size", Value::Uint(0x600))],
                    },
                ],
            },
            Block {
                name: "segments".to_owned(),
                elems: vec![
                    Element {
                        name: "BSS".to_owned(),
                        attrs: vec![attr("load", Value::Ident("RAM".to_owned())), attr("type", Value::Ident("bss".to_owned()))],
                    },
                ],
            },
        ],
    };
    let script = eval(&ast, "out").unwrap();
    assert_eq!(script.memory(MemIdx::new(0)).range(), NonemptyRange::from_start_len(0x200, 0x600));
    assert!(script.segment(SegIdx::new(0)).is_bss());
    assert_eq!(script.segment(SegIdx::new(0)).name(), "BSS");
}

#[test]
fn script_refuses_parts_that_do_not_fit() {
    let mem = |file: usize| {
        let mut m = LinkScriptMemory::new("M".to_owned(), NonemptyRange::from_min_max(0, 9));
        m.outfile_i = OutFileIdx::new(file);
        m
    };
    assert!(LinkScript::new(vec!["o".to_owned()], vec![mem(0)], vec![]).is_some());
    assert!(LinkScript::new(vec!["o".to_owned()], vec![mem(1)], vec![]).is_none());
    assert!(LinkScript::new(vec![], vec![mem(0)], vec![]).is_none());
    let seg = |m: usize| LinkScriptSegment::new("S".to_owned(), MemIdx::new(m));
    assert!(LinkScript::new(vec!["o".to_owned()], vec![mem(0)], vec![seg(0)]).is_some());
    assert!(LinkScript::new(vec!["o".to_owned()], vec![mem(0)], vec![seg(1)]).is_none());
    let whole = LinkScriptMemory::new("W".to_owned(), NonemptyRange::from_min_max(0, usize::MAX));
    assert!(LinkScript::new(vec!["o".to_owned()], vec![whole], vec![]).is_none());
}

#[test]
fn words_are_compared_letter_by_letter() {
    assert!(is_word("start", "start"));
    assert!(!is_word("Start", "start"));
    assert!(!is_word("star", "start"));
}
