use ld65::error::LinkError;
use ld65::expr::Expr;
use ld65::index::{MemIdx, ObjIdx, ObjImportIdx, ObjSectIdx, OutFileIdx, SectIdx, SegIdx};
use ld65::link::graph::LinkGraph;
use ld65::link::layout::LinkLayout;
use ld65::link::link;
use ld65::object::{Export, Fragment, Import, Object, Section};
use ld65::range::NonemptyRange;
use ld65::script::{LinkScript, LinkScriptMemory, LinkScriptSegment, LinkScriptSegmentStart};

fn memory(name: &str, start: usize, len: usize) -> LinkScriptMemory {
    LinkScriptMemory::new(name.to_owned(), NonemptyRange::from_start_len(start, len))
}

fn segment(name: &str, mem: usize) -> LinkScriptSegment {
    LinkScriptSegment::new(name.to_owned(), MemIdx::new(mem))
}

fn script(mems: Vec<LinkScriptMemory>, segs: Vec<LinkScriptSegment>) -> LinkScript {
    LinkScript::new(vec!["out.bin".to_owned()], mems, segs).unwrap()
}

fn section(segment_name: u32, len: u32, fragments: Vec<Fragment>) -> Section {
    Section { segment_name, len, align: 1, fragments }
}

fn object(strings: &[&str], sections: Vec<Section>, imports: Vec<Import>, exports: Vec<Export>) -> Object {
    let strings = strings.iter().map(|s| (*s).to_owned()).collect();
    Object::new("obj.o".to_owned(), strings, sections, imports, exports).unwrap()
}

fn bodies(script: &LinkScript, objs: &[Object]) -> Vec<Vec<u8>> {
    link(script, objs).unwrap().iter().iter().map(|o| o.body().to_vec()).collect()
}

#[test]
fn literal_and_fill_in_a_plain_region() {
    let script = script(vec![memory("ROM", 0x8000, 0x10)], vec![segment("CODE", 0)]);
    let frags = vec![Fragment::Literal(vec![0xAA, 0xBB, 0xCC, 0xDD]), Fragment::Fill(2)];
    let objs = vec![object(&["CODE"], vec![section(0, 0x10, frags)], vec![], vec![])];
    let outs = link(&script, &objs).unwrap();
    assert_eq!(outs.iter().len(), 1);
    let out = &outs.iter()[0];
    assert_eq!(out.path(), "out.bin");
    assert_eq!(out.body().len(), 0x10);
    assert_eq!(&out.body()[0..6], &[0xAA, 0xBB, 0xCC, 0xDD, 0x00, 0x00]);
    assert_eq!(&out.body()[6..16], &[0u8; 10]);
}

#[test]
fn plain_region_is_as_long_as_its_sections() {
    let script = script(vec![memory("ROM", 0x8000, 0x10)], vec![segment("CODE", 0)]);
    let frags = vec![Fragment::Literal(vec![0xAA, 0xBB, 0xCC, 0xDD]), Fragment::Fill(2)];
    let objs = vec![object(&["CODE"], vec![section(0, 6, frags)], vec![], vec![])];
    assert_eq!(bodies(&script, &objs), vec![vec![0xAA, 0xBB, 0xCC, 0xDD, 0x00, 0x00]]);
}

#[test]
fn filled_region_is_padded_with_its_fill_byte() {
    let mut mem = memory("ROM", 0x8000, 0x10);
    mem.filled = true;
    mem.fill_byte = 0xFF;
    let script = script(vec![mem], vec![segment("CODE", 0)]);
    let frags = vec![Fragment::Literal(vec![1, 2, 3]), Fragment::Fill(1)];
    let objs = vec![object(&["CODE"], vec![section(0, 4, frags)], vec![], vec![])];
    let mut expected = vec![0xFFu8; 0x10];
    expected[0] = 1;
    expected[1] = 2;
    expected[2] = 3;
    assert_eq!(bodies(&script, &objs), vec![expected]);
}

#[test]
fn segment_fill_byte_overrides_that_of_the_region() {
    let mut mem = memory("ROM", 0x8000, 8);
    mem.filled = true;
    mem.fill_byte = 0xEE;
    let mut seg = segment("CODE", 0);
    seg.fill_byte = Some(0x11);
    let script = script(vec![mem], vec![seg]);
    let frags = vec![Fragment::Literal(vec![9]), Fragment::Fill(2)];
    let objs = vec![object(&["CODE"], vec![section(0, 4, frags)], vec![], vec![])];
    assert_eq!(bodies(&script, &objs), vec![vec![9, 0x11, 0x11, 0x11, 0xEE, 0xEE, 0xEE, 0xEE]]);
}

#[test]
fn two_byte_unsigned_value_out_of_range_is_an_error() {
    let script = script(vec![memory("ROM", 0x8000, 0x10)], vec![segment("CODE", 0)]);
    let frags = vec![Fragment::ExprU16(Expr::Literal { value: 0x10000 })];
    let objs = vec![object(&["CODE"], vec![section(0, 2, frags)], vec![], vec![])];
    assert_eq!(link(&script, &objs).err(), Some(LinkError::ValueOutOfRange { value: 0x10000 }));
}

#[test]
fn bss_segment_followed_by_segment_at_explicit_address() {
    let mut bss = segment("BSS", 0);
    bss.bss = true;
    let mut code = segment("CODE", 0);
    code.start = LinkScriptSegmentStart::Addr(0x0204);
    let script = script(vec![memory("RAM", 0x0200, 0x100)], vec![bss, code]);
    let objs = vec![
        object(
            &["BSS", "CODE"],
            vec![section(0, 4, vec![]), section(1, 2, vec![Fragment::Literal(vec![1, 2])])],
            vec![],
            vec![],
        ),
    ];
    let graph = LinkGraph::new(&script, &objs).unwrap();
    let layout = LinkLayout::new(&script, &objs, &graph).unwrap();
    assert_eq!(layout.section(SectIdx::new(0)).start(), 0x0200);
    assert_eq!(layout.section(SectIdx::new(0)).output_len(), 0);
    assert_eq!(layout.section(SectIdx::new(1)).start(), 0x0204);
    assert_eq!(layout.section(SectIdx::new(1)).output_len(), 2);
    assert_eq!(layout.segment(SegIdx::new(0)).start(), 0x0200);
    assert_eq!(layout.segment(SegIdx::new(0)).output_len(), 0);
    assert_eq!(layout.segment(SegIdx::new(1)).start(), 0x0204);
    assert_eq!(layout.segment(SegIdx::new(1)).output_len(), 2);
    assert_eq!(layout.memory(MemIdx::new(0)).output_len(), 2);
    assert_eq!(layout.file(OutFileIdx::new(0)).len(), 2);
}

#[test]
fn segment_start_below_the_cursor_is_an_overlap() {
    let mut second = segment("DATA", 0);
    second.start = LinkScriptSegmentStart::Addr(0x8001);
    let script = script(vec![memory("ROM", 0x8000, 0x10)], vec![segment("CODE", 0), second]);
    let objs = vec![
        object(
            &["CODE", "DATA"],
            vec![section(0, 2, vec![Fragment::Fill(2)]), section(1, 1, vec![Fragment::Fill(1)])],
            vec![],
            vec![],
        ),
    ];
    assert_eq!(link(&script, &objs).err(), Some(LinkError::SegmentOverlap { seg: SegIdx::new(1) }));
}

#[test]
fn only_unit_alignment_is_accepted() {
    let mut aligned = segment("CODE", 0);
    aligned.start = LinkScriptSegmentStart::Align(1);
    let ok = script(vec![memory("ROM", 0x8000, 0x10)], vec![aligned]);
    let objs = vec![object(&["CODE"], vec![section(0, 1, vec![Fragment::Fill(1)])], vec![], vec![])];
    assert_eq!(bodies(&ok, &objs), vec![vec![0u8]]);

    let mut aligned = segment("CODE", 0);
    aligned.start = LinkScriptSegmentStart::Align(2);
    let bad = script(vec![memory("ROM", 0x8000, 0x10)], vec![aligned]);
    assert_eq!(link(&bad, &objs).err(), Some(LinkError::SegmentAlignment { seg: SegIdx::new(0) }));

    let plain = script(vec![memory("ROM", 0x8000, 0x10)], vec![segment("CODE", 0)]);
    let sect = Section { segment_name: 0, len: 1, align: 4, fragments: vec![Fragment::Fill(1)] };
    let objs = vec![object(&["CODE"], vec![sect], vec![], vec![])];
    assert_eq!(
        link(&plain, &objs).err(),
        Some(LinkError::SectionAlignment { obj: ObjIdx::new(0), sect: ObjSectIdx::new(0) })
    );
}

#[test]
fn sections_beyond_the_capacity_overflow_the_region() {
    let script = script(vec![memory("ROM", 0x8000, 4)], vec![segment("CODE", 0)]);
    let fits = vec![object(&["CODE"], vec![section(0, 4, vec![Fragment::Fill(4)])], vec![], vec![])];
    assert_eq!(bodies(&script, &fits), vec![vec![0u8; 4]]);
    let objs = vec![object(&["CODE"], vec![section(0, 5, vec![Fragment::Fill(5)])], vec![], vec![])];
    assert_eq!(link(&script, &objs).err(), Some(LinkError::MemoryOverflow { mem: MemIdx::new(0) }));
}

#[test]
fn sections_are_numbered_by_object_then_by_table() {
    let script = script(
        vec![memory("ROM", 0x8000, 0x10)],
        vec![segment("CODE", 0), segment("DATA", 0)],
    );
    let objs = vec![
        object(
            &["DATA", "CODE", "BSS"],
            vec![
                section(0, 1, vec![Fragment::Literal(vec![0xD0])]),
                section(2, 0, vec![]),
                section(1, 1, vec![Fragment::Literal(vec![0xC0])]),
            ],
            vec![],
            vec![],
        ),
        object(&["CODE"], vec![section(0, 1, vec![Fragment::Literal(vec![0xC1])])], vec![], vec![]),
    ];
    let graph = LinkGraph::new(&script, &objs).unwrap();
    assert_eq!(graph.file_count(), 1);
    assert_eq!(graph.mem_count(), 1);
    assert_eq!(graph.seg_count(), 2);
    assert_eq!(graph.obj_count(), 2);
    assert_eq!(graph.sect_count(), 3);
    assert_eq!(graph.files(), vec![OutFileIdx::new(0)]);
    assert_eq!(graph.file_to_mems(OutFileIdx::new(0)), &[MemIdx::new(0)]);
    assert_eq!(graph.mem_to_segs(MemIdx::new(0)), &[SegIdx::new(0), SegIdx::new(1)]);
    assert_eq!(graph.seg_to_sects(SegIdx::new(0)), &[SectIdx::new(1), SectIdx::new(2)]);
    assert_eq!(graph.seg_to_sects(SegIdx::new(1)), &[SectIdx::new(0)]);
    assert_eq!(graph.obj_to_sects(ObjIdx::new(0)), &[SectIdx::new(0), SectIdx::new(1)]);
    assert_eq!(graph.obj_to_sects(ObjIdx::new(1)), &[SectIdx::new(2)]);
    assert_eq!(graph.mem_to_file(MemIdx::new(0)), OutFileIdx::new(0));
    assert_eq!(graph.seg_to_mem(SegIdx::new(1)), MemIdx::new(0));
    assert_eq!(graph.sect_to_seg(SectIdx::new(0)), SegIdx::new(1));
    assert_eq!(graph.sect_to_obj_sect(SectIdx::new(1)), (ObjIdx::new(0), ObjSectIdx::new(2)));
    assert_eq!(graph.obj_sect_to_sect(ObjIdx::new(0), ObjSectIdx::new(0)), Some(SectIdx::new(0)));
    assert_eq!(graph.obj_sect_to_sect(ObjIdx::new(0), ObjSectIdx::new(1)), None);
    assert_eq!(graph.obj_sect_to_sect(ObjIdx::new(0), ObjSectIdx::new(2)), Some(SectIdx::new(1)));
    assert_eq!(graph.obj_sect_to_sect(ObjIdx::new(1), ObjSectIdx::new(0)), Some(SectIdx::new(2)));
    assert_eq!(graph.file_name(OutFileIdx::new(0)), "out.bin");
    assert_eq!(graph.mem_name(MemIdx::new(0)), "ROM");
    assert_eq!(graph.seg_name(SegIdx::new(1)), "DATA");
    assert_eq!(bodies(&script, &objs), vec![vec![0xC0, 0xC1, 0xD0]]);
}

#[test]
fn unmapped_sections_are_dropped_only_when_empty() {
    let script = script(vec![memory("ROM", 0x8000, 0x10)], vec![segment("CODE", 0)]);
    let objs = vec![object(&["RODATA"], vec![section(0, 1, vec![Fragment::Fill(1)])], vec![], vec![])];
    assert_eq!(
        link(&script, &objs).err(),
        Some(LinkError::UnmappedSegment { obj: ObjIdx::new(0), sect: ObjSectIdx::new(0) })
    );
    let objs = vec![object(&["RODATA"], vec![section(0, 0, vec![])], vec![], vec![])];
    assert_eq!(bodies(&script, &objs), vec![Vec::<u8>::new()]);
    let objs = vec![object(&["MYSEG"], vec![section(0, 0, vec![])], vec![], vec![])];
    assert_eq!(
        link(&script, &objs).err(),
        Some(LinkError::UnknownSegment { obj: ObjIdx::new(0), sect: ObjSectIdx::new(0) })
    );
}

#[test]
fn regions_follow_each_other_in_their_file() {
    let mut second = memory("B", 0x9000, 4);
    second.filled = true;
    second.fill_byte = 0x77;
    let script = script(
        vec![memory("A", 0x8000, 8), second],
        vec![segment("CODE", 0), segment("DATA", 1)],
    );
    let objs = vec![
        object(
            &["CODE", "DATA"],
            vec![
                section(0, 2, vec![Fragment::Literal(vec![1, 2])]),
                section(1, 1, vec![Fragment::Literal(vec![3])]),
            ],
            vec![],
            vec![],
        ),
    ];
    let graph = LinkGraph::new(&script, &objs).unwrap();
    let layout = LinkLayout::new(&script, &objs, &graph).unwrap();
    assert_eq!(layout.memory(MemIdx::new(0)).file_offset(), 0);
    assert_eq!(layout.memory(MemIdx::new(0)).output_len(), 2);
    assert_eq!(layout.memory(MemIdx::new(1)).file_offset(), 2);
    assert_eq!(layout.memory(MemIdx::new(1)).output_len(), 4);
    assert!(layout.memory(MemIdx::new(1)).is_filled());
    assert_eq!(layout.memory(MemIdx::new(1)).start(), 0x9000);
    assert_eq!(layout.memory(MemIdx::new(1)).range().len(), 4);
    assert_eq!(layout.file(OutFileIdx::new(0)).len(), 6);
    assert!(!layout.file(OutFileIdx::new(0)).is_empty());
    assert_eq!(bodies(&script, &objs), vec![vec![1, 2, 3, 0x77, 0x77, 0x77]]);
}

#[test]
fn section_address_is_written_little_endian() {
    let script = script(vec![memory("ROM", 0x8000, 0x10)], vec![segment("CODE", 0)]);
    let frags = vec![Fragment::Fill(1), Fragment::ExprU16(Expr::Section { section_idx: 0 })];
    let objs = vec![object(&["CODE"], vec![section(0, 3, frags)], vec![], vec![])];
    assert_eq!(bodies(&script, &objs), vec![vec![0x00, 0x00, 0x80]]);
}

#[test]
fn import_of_another_object_is_resolved() {
    let script = script(vec![memory("ROM", 0x8000, 0x10)], vec![segment("CODE", 0)]);
    let user = object(
        &["CODE", "answer"],
        vec![section(0, 1, vec![Fragment::ExprU8(Expr::Symbol { import_idx: 0 })])],
        vec![Import { name: 1, addr_size: 2 }],
        vec![],
    );
    let giver = object(
        &["answer"],
        vec![],
        vec![],
        vec![Export { name: 0, addr_size: 2, expr: Expr::Literal { value: 42 } }],
    );
    assert_eq!(bodies(&script, &[user, giver]), vec![vec![42u8]]);
}

#[test]
fn fragment_beyond_its_section_is_an_error() {
    let script = script(vec![memory("ROM", 0x8000, 0x10)], vec![segment("CODE", 0)]);
    let objs = vec![object(&["CODE"], vec![section(0, 1, vec![Fragment::Literal(vec![1, 2])])], vec![], vec![])];
    assert_eq!(link(&script, &objs).err(), Some(LinkError::OutputOutOfRange));
    let objs = vec![object(&["CODE"], vec![section(0, 1, vec![Fragment::Fill(2)])], vec![], vec![])];
    assert_eq!(link(&script, &objs).err(), Some(LinkError::OutputOutOfRange));
}

#[test]
fn addresses_passed_over_give_no_bytes_in_a_plain_region() {
    let mut data = segment("DATA", 0);
    data.start = LinkScriptSegmentStart::Addr(0x8004);
    let script = script(vec![memory("ROM", 0x8000, 0x10)], vec![segment("CODE", 0), data]);
    let objs = vec![
        object(
            &["CODE", "DATA"],
            vec![
                section(0, 1, vec![Fragment::Literal(vec![0x11])]),
                section(1, 2, vec![Fragment::ExprU16(Expr::Section { section_idx: 1 })]),
            ],
            vec![],
            vec![],
        ),
    ];
    assert_eq!(bodies(&script, &objs), vec![vec![0x11, 0x04, 0x80]]);
}

#[test]
fn addresses_passed_over_are_filled_in_a_filled_region() {
    let mut mem = memory("ROM", 0x8000, 8);
    mem.filled = true;
    mem.fill_byte = 0xFF;
    let mut data = segment("DATA", 0);
    data.start = LinkScriptSegmentStart::Addr(0x8004);
    let script = script(vec![mem], vec![segment("CODE", 0), data]);
    let objs = vec![
        object(
            &["CODE", "DATA"],
            vec![
                section(0, 1, vec![Fragment::Literal(vec![0x11])]),
                section(1, 2, vec![Fragment::Literal(vec![0x22, 0x33])]),
            ],
            vec![],
            vec![],
        ),
    ];
    assert_eq!(bodies(&script, &objs), vec![vec![0x11, 0xFF, 0xFF, 0xFF, 0x22, 0x33, 0xFF, 0xFF]]);
}

fn bss_then_code() -> Vec<Object> {
    vec![
        object(
            &["BSS", "CODE"],
            vec![section(0, 4, vec![Fragment::Fill(4)]), section(1, 2, vec![Fragment::Literal(vec![0xAA, 0xBB])])],
            vec![],
            vec![],
        ),
    ]
}

#[test]
fn bss_reservation_gives_no_bytes_to_a_plain_region() {
    let text = "memory { RAM: start=$0200, size=$0100; } \
                segments { BSS: load=RAM, type=bss; CODE: load=RAM, start=$0204; }";
    let script = LinkScript::load(text, "a.out").unwrap();
    let outs = link(&script, &bss_then_code()).unwrap();
    assert_eq!(outs.iter().len(), 1);
    assert_eq!(outs.iter()[0].path(), "a.out");
    assert_eq!(outs.iter()[0].body(), &[0xAA, 0xBB]);
}

#[test]
fn bss_reservation_is_filled_in_a_filled_region() {
    let text = "memory { RAM: start=$0200, size=8, fill=yes, fillval=$EE; } \
                segments { BSS: load=RAM, type=bss; CODE: load=RAM, start=$0204; }";
    let script = LinkScript::load(text, "a.out").unwrap();
    assert_eq!(bodies(&script, &bss_then_code()), vec![vec![0xEE, 0xEE, 0xEE, 0xEE, 0xAA, 0xBB, 0xEE, 0xEE]]);
}

#[test]
fn segment_pushed_out_of_a_filled_region_is_an_error() {
    let text = "memory { RAM: start=$0200, size=4, fill=yes; } \
                segments { BSS: load=RAM, type=bss; CODE: load=RAM; }";
    let script = LinkScript::load(text, "a.out").unwrap();
    let objs = bss_then_code();
    let graph = LinkGraph::new(&script, &objs).unwrap();
    let layout = LinkLayout::new(&script, &objs, &graph).unwrap();
    assert_eq!(layout.segment(SegIdx::new(1)).start(), 0x0204);
    assert_eq!(layout.memory(MemIdx::new(0)).output_len(), 4);
    assert_eq!(link(&script, &objs).err(), Some(LinkError::OutputOutOfRange));
    let straddling = "memory { RAM: start=$0200, size=5, fill=yes; } \
                      segments { BSS: load=RAM, type=bss; CODE: load=RAM; }";
    let script = LinkScript::load(straddling, "a.out").unwrap();
    assert_eq!(link(&script, &objs).err(), Some(LinkError::OutputOutOfRange));
    let within = "memory { RAM: start=$0200, size=6, fill=yes; } \
                  segments { BSS: load=RAM, type=bss; CODE: load=RAM; }";
    let script = LinkScript::load(within, "a.out").unwrap();
    assert_eq!(bodies(&script, &objs), vec![vec![0, 0, 0, 0, 0xAA, 0xBB]]);
}

#[test]
fn import_index_formats_as_decimal() {
    assert_eq!(ObjImportIdx::new(17).to_string(), "17");
    assert_eq!(ObjImportIdx::new(17).get(), 17);
}

#[test]
fn segment_gives_what_its_sections_give() {
    let mut bss = segment("BSS", 0);
    bss.bss = true;
    let script = script(
        vec![memory("RAM", 0x0200, 0x20)],
        vec![segment("CODE", 0), bss, segment("DATA", 0)],
    );
    let objs = vec![
        object(
            &["CODE", "BSS", "DATA"],
            vec![
                section(0, 3, vec![Fragment::Fill(3)]),
                section(1, 5, vec![]),
                section(2, 2, vec![Fragment::Fill(2)]),
                section(0, 4, vec![Fragment::Fill(4)]),
                section(1, 1, vec![]),
            ],
            vec![],
            vec![],
        ),
    ];
    let graph = LinkGraph::new(&script, &objs).unwrap();
    let layout = LinkLayout::new(&script, &objs, &graph).unwrap();
    let mut total = 0;
    for g in 0..graph.seg_count() {
        let seg = SegIdx::new(g);
        let sum: usize = graph.seg_to_sects(seg).iter().map(|s| layout.section(*s).output_len()).sum();
        assert_eq!(layout.segment(seg).output_len(), sum);
        total += sum;
    }
    assert_eq!(total, 9);
    assert!(total <= script.memory(MemIdx::new(0)).len());
    assert_eq!(layout.segment(SegIdx::new(0)).output_len(), 7);
    assert_eq!(layout.segment(SegIdx::new(1)).output_len(), 0);
    assert_eq!(layout.segment(SegIdx::new(2)).output_len(), 2);
}

#[test]
fn address_never_falls_and_bss_takes_addresses() {
    let mut bss = segment("BSS", 0);
    bss.bss = true;
    let script = script(
        vec![memory("RAM", 0x0200, 0x20)],
        vec![segment("CODE", 0), bss, segment("DATA", 0)],
    );
    let objs = vec![
        object(
            &["CODE", "BSS", "DATA"],
            vec![
                section(0, 3, vec![Fragment::Fill(3)]),
                section(1, 5, vec![]),
                section(2, 2, vec![Fragment::Fill(2)]),
                section(0, 4, vec![Fragment::Fill(4)]),
                section(1, 1, vec![]),
            ],
            vec![],
            vec![],
        ),
    ];
    let graph = LinkGraph::new(&script, &objs).unwrap();
    let layout = LinkLayout::new(&script, &objs, &graph).unwrap();
    let starts: Vec<usize> = (0..5).map(|s| layout.section(SectIdx::new(s)).start()).collect();
    // CODE holds sections 0 and 3, BSS 1 and 4, DATA 2.
    assert_eq!(starts, vec![0x200, 0x207, 0x20D, 0x203, 0x20C]);
    assert_eq!(layout.segment(SegIdx::new(0)).start(), 0x200);
    assert_eq!(layout.segment(SegIdx::new(1)).start(), 0x207);
    assert_eq!(layout.segment(SegIdx::new(2)).start(), 0x20D);
    assert_eq!(layout.section(SectIdx::new(1)).output_len(), 0);
    assert_eq!(layout.section(SectIdx::new(4)).output_len(), 0);
    assert!(layout.section(SectIdx::new(1)).output_is_empty());
    assert!(layout.segment(SegIdx::new(1)).output_is_empty());
    assert!(!layout.memory(MemIdx::new(0)).output_is_empty());
    assert_eq!(layout.memory(MemIdx::new(0)).fill_byte(), 0);
    assert_eq!(layout.segment(SegIdx::new(0)).fill_byte(), None);
    assert_eq!(layout.section_count(), 5);
}

#[test]
fn file_is_emitted_from_the_stages() {
    let mut mem = memory("ROM", 0x8000, 4);
    mem.filled = true;
    mem.fill_byte = 0xEA;
    let script = script(vec![mem], vec![segment("CODE", 0)]);
    let objs = vec![
        object(
            &["CODE"],
            vec![section(0, 2, vec![Fragment::ExprI16(Expr::Literal { value: -2 })])],
            vec![],
            vec![],
        ),
    ];
    let graph = LinkGraph::new(&script, &objs).unwrap();
    let layout = LinkLayout::new(&script, &objs, &graph).unwrap();
    let symbols = ld65::link::symbol::SymbolTable::new(&objs, &graph, &layout).unwrap();
    let body = ld65::link::emit::emit_file(&objs, &graph, &layout, &symbols, OutFileIdx::new(0)).unwrap();
    assert_eq!(body, vec![0xFE, 0xFF, 0xEA, 0xEA]);
    let region = ld65::link::emit::emit_memory(&objs, &graph, &layout, &symbols, MemIdx::new(0), vec![1, 2, 3, 4]);
    assert_eq!(region, Ok(vec![0xFE, 0xFF, 3, 4]));
    let seg = ld65::link::emit::emit_segment(&objs, &graph, &layout, &symbols, SegIdx::new(0), 7, vec![1, 2]);
    assert_eq!(seg, Ok(vec![0xFE, 0xFF]));
    let sect = ld65::link::emit::emit_section(
        &objs,
        &graph,
        &layout,
        &symbols,
        ObjIdx::new(0),
        ObjSectIdx::new(0),
        7,
        vec![1, 2, 3],
    );
    assert_eq!(sect, Ok(vec![0xFE, 0xFF, 3]));
}

#[test]
fn addresses_beyond_the_machine_word_are_refused() {
    let mut bss = segment("BSS", 0);
    bss.bss = true;
    let script = script(vec![memory("RAM", usize::MAX - 3, 4)], vec![bss]);
    let fits = vec![object(&["BSS"], vec![section(0, 3, vec![])], vec![], vec![])];
    let graph = LinkGraph::new(&script, &fits).unwrap();
    assert!(LinkLayout::new(&script, &fits, &graph).is_ok());
    let objs = vec![object(&["BSS"], vec![section(0, 8, vec![])], vec![], vec![])];
    let graph = LinkGraph::new(&script, &objs).unwrap();
    assert_eq!(
        LinkLayout::new(&script, &objs, &graph).err(),
        Some(LinkError::AddressOverflow { mem: MemIdx::new(0) })
    );
}

#[test]
fn file_longer_than_the_machine_word_is_refused() {
    let mut first = LinkScriptMemory::new("A".to_owned(), NonemptyRange::from_min_max(1, usize::MAX));
    first.filled = true;
    let mut second = memory("B", 0, 2);
    second.filled = true;
    let script = script(vec![first, second], vec![]);
    let objs: Vec<Object> = vec![];
    let graph = LinkGraph::new(&script, &objs).unwrap();
    assert_eq!(
        LinkLayout::new(&script, &objs, &graph).err(),
        Some(LinkError::AddressOverflow { mem: MemIdx::new(1) })
    );
}
