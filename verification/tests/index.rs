use ld65::decimal::decimal_string;
use ld65::index::{MemIdx, ObjIdx, ObjImportIdx, ObjSectIdx, ObjStrIdx, OutFileIdx, SectIdx, SegIdx};

#[test]
fn numbers_are_written_in_decimal_digits() {
    assert_eq!(decimal_string(0), "0");
    assert_eq!(decimal_string(7), "7");
    assert_eq!(decimal_string(10), "10");
    assert_eq!(decimal_string(909), "909");
    assert_eq!(decimal_string(1234567890), "1234567890");
    assert_eq!(decimal_string(usize::MAX), format!("{}", usize::MAX));
}

#[test]
fn every_position_is_written_as_its_number() {
    for n in [0usize, 9, 10, 65535, usize::MAX] {
        let digits = format!("{n}");
        assert_eq!(OutFileIdx::new(n).to_string(), digits);
        assert_eq!(MemIdx::new(n).to_string(), digits);
        assert_eq!(SegIdx::new(n).to_string(), digits);
        assert_eq!(SectIdx::new(n).to_string(), digits);
        assert_eq!(ObjIdx::new(n).to_string(), digits);
        assert_eq!(ObjSectIdx::new(n).to_string(), digits);
        assert_eq!(ObjImportIdx::new(n).to_string(), digits);
        assert_eq!(ObjStrIdx::new(n).to_string(), digits);
    }
}

#[test]
fn positions_hold_the_number_they_were_made_of() {
    assert_eq!(OutFileIdx::new(3).get(), 3);
    assert_eq!(MemIdx::new(4).get(), 4);
    assert_eq!(SegIdx::new(5).get(), 5);
    assert_eq!(SectIdx::new(6).get(), 6);
    assert_eq!(ObjIdx::new(7).get(), 7);
    assert_eq!(ObjSectIdx::new(8).get(), 8);
    assert_eq!(ObjImportIdx::new(9).get(), 9);
    assert_eq!(ObjStrIdx::new(10).get(), 10);
    assert!(SegIdx::new(1) < SegIdx::new(2));
    assert_eq!(SegIdx::new(2), SegIdx::new(2));
}
