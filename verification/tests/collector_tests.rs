use simple_cells::automata::Automata;
use simple_cells::collector::Collector;
use simple_cells::engine::row_bytes;
use simple_cells::error::{AutomataError, ErrorKind};
use simple_cells::field::Field;
use simple_cells::scheduler::{first_row, next_row};

#[test]
fn collects_rows_in_any_order() {
    let field = Field::new(12, 3);
    let mut collector = Collector::new(&field);
    assert!(!collector.complete());
    assert_eq!(collector.accept(2, &vec![0x21, 0x02]), Ok(()));
    assert!(!collector.complete());
    assert_eq!(collector.accept(0, &vec![0x01, 0x00]), Ok(()));
    assert!(!collector.complete());
    assert_eq!(collector.accept(1, &vec![0x11, 0x01]), Ok(()));
    assert!(collector.complete());
    assert_eq!(collector.into_bytes(), vec![0x01, 0x00, 0x11, 0x01, 0x21, 0x02]);
}

#[test]
fn rejects_rows_that_are_not_missing() {
    let row_error = Err(AutomataError { kind: ErrorKind::Row });
    let field = Field::new(12, 2);
    let mut collector = Collector::new(&field);
    assert_eq!(collector.accept(2, &vec![0, 0]), row_error);
    assert_eq!(collector.accept(0, &vec![0]), row_error);
    assert_eq!(collector.accept(0, &vec![0, 0, 0]), row_error);
    assert_eq!(collector.accept(0, &vec![7, 1]), Ok(()));
    assert_eq!(collector.accept(0, &vec![9, 9]), row_error);
    assert!(!collector.complete());
    assert_eq!(collector.accept(1, &vec![8, 2]), Ok(()));
    assert!(collector.complete());
    assert_eq!(collector.accept(1, &vec![8, 2]), row_error);
    assert_eq!(collector.into_bytes(), vec![7, 1, 8, 2]);
}

#[test]
fn a_grid_without_rows_is_complete_at_once() {
    let collector = Collector::new(&Field::new(12, 0));
    assert!(collector.complete());
    assert_eq!(collector.into_bytes(), Vec::<u8>::new());
}

#[test]
fn rows_missing_are_zero() {
    let mut collector = Collector::new(&Field::new(8, 3));
    assert_eq!(collector.accept(1, &vec![0xaa]), Ok(()));
    assert_eq!(collector.into_bytes(), vec![0x00, 0xaa, 0x00]);
}

#[test]
fn collected_and_adopted_is_played() {
    let mut seed = vec![vec![0u8; 3]; 9];
    seed[3][0] = 0b0011_1000;
    seed[4][1] = 0b0000_0111;
    seed[8][2] = 0b0000_0011;
    seed[7][2] = 0b0000_0011;
    for rulestring in ["B3/S23", "B0/S8", "B36/S23"] {
        let mut played = Automata::new(18, 9, rulestring, &seed, 1).unwrap();
        let mut collected = Automata::new(18, 9, rulestring, &seed, 4).unwrap();
        for _ in 0..5 {
            played.play(1);
            let mut collector = Collector::new(collected.current());
            // The workers in turn, the last one first.
            for worker in (0..4).rev() {
                let mut row = first_row(worker, 4, 9);
                while let Some(y) = row {
                    let bytes = row_bytes(collected.current(), collected.table(), y);
                    assert_eq!(collector.accept(y, &bytes), Ok(()));
                    row = next_row(y, 4, 9);
                }
            }
            assert!(collector.complete());
            assert_eq!(collected.adopt(&collector.into_bytes()), Ok(()));
            assert_eq!(played.current().data(), collected.current().data());
        }
    }
}
