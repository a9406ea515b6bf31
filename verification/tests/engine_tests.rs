use simple_cells::engine::{gather, row_bytes, step_byte, step_row};
use simple_cells::field::Field;
use simple_cells::scheduler::{first_row, next_row, run, run_worker};
use simple_cells::table::Table;

fn field_with(w: usize, h: usize, cells: &[(usize, usize)]) -> Field {
    let mut field = Field::new(w, h);
    for &(x, y) in cells {
        field.set(x, y, true);
    }
    field
}

#[test]
fn gather_packs_the_window_row_by_row() {
    let field = field_with(8, 4, &[(1, 0), (2, 1), (3, 1), (4, 2), (1, 2)]);
    // The pair at columns 2 and 3 of row 1: the window's columns are 1 to
    // 4, its rows 0 to 2.
    //   row 0: 1 0 0 0
    //   row 1: 0 1 1 0
    //   row 2: 1 0 0 1
    assert_eq!(gather(&field, 2, 1), 0b1001_0110_0001);
}

#[test]
fn gather_reads_dead_cells_beyond_the_grid() {
    let mut field = Field::new(3, 2);
    for y in 0..2 {
        for x in 0..3 {
            field.set(x, y, true);
        }
    }
    // The pair at columns 0 and 1 of row 0: the window's column 0 and row 0
    // lie outside.
    assert_eq!(gather(&field, 0, 0), 0b1110_1110_0000);
    // The pair at columns 2 and 3 of row 1: column 3 and 4 and row 2 lie
    // outside.
    assert_eq!(gather(&field, 2, 1), 0b0000_0011_0011);
    // The pair at columns 6 and 7: all outside.
    assert_eq!(gather(&field, 6, 1), 0);
}

#[test]
fn gather_does_not_read_the_margin() {
    let mut field = Field::new(3, 1);
    field.put_byte(0, 0, 0xff);
    assert_eq!(gather(&field, 2, 0), 0b0000_0011_0000);
    assert_eq!(gather(&field, 4, 0), 0);
}

#[test]
fn step_byte_gives_eight_cells() {
    let table = Table::new(0x08, 0x0c);
    let field = field_with(8, 3, &[(2, 1), (3, 1), (4, 1)]);
    assert_eq!(step_byte(&field, &table, 0, 0), 0b0000_1000);
    assert_eq!(step_byte(&field, &table, 0, 1), 0b0000_1000);
    assert_eq!(step_byte(&field, &table, 0, 2), 0b0000_1000);
}

#[test]
fn row_bytes_gives_a_whole_row() {
    let table = Table::new(0x08, 0x0c);
    let field = field_with(12, 3, &[(7, 0), (8, 0), (9, 0)]);
    assert_eq!(row_bytes(&field, &table, 0), vec![0x00, 0x01]);
    assert_eq!(row_bytes(&field, &table, 1), vec![0x00, 0x01]);
    assert_eq!(row_bytes(&field, &table, 2), vec![0x00, 0x00]);
}

#[test]
fn step_row_writes_one_row() {
    let table = Table::new(0x08, 0x0c);
    let source = field_with(12, 3, &[(7, 0), (8, 0), (9, 0)]);
    let mut target = Field::new(12, 3);
    target.put_byte(0, 0, 0x55);
    target.put_byte(1, 2, 0x0a);
    step_row(&source, &table, &mut target, 1);
    assert_eq!(target.data(), &vec![0x55, 0x00, 0x00, 0x01, 0x00, 0x0a]);
    step_row(&source, &table, &mut target, 0);
    assert_eq!(target.data(), &vec![0x00, 0x01, 0x00, 0x01, 0x00, 0x0a]);
}

#[test]
fn worker_computes_its_rows_only() {
    let table = Table::new(0x01, 0x00);
    let source = Field::new(8, 7);
    let mut target = Field::new(8, 7);
    run_worker(&source, &mut target, &table, 1, 3);
    assert_eq!(target.data(), &vec![0x00, 0xff, 0x00, 0x00, 0xff, 0x00, 0x00]);
    run_worker(&source, &mut target, &table, 0, 3);
    assert_eq!(target.data(), &vec![0xff, 0xff, 0x00, 0xff, 0xff, 0x00, 0xff]);
    run_worker(&source, &mut target, &table, 2, 3);
    assert_eq!(target.data(), &vec![0xff; 7]);
}

#[test]
fn worker_without_rows_does_nothing() {
    let table = Table::new(0x01, 0x00);
    let source = Field::new(8, 2);
    let mut target = Field::new(8, 2);
    run_worker(&source, &mut target, &table, 5, 9);
    assert_eq!(target.data(), &vec![0x00, 0x00]);
}

#[test]
fn run_overwrites_the_whole_target() {
    let table = Table::new(0x08, 0x0c);
    let source = field_with(10, 10, &[(4, 5), (5, 5), (6, 5)]);
    for parallelism in [1, 2, 3, 10, 11, 1000] {
        let mut target = Field::new(10, 10);
        for y in 0..10 {
            target.put_byte(0, y, 0xff);
            target.put_byte(1, y, 0xff);
        }
        run(&source, &mut target, &table, parallelism);
        for y in 0..10 {
            for x in 0..10 {
                assert_eq!(target.get(x, y), x == 5 && y >= 4 && y <= 6);
            }
        }
    }
}

#[test]
fn rows_of_a_worker() {
    assert_eq!(first_row(0, 3, 7), Some(0));
    assert_eq!(first_row(2, 3, 7), Some(2));
    assert_eq!(first_row(2, 3, 2), None);
    assert_eq!(first_row(0, 1, 0), None);
    assert_eq!(next_row(0, 3, 7), Some(3));
    assert_eq!(next_row(3, 3, 7), Some(6));
    assert_eq!(next_row(6, 3, 7), None);
    assert_eq!(next_row(1, 3, 7), Some(4));
    assert_eq!(next_row(4, 3, 7), None);
    assert_eq!(next_row(5, usize::MAX, 7), None);
    assert_eq!(next_row(usize::MAX - 2, 2, usize::MAX), None);
}

#[test]
fn rows_of_all_workers_are_all_rows_once() {
    for &(parallelism, h) in &[(1usize, 5usize), (4, 10), (3, 3), (7, 4), (5, 0)] {
        let mut seen = vec![0; h];
        for worker in 0..parallelism {
            let mut row = first_row(worker, parallelism, h);
            while let Some(y) = row {
                assert_eq!(y % parallelism, worker);
                seen[y] += 1;
                row = next_row(y, parallelism, h);
            }
        }
        assert_eq!(seen, vec![1; h]);
    }
}
