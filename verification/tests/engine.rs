use limbo_engine::{
    CmpOp, Connection, Cursor, EngineError, Opcode, Program, Row, RowResult, SeekOp, Value,
};
use rand_chacha::rand_core::{RngCore, SeedableRng};
use rand_chacha::ChaCha8Rng;

const FUEL: usize = 1_000_000;

fn row1(v: Value) -> Row {
    Row { values: vec![v] }
}

/// A program that scans the whole table, yielding each key.
fn scan_program() -> Program {
    Program {
        ops: vec![
            Opcode::Rewind { cursor: 0, on_empty: 5 },
            Opcode::RowId { cursor: 0, dst: 0 },
            Opcode::ResultRow { start: 0, len: 1 },
            Opcode::Next { cursor: 0, on_more: 1 },
            Opcode::Halt,
            Opcode::Halt,
        ],
        n_regs: 1,
        n_cursors: 1,
    }
}

/// A program that seeks a key and scans forward from it, yielding keys.
fn seek_scan_program(key: i64) -> Program {
    Program {
        ops: vec![
            Opcode::LoadConst { value: Value::Integer(key), dst: 0 },
            Opcode::SeekKey { cursor: 0, op: SeekOp::Eq, key_reg: 0, on_miss: 6 },
            Opcode::RowId { cursor: 0, dst: 1 },
            Opcode::ResultRow { start: 1, len: 1 },
            Opcode::Next { cursor: 0, on_more: 2 },
            Opcode::Halt,
            Opcode::Halt,
        ],
        n_regs: 2,
        n_cursors: 1,
    }
}

fn collect_keys(conn: &mut Connection, prog: Program) -> Vec<i64> {
    let mut stmt = conn.prepare(prog).expect("program must validate");
    let mut keys = vec![];
    loop {
        match stmt.advance(conn, FUEL).expect("no error") {
            RowResult::Row(row) => match &row.values[0] {
                Value::Integer(k) => keys.push(*k),
                v => panic!("unexpected value {:?}", v),
            },
            RowResult::Done => break,
            r => panic!("unexpected result {:?}", r),
        }
    }
    keys
}

#[test]
fn empty_table_first_advance_is_done() {
    let mut conn = Connection::new();
    let mut stmt = conn.prepare(scan_program()).unwrap();
    assert_eq!(stmt.advance(&mut conn, FUEL), Ok(RowResult::Done));
}

#[test]
fn advance_after_done_stays_done() {
    let mut conn = Connection::new();
    let mut stmt = conn.prepare(scan_program()).unwrap();
    assert_eq!(stmt.advance(&mut conn, FUEL), Ok(RowResult::Done));
    for _ in 0..5 {
        assert_eq!(stmt.advance(&mut conn, FUEL), Ok(RowResult::Done));
    }
}

#[test]
fn random_order_inserts_seek_then_ordered_scan() {
    let mut conn = Connection::new();
    let mut keys: Vec<i64> = (1..=1000).collect();
    let mut rng = ChaCha8Rng::seed_from_u64(7);
    for i in (1..keys.len()).rev() {
        let j = (rng.next_u64() % (i as u64 + 1)) as usize;
        keys.swap(i, j);
    }
    conn.begin();
    for &k in &keys {
        conn.insert_row(k, row1(Value::Integer(k * 10)));
    }
    conn.commit().unwrap();

    // exactly one match for key 500
    assert_eq!(conn.table().seek(500, SeekOp::Eq), Some(499));
    assert_eq!(conn.table().seek(500, SeekOp::Gt), Some(500));

    // a forward scan from the match yields 500, 501, 502, ... in order
    let got = collect_keys(&mut conn, seek_scan_program(500));
    let want: Vec<i64> = (500..=1000).collect();
    assert_eq!(got, want);
}

#[test]
fn full_scan_ascending_after_mixed_inserts_and_deletes() {
    let mut conn = Connection::new();
    conn.begin();
    for k in [5i64, 1, 9, 3, 7, 2, 8, 4, 6, 10, -2, 0] {
        conn.insert_row(k, row1(Value::Integer(k)));
    }
    assert!(conn.delete_row(3));
    assert!(conn.delete_row(9));
    assert!(!conn.delete_row(42));
    conn.insert_row(3, row1(Value::Null));
    conn.commit().unwrap();
    let got = collect_keys(&mut conn, scan_program());
    assert_eq!(got, vec![-2, 0, 1, 2, 3, 4, 5, 6, 7, 8, 10]);
    for w in got.windows(2) {
        assert!(w[0] < w[1]);
    }
}

#[test]
fn value_round_trip_through_pages_for_every_variant() {
    let mut conn = Connection::new();
    let row = Row {
        values: vec![
            Value::Null,
            Value::Integer(-7),
            Value::Float((3.25f64).to_bits()),
            Value::Text(b"hello".to_vec()),
            Value::Blob(vec![0, 255, 1, 128]),
        ],
    };
    conn.begin();
    conn.insert_row(1, row.clone());
    conn.commit().unwrap();
    // reopen from the pages, so the row is decoded from storage
    conn.crash_recover();
    let i = conn.table().seek(1, SeekOp::Eq).expect("row must be found");
    let back = conn.table().row_at(i);
    assert_eq!(back, row);
}

#[test]
fn uncommitted_row_absent_after_crash() {
    let mut conn = Connection::new();
    conn.begin();
    conn.insert_row(1, row1(Value::Integer(10)));
    conn.crash_recover();
    assert_eq!(conn.table().len(), 0);
}

#[test]
fn crash_between_page_writes_keeps_old_state_entirely() {
    let mut conn = Connection::new();
    conn.begin();
    conn.insert_row(1, row1(Value::Integer(10)));
    conn.commit().unwrap();

    // a second transaction whose commit is interrupted
    conn.begin();
    for k in 2..=40 {
        conn.insert_row(k, row1(Value::Integer(k)));
    }
    conn.commit_start().unwrap();
    let total = conn.pending_ops();
    assert!(total > 2);
    // perform every node write but not the marker
    for _ in 0..total - 1 {
        conn.io_step();
    }
    conn.crash_recover();
    let got = collect_keys(&mut conn, scan_program());
    assert_eq!(got, vec![1]);

    // the same commit performed fully is wholly visible after a crash
    conn.begin();
    for k in 2..=40 {
        conn.insert_row(k, row1(Value::Integer(k)));
    }
    conn.commit().unwrap();
    conn.crash_recover();
    let got = collect_keys(&mut conn, scan_program());
    let want: Vec<i64> = (1..=40).collect();
    assert_eq!(got, want);
}

#[test]
fn rollback_discards_the_dirty_set() {
    let mut conn = Connection::new();
    conn.begin();
    conn.insert_row(1, row1(Value::Integer(1)));
    conn.commit().unwrap();
    conn.begin();
    conn.insert_row(2, row1(Value::Integer(2)));
    assert!(conn.delete_row(1));
    conn.rollback();
    let got = collect_keys(&mut conn, scan_program());
    assert_eq!(got, vec![1]);
}

#[test]
fn cacheflush_makes_rows_durable_without_ending_scope() {
    let mut conn = Connection::new();
    conn.begin();
    conn.insert_row(4, row1(Value::Integer(4)));
    conn.cacheflush().unwrap();
    assert!(conn.is_in_tx());
    conn.crash_recover();
    let got = collect_keys(&mut conn, scan_program());
    assert_eq!(got, vec![4]);
}

#[test]
fn vm_program_with_transaction_and_commit() {
    let mut conn = Connection::new();
    let prog = Program {
        ops: vec![
            Opcode::Begin,
            Opcode::LoadConst { value: Value::Integer(42), dst: 0 },
            Opcode::LoadConst { value: Value::Text(b"answer".to_vec()), dst: 1 },
            Opcode::Insert { key_reg: 0, start: 1, len: 1 },
            Opcode::Commit,
            Opcode::Halt,
        ],
        n_regs: 2,
        n_cursors: 0,
    };
    let mut stmt = conn.prepare(prog).unwrap();
    assert_eq!(stmt.advance(&mut conn, FUEL), Ok(RowResult::Done));
    assert!(!conn.is_in_tx());
    conn.crash_recover();
    let i = conn.table().seek(42, SeekOp::Eq).expect("committed row survives a crash");
    assert_eq!(conn.table().row_at(i).values, vec![Value::Text(b"answer".to_vec())]);
}

#[test]
fn prepare_rejects_out_of_bounds_operands() {
    let conn = Connection::new();
    let bad = Program {
        ops: vec![Opcode::LoadConst { value: Value::Null, dst: 3 }, Opcode::Halt],
        n_regs: 2,
        n_cursors: 0,
    };
    assert!(matches!(conn.prepare(bad), Err(EngineError::Execution)));
    let bad_jump = Program { ops: vec![Opcode::Goto { target: 9 }], n_regs: 0, n_cursors: 0 };
    assert!(matches!(conn.prepare(bad_jump), Err(EngineError::Execution)));
}

#[test]
fn mutation_outside_a_transaction_is_an_execution_error() {
    let mut conn = Connection::new();
    let prog = Program {
        ops: vec![
            Opcode::LoadConst { value: Value::Integer(1), dst: 0 },
            Opcode::Insert { key_reg: 0, start: 0, len: 1 },
            Opcode::Halt,
        ],
        n_regs: 1,
        n_cursors: 0,
    };
    let mut stmt = conn.prepare(prog).unwrap();
    assert_eq!(stmt.advance(&mut conn, FUEL), Err(EngineError::Execution));
}

#[test]
fn column_on_unpositioned_cursor_is_an_execution_error() {
    let mut conn = Connection::new();
    let prog = Program {
        ops: vec![Opcode::Column { cursor: 0, col: 0, dst: 0 }, Opcode::Halt],
        n_regs: 1,
        n_cursors: 1,
    };
    let mut stmt = conn.prepare(prog).unwrap();
    assert_eq!(stmt.advance(&mut conn, FUEL), Err(EngineError::Execution));
}

#[test]
fn step_budget_exhaustion_reports_busy() {
    let mut conn = Connection::new();
    let prog = Program { ops: vec![Opcode::Goto { target: 0 }], n_regs: 0, n_cursors: 0 };
    let mut stmt = conn.prepare(prog).unwrap();
    assert_eq!(stmt.advance(&mut conn, 10), Ok(RowResult::Busy));
}

#[test]
fn reset_reruns_the_compiled_program() {
    let mut conn = Connection::new();
    conn.begin();
    conn.insert_row(1, row1(Value::Integer(1)));
    conn.insert_row(2, row1(Value::Integer(2)));
    conn.commit().unwrap();
    let mut stmt = conn.prepare(scan_program()).unwrap();
    let mut first = vec![];
    loop {
        match stmt.advance(&mut conn, FUEL).unwrap() {
            RowResult::Row(row) => first.push(row.values[0].clone()),
            RowResult::Done => break,
            r => panic!("unexpected {:?}", r),
        }
    }
    stmt.reset();
    let mut second = vec![];
    loop {
        match stmt.advance(&mut conn, FUEL).unwrap() {
            RowResult::Row(row) => second.push(row.values[0].clone()),
            RowResult::Done => break,
            r => panic!("unexpected {:?}", r),
        }
    }
    assert_eq!(first, second);
    assert_eq!(first.len(), 2);
}

#[test]
fn comparison_branches_follow_the_value_order() {
    let mut conn = Connection::new();
    // yields the greater of 3 and 2.5 by branching on the comparison
    let prog = Program {
        ops: vec![
            Opcode::LoadConst { value: Value::Integer(3), dst: 0 },
            Opcode::LoadConst { value: Value::Float((2.5f64).to_bits()), dst: 1 },
            Opcode::CmpBranch { lhs: 0, rhs: 1, op: CmpOp::Gt, target: 4 },
            Opcode::ResultRow { start: 1, len: 1 },
            Opcode::ResultRow { start: 0, len: 1 },
            Opcode::Halt,
        ],
        n_regs: 2,
        n_cursors: 0,
    };
    let mut stmt = conn.prepare(prog).unwrap();
    match stmt.advance(&mut conn, FUEL).unwrap() {
        RowResult::Row(row) => assert_eq!(row.values, vec![Value::Integer(3)]),
        r => panic!("unexpected {:?}", r),
    }
}

#[test]
fn seek_variants_position_as_specified() {
    let mut conn = Connection::new();
    conn.begin();
    for k in [10i64, 20, 30] {
        conn.insert_row(k, row1(Value::Integer(k)));
    }
    conn.commit().unwrap();
    let t = conn.table();
    assert_eq!(t.seek(20, SeekOp::Eq), Some(1));
    assert_eq!(t.seek(21, SeekOp::Eq), None);
    assert_eq!(t.seek(21, SeekOp::Ge), Some(2));
    assert_eq!(t.seek(20, SeekOp::Gt), Some(2));
    assert_eq!(t.seek(30, SeekOp::Gt), None);
    assert_eq!(t.seek(20, SeekOp::Le), Some(1));
    assert_eq!(t.seek(20, SeekOp::Lt), Some(0));
    assert_eq!(t.seek(10, SeekOp::Lt), None);
}

#[test]
fn cursor_walk_matches_table_order() {
    let mut conn = Connection::new();
    conn.begin();
    for k in [2i64, 1, 3] {
        conn.insert_row(k, row1(Value::Integer(k)));
    }
    conn.commit().unwrap();
    let t = conn.table();
    let mut cur = Cursor::Unpositioned;
    t.rewind(&mut cur);
    let mut seen = vec![];
    while let Cursor::At(i) = cur {
        seen.push(t.key_at(i));
        t.advance_cursor(&mut cur);
    }
    assert_eq!(cur, Cursor::Exhausted);
    assert_eq!(seen, vec![1, 2, 3]);
    // walking back from the last entry
    let mut cur = Cursor::At(2);
    t.retreat_cursor(&mut cur);
    assert_eq!(cur, Cursor::At(1));
}

#[test]
fn next_row_surfaces_suspension_for_caller_pumping() {
    let mut conn = Connection::new();
    let prog = Program {
        ops: vec![
            Opcode::Begin,
            Opcode::LoadConst { value: Value::Integer(9), dst: 0 },
            Opcode::LoadConst { value: Value::Integer(90), dst: 1 },
            Opcode::Insert { key_reg: 0, start: 1, len: 1 },
            Opcode::Commit,
            Opcode::Halt,
        ],
        n_regs: 2,
        n_cursors: 0,
    };
    let mut stmt = conn.prepare(prog).unwrap();
    let mut suspensions = 0;
    loop {
        match stmt.next_row(&mut conn, FUEL).unwrap() {
            RowResult::IO => {
                suspensions += 1;
                while conn.pending_ops() > 0 {
                    conn.io_step();
                }
            }
            RowResult::Done => break,
            r => panic!("unexpected {:?}", r),
        }
    }
    assert!(suspensions >= 1);
    assert!(!conn.is_in_tx());
    assert_eq!(conn.table().seek(9, SeekOp::Eq), Some(0));
}
