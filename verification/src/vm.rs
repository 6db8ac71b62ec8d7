use vstd::prelude::*;
use crate::storage::Pager;
use crate::table::{Cursor, Row, SeekOp, Table, spec_delete, spec_insert, spec_seek};
use crate::value::{Cmp, Value, ValueS, cmp_value, value_cmp};

verus! {

/// The engine's error taxonomy: a medium failure (fatal to the active
/// transaction), a bytecode precondition violation (fatal to the program
/// only), and resource exhaustion.
#[derive(Clone, Copy, PartialEq, Eq, Structural, Debug)]
pub enum EngineError {
    StorageIo,
    Execution,
    Capacity,
}

/// How a comparison branch reads the outcome of a value comparison.
#[derive(Clone, Copy, PartialEq, Eq, Structural, Debug)]
pub enum CmpOp {
    Eq,
    Ne,
    Lt,
    Le,
    Gt,
    Ge,
}

pub open spec fn cmp_matches(c: Cmp, op: CmpOp) -> bool {
    match op {
        CmpOp::Eq => c is Equal,
        CmpOp::Ne => !(c is Equal),
        CmpOp::Lt => c is Less,
        CmpOp::Le => c is Less || c is Equal,
        CmpOp::Gt => c is Greater,
        CmpOp::Ge => !(c is Less),
    }
}

fn cmp_matches_exec(c: Cmp, op: CmpOp) -> (r: bool)
    ensures
        r == cmp_matches(c, op),
{
    match op {
        CmpOp::Eq => matches!(c, Cmp::Equal),
        CmpOp::Ne => !matches!(c, Cmp::Equal),
        CmpOp::Lt => matches!(c, Cmp::Less),
        CmpOp::Le => !matches!(c, Cmp::Greater),
        CmpOp::Gt => matches!(c, Cmp::Greater),
        CmpOp::Ge => !matches!(c, Cmp::Less),
    }
}

/// One instruction of a compiled program. Register, cursor and jump
/// operands are validated once, when the program is prepared, not per step.
pub enum Opcode {
    /// Stores a literal in a register.
    LoadConst { value: Value, dst: usize },
    /// Positions the cursor at the first entry; jumps when the table is
    /// empty.
    Rewind { cursor: usize, on_empty: usize },
    /// Positions the cursor by an ordered lookup for the integer key held
    /// in a register; jumps when nothing satisfies the comparison.
    SeekKey { cursor: usize, op: SeekOp, key_reg: usize, on_miss: usize },
    /// Steps the cursor forward; jumps while an entry remains.
    Next { cursor: usize, on_more: usize },
    /// Steps the cursor backward; jumps while an entry remains.
    Prev { cursor: usize, on_more: usize },
    /// Loads one column of the cursor's current row into a register.
    Column { cursor: usize, col: usize, dst: usize },
    /// Loads the cursor's current key into a register.
    RowId { cursor: usize, dst: usize },
    /// Yields the row held in a run of registers.
    ResultRow { start: usize, len: usize },
    /// Compares two registers under the engine's value order and jumps when
    /// the outcome matches.
    CmpBranch { lhs: usize, rhs: usize, op: CmpOp, target: usize },
    /// Inserts the row held in a run of registers under the integer key
    /// held in a register. Needs an open transaction.
    Insert { key_reg: usize, start: usize, len: usize },
    /// Deletes the entry the cursor stands on. Needs an open transaction.
    Delete { cursor: usize },
    Goto { target: usize },
    Begin,
    Commit,
    Rollback,
    Halt,
}

/// A compiled program: its instructions and the register and cursor counts
/// its frame needs.
pub struct Program {
    pub ops: Vec<Opcode>,
    pub n_regs: usize,
    pub n_cursors: usize,
}

pub open spec fn op_valid(op: Opcode, n_regs: int, n_cursors: int, n_ops: int) -> bool {
    match op {
        Opcode::LoadConst { dst, .. } => dst < n_regs,
        Opcode::Rewind { cursor, on_empty } => cursor < n_cursors && on_empty < n_ops,
        Opcode::SeekKey { cursor, key_reg, on_miss, .. } => cursor < n_cursors && key_reg < n_regs
            && on_miss < n_ops,
        Opcode::Next { cursor, on_more } => cursor < n_cursors && on_more < n_ops,
        Opcode::Prev { cursor, on_more } => cursor < n_cursors && on_more < n_ops,
        Opcode::Column { cursor, dst, .. } => cursor < n_cursors && dst < n_regs,
        Opcode::RowId { cursor, dst } => cursor < n_cursors && dst < n_regs,
        Opcode::ResultRow { start, len } => start + len <= n_regs,
        Opcode::CmpBranch { lhs, rhs, target, .. } => lhs < n_regs && rhs < n_regs && target
            < n_ops,
        Opcode::Insert { key_reg, start, len } => key_reg < n_regs && start + len <= n_regs,
        Opcode::Delete { cursor } => cursor < n_cursors,
        Opcode::Goto { target } => target < n_ops,
        _ => true,
    }
}

pub open spec fn prog_wf(p: Program) -> bool {
    forall|i: int|
        0 <= i < p.ops@.len() ==> op_valid(
            #[trigger] p.ops@[i],
            p.n_regs as int,
            p.n_cursors as int,
            p.ops@.len() as int,
        )
}

fn op_valid_exec(op: &Opcode, n_regs: usize, n_cursors: usize, n_ops: usize) -> (r: bool)
    ensures
        r == op_valid(*op, n_regs as int, n_cursors as int, n_ops as int),
{
    match op {
        Opcode::LoadConst { dst, .. } => *dst < n_regs,
        Opcode::Rewind { cursor, on_empty } => *cursor < n_cursors && *on_empty < n_ops,
        Opcode::SeekKey { cursor, key_reg, on_miss, .. } => *cursor < n_cursors && *key_reg
            < n_regs && *on_miss < n_ops,
        Opcode::Next { cursor, on_more } => *cursor < n_cursors && *on_more < n_ops,
        Opcode::Prev { cursor, on_more } => *cursor < n_cursors && *on_more < n_ops,
        Opcode::Column { cursor, dst, .. } => *cursor < n_cursors && *dst < n_regs,
        Opcode::RowId { cursor, dst } => *cursor < n_cursors && *dst < n_regs,
        Opcode::ResultRow { start, len } => *start <= n_regs && *len <= n_regs - *start,
        Opcode::CmpBranch { lhs, rhs, target, .. } => *lhs < n_regs && *rhs < n_regs && *target
            < n_ops,
        Opcode::Insert { key_reg, start, len } => *key_reg < n_regs && *start <= n_regs && *len
            <= n_regs - *start,
        Opcode::Delete { cursor } => *cursor < n_cursors,
        Opcode::Goto { target } => *target < n_ops,
        _ => true,
    }
}

/// The observable state of a connection, as contracts speak of it.
pub struct EngineObs {
    pub table: Seq<(int, Seq<ValueS>)>,
    pub durable: Seq<(int, Seq<ValueS>)>,
    pub in_tx: bool,
    pub committing: bool,
    pub queue_len: int,
    pub disk_len: int,
}

/// A connection: the pager below, the table the cursors walk, and the
/// at-most-one open transaction.
pub struct Connection {
    pager: Pager,
    store: Table,
    in_tx: bool,
}

impl Connection {
    pub closed spec fn obs(self) -> EngineObs {
        EngineObs {
            table: self.store@,
            durable: self.pager.durable(),
            in_tx: self.in_tx,
            committing: self.pager.committing(),
            queue_len: self.pager.queue_len(),
            disk_len: self.pager.disk_view().len() as int,
        }
    }

    /// Every reachable connection keeps a valid pager, a sorted table, a
    /// queued commit that matches the table it is committing, and — outside
    /// any transaction — a table equal to the committed state.
    pub closed spec fn wf(self) -> bool {
        &&& self.pager.inv()
        &&& self.store.wf()
        &&& (self.pager.committing() ==> self.pager.pending() == self.store@ && self.in_tx)
        &&& (!self.in_tx ==> self.store@ == self.pager.durable())
    }

    /// Opens a fresh, empty database.
    pub fn new() -> (c: Connection)
        ensures
            c.wf(),
            c.obs().table == Seq::<(int, Seq<ValueS>)>::empty(),
            c.obs().durable == Seq::<(int, Seq<ValueS>)>::empty(),
            !c.obs().in_tx,
            !c.obs().committing,
            c.obs().disk_len == 1,
            c.obs().queue_len == 0,
    {
        Connection { pager: Pager::new(), store: Table::new(), in_tx: false }
    }

    /// A read-only view of the table the connection's cursors walk.
    pub fn table(&self) -> (t: &Table)
        requires
            self.wf(),
        ensures
            t@ == self.obs().table,
            t.wf(),
    {
        &self.store
    }

    pub fn pending_ops(&self) -> (n: usize)
        ensures
            n as int == self.obs().queue_len,
    {
        self.pager.pending_writes()
    }

    pub fn is_in_tx(&self) -> (b: bool)
        ensures
            b == self.obs().in_tx,
    {
        self.in_tx
    }

    /// Opens a transaction.
    pub fn begin(&mut self)
        requires
            old(self).wf(),
            !old(self).obs().in_tx,
        ensures
            final(self).wf(),
            final(self).obs() == (EngineObs { in_tx: true, ..old(self).obs() }),
    {
        self.in_tx = true;
    }

    /// Inserts (or replaces) the row under `key`, inside an open
    /// transaction.
    pub fn insert_row(&mut self, key: i64, row: Row)
        requires
            old(self).wf(),
            old(self).obs().in_tx,
            !old(self).obs().committing,
        ensures
            final(self).wf(),
            final(self).obs() == (EngineObs {
                table: spec_insert(old(self).obs().table, key as int, row@),
                ..old(self).obs()
            }),
    {
        self.store.insert(key, row);
    }

    /// Deletes the row under `key`, inside an open transaction; reports
    /// whether one was there.
    pub fn delete_row(&mut self, key: i64) -> (removed: bool)
        requires
            old(self).wf(),
            old(self).obs().in_tx,
            !old(self).obs().committing,
        ensures
            final(self).wf(),
            final(self).obs() == (EngineObs {
                table: spec_delete(old(self).obs().table, key as int),
                ..old(self).obs()
            }),
            removed == (spec_seek(old(self).obs().table, key as int, SeekOp::Eq) is Some),
    {
        self.store.delete(key)
    }

    /// Submits a commit of the current table: one write per fresh node
    /// page, then the marker. Fails with `Capacity` exactly when the page
    /// file cannot address the snapshot.
    pub fn commit_start(&mut self) -> (r: Result<(), EngineError>)
        requires
            old(self).wf(),
            old(self).obs().in_tx,
            !old(self).obs().committing,
        ensures
            final(self).wf(),
            match r {
                Ok(()) => final(self).obs() == (EngineObs {
                    committing: true,
                    queue_len: final(self).obs().queue_len,
                    ..old(self).obs()
                }) && final(self).obs().queue_len >= 1,
                Err(e) => e == EngineError::Capacity && *final(self) == *old(self),
            },
            (r is Err) == (old(self).obs().disk_len + 3 * old(self).obs().table.len() + 1
                > usize::MAX),
    {
        let disk_len = self.pager.disk_len();
        let n = self.store.len();
        if (disk_len as u128) + 3 * (n as u128) + 1 > (usize::MAX as u128) {
            return Err(EngineError::Capacity);
        }
        self.pager.commit_begin(&self.store);
        Ok(())
    }

    /// Performs the oldest submitted write, or simply returns when nothing
    /// is pending; the committed state changes only when the performed
    /// write is the marker, which is always last.
    pub fn io_step(&mut self)
        requires
            old(self).wf(),
        ensures
            final(self).wf(),
            old(self).obs().committing ==> io_effect(old(self).obs(), final(self).obs()),
            !old(self).obs().committing ==> final(self).obs() == old(self).obs(),
    {
        if self.pager.pending_writes() > 0 {
            self.pager.drive();
        }
    }

    /// Ends the transaction once its commit has fully drained.
    pub fn end_tx(&mut self)
        requires
            old(self).wf(),
            old(self).obs().in_tx,
            !old(self).obs().committing,
            old(self).obs().table == old(self).obs().durable,
        ensures
            final(self).wf(),
            final(self).obs() == (EngineObs { in_tx: false, ..old(self).obs() }),
    {
        self.in_tx = false;
    }

    /// Commits synchronously: submits the snapshot and pumps the scheduler
    /// until the marker is durable.
    pub fn commit(&mut self) -> (r: Result<(), EngineError>)
        requires
            old(self).wf(),
            old(self).obs().in_tx,
            !old(self).obs().committing,
        ensures
            final(self).wf(),
            match r {
                Ok(()) => !final(self).obs().in_tx && !final(self).obs().committing
                    && final(self).obs().durable == old(self).obs().table
                    && final(self).obs().table == old(self).obs().table,
                Err(e) => e == EngineError::Capacity && *final(self) == *old(self),
            },
            (r is Err) == (old(self).obs().disk_len + 3 * old(self).obs().table.len() + 1
                > usize::MAX),
    {
        match self.commit_start() {
            Ok(()) => {
                let mut pending = self.pending_ops();
                while pending > 0
                    invariant
                        self.wf(),
                        self.obs().in_tx,
                        self.obs().table == old(self).obs().table,
                        pending as int == self.obs().queue_len,
                        !self.obs().committing ==> self.obs().durable == old(self).obs().table,
                    decreases pending,
                {
                    self.io_step();
                    pending = pending - 1;
                }
                self.end_tx();
                Ok(())
            },
            Err(e) => Err(e),
        }
    }

    /// Writes the table out without ending the transaction's logical scope.
    pub fn cacheflush(&mut self) -> (r: Result<(), EngineError>)
        requires
            old(self).wf(),
            old(self).obs().in_tx,
            !old(self).obs().committing,
        ensures
            final(self).wf(),
            match r {
                Ok(()) => !final(self).obs().committing
                    && final(self).obs().durable == old(self).obs().table
                    && final(self).obs().table == old(self).obs().table
                    && final(self).obs().in_tx == old(self).obs().in_tx,
                Err(e) => e == EngineError::Capacity && *final(self) == *old(self),
            },
            (r is Err) == (old(self).obs().disk_len + 3 * old(self).obs().table.len() + 1
                > usize::MAX),
    {
        match self.commit_start() {
            Ok(()) => {
                let mut pending = self.pending_ops();
                while pending > 0
                    invariant
                        self.wf(),
                        self.obs().in_tx,
                        self.obs().table == old(self).obs().table,
                        pending as int == self.obs().queue_len,
                        !self.obs().committing ==> self.obs().durable == old(self).obs().table,
                    decreases pending,
                {
                    self.io_step();
                    pending = pending - 1;
                }
                Ok(())
            },
            Err(e) => Err(e),
        }
    }

    /// Abandons the open transaction: submitted but unperformed writes are
    /// discarded, and the table reverts to the committed state.
    pub fn rollback(&mut self)
        requires
            old(self).wf(),
        ensures
            final(self).wf(),
            final(self).obs() == (EngineObs {
                table: old(self).obs().durable,
                in_tx: false,
                committing: false,
                queue_len: 0,
                ..old(self).obs()
            }),
    {
        self.pager.crash();
        self.store = self.pager.load_table();
        self.in_tx = false;
    }

    /// The crash model: power is lost between page writes — whatever the
    /// scheduler had not yet performed vanishes with all in-memory state —
    /// and the database is reopened from the file. What comes back is
    /// exactly the last committed state: wholly old or wholly new, never a
    /// mix.
    pub fn crash_recover(&mut self)
        requires
            old(self).wf(),
        ensures
            final(self).wf(),
            final(self).obs() == (EngineObs {
                table: old(self).obs().durable,
                in_tx: false,
                committing: false,
                queue_len: 0,
                ..old(self).obs()
            }),
    {
        self.pager.crash();
        self.store = self.pager.load_table();
        self.in_tx = false;
    }
}

/// The mathematical image of a program frame.
pub struct VmS {
    pub pc: int,
    pub regs: Seq<ValueS>,
    pub cursors: Seq<Cursor>,
    pub halted: bool,
    pub commit_started: bool,
}

/// A program frame: the program counter, the registers, one cursor slot
/// per declared cursor, and the two step-machine flags.
pub struct Vm {
    pub pc: usize,
    pub regs: Vec<Value>,
    pub cursors: Vec<Cursor>,
    pub halted: bool,
    pub commit_started: bool,
}

impl View for Vm {
    type V = VmS;

    open spec fn view(&self) -> VmS {
        VmS {
            pc: self.pc as int,
            regs: self.regs@.map_values(|v: Value| v@),
            cursors: self.cursors@,
            halted: self.halted,
            commit_started: self.commit_started,
        }
    }
}

impl Vm {
    /// Terminates the program on a violated opcode precondition: the frame
    /// halts and every cursor is unpositioned.
    fn mark_aborted(&mut self)
        ensures
            final(self)@ == (VmS {
                halted: true,
                commit_started: false,
                cursors: Seq::new(old(self)@.cursors.len(), |i: int| Cursor::Unpositioned),
                ..old(self)@
            }),
            final(self).regs@ == old(self).regs@,
            final(self).cursors@.len() == old(self).cursors@.len(),
            final(self).pc == old(self).pc,
    {
        self.halted = true;
        self.commit_started = false;
        let mut i: usize = 0;
        while i < self.cursors.len()
            invariant
                i <= self.cursors@.len(),
                self.cursors@.len() == old(self).cursors@.len(),
                forall|j: int| 0 <= j < i ==> self.cursors@[j] == Cursor::Unpositioned,
                forall|j: int|
                    i <= j < self.cursors@.len() ==> self.cursors@[j] == old(self).cursors@[j],
                self.pc == old(self).pc,
                self.regs@ == old(self).regs@,
                self.halted,
                !self.commit_started,
            decreases self.cursors@.len() - i,
        {
            self.cursors[i] = Cursor::Unpositioned;
            i = i + 1;
        }
        proof {
            assert(self.cursors@ =~= Seq::new(old(self)@.cursors.len(), |i: int| Cursor::Unpositioned));
            assert(self@ =~= (VmS {
                halted: true,
                commit_started: false,
                cursors: Seq::new(old(self)@.cursors.len(), |i: int| Cursor::Unpositioned),
                ..old(self)@
            }));
        }
    }
}

/// What aborting a step leaves behind: a halted frame, unpositioned
/// cursors, and a rolled-back connection.
pub open spec fn aborted(s0: VmS, s1: VmS, c0: EngineObs, c1: EngineObs) -> bool {
    &&& s1 == (VmS {
        halted: true,
        commit_started: false,
        cursors: Seq::new(s0.cursors.len(), |i: int| Cursor::Unpositioned),
        ..s0
    })
    &&& c1 == (EngineObs { table: c0.durable, in_tx: false, committing: false, queue_len: 0, ..c0 })
}

pub open spec fn all_unpositioned(n: nat) -> Seq<Cursor> {
    Seq::new(n, |i: int| Cursor::Unpositioned)
}

/// The step relation of the virtual machine: how one `step` call takes the
/// frame and the connection from one state to the next, and what it yields.
pub open spec fn step_effect(
    ops: Seq<Opcode>,
    s0: VmS,
    s1: VmS,
    c0: EngineObs,
    c1: EngineObs,
    r: Result<StepOutcome, EngineError>,
) -> bool {
    if s0.halted {
        s1 == s0 && c1 == c0 && r == Ok::<StepOutcome, EngineError>(StepOutcome::Done)
    } else if s0.pc < 0 || s0.pc >= ops.len() {
        aborted(s0, s1, c0, c1) && r == Err::<StepOutcome, EngineError>(EngineError::Execution)
    } else {
        match ops[s0.pc] {
            Opcode::LoadConst { value, dst } => s1 == (VmS {
                pc: s0.pc + 1,
                regs: s0.regs.update(dst as int, value@),
                ..s0
            }) && c1 == c0 && r == Ok::<StepOutcome, EngineError>(StepOutcome::Continue),
            Opcode::Rewind { cursor, on_empty } => s1 == (VmS {
                pc: if c0.table.len() == 0 {
                    on_empty as int
                } else {
                    s0.pc + 1
                },
                cursors: s0.cursors.update(
                    cursor as int,
                    if c0.table.len() == 0 {
                        Cursor::Exhausted
                    } else {
                        Cursor::At(0)
                    },
                ),
                ..s0
            }) && c1 == c0 && r == Ok::<StepOutcome, EngineError>(StepOutcome::Continue),
            Opcode::SeekKey { cursor, op, key_reg, on_miss } => match s0.regs[key_reg as int] {
                ValueS::Integer(k) => match spec_seek(c0.table, k, op) {
                    Some(i) => s1 == (VmS {
                        pc: s0.pc + 1,
                        cursors: s0.cursors.update(cursor as int, Cursor::At(i as usize)),
                        ..s0
                    }) && c1 == c0 && r == Ok::<StepOutcome, EngineError>(StepOutcome::Continue),
                    None => s1 == (VmS {
                        pc: on_miss as int,
                        cursors: s0.cursors.update(cursor as int, Cursor::Exhausted),
                        ..s0
                    }) && c1 == c0 && r == Ok::<StepOutcome, EngineError>(StepOutcome::Continue),
                },
                _ => aborted(s0, s1, c0, c1) && r == Err::<StepOutcome, EngineError>(
                    EngineError::Execution,
                ),
            },
            Opcode::Next { cursor, on_more } => match s0.cursors[cursor as int] {
                Cursor::At(i) => if i + 1 < c0.table.len() {
                    s1 == (VmS {
                        pc: on_more as int,
                        cursors: s0.cursors.update(cursor as int, Cursor::At((i + 1) as usize)),
                        ..s0
                    }) && c1 == c0 && r == Ok::<StepOutcome, EngineError>(StepOutcome::Continue)
                } else {
                    s1 == (VmS {
                        pc: s0.pc + 1,
                        cursors: s0.cursors.update(cursor as int, Cursor::Exhausted),
                        ..s0
                    }) && c1 == c0 && r == Ok::<StepOutcome, EngineError>(StepOutcome::Continue)
                },
                Cursor::Exhausted => s1 == (VmS { pc: s0.pc + 1, ..s0 }) && c1 == c0 && r == Ok::<
                    StepOutcome,
                    EngineError,
                >(StepOutcome::Continue),
                Cursor::Unpositioned => aborted(s0, s1, c0, c1) && r == Err::<
                    StepOutcome,
                    EngineError,
                >(EngineError::Execution),
            },
            Opcode::Prev { cursor, on_more } => match s0.cursors[cursor as int] {
                Cursor::At(i) => if i > 0 {
                    s1 == (VmS {
                        pc: on_more as int,
                        cursors: s0.cursors.update(cursor as int, Cursor::At((i - 1) as usize)),
                        ..s0
                    }) && c1 == c0 && r == Ok::<StepOutcome, EngineError>(StepOutcome::Continue)
                } else {
                    s1 == (VmS {
                        pc: s0.pc + 1,
                        cursors: s0.cursors.update(cursor as int, Cursor::Exhausted),
                        ..s0
                    }) && c1 == c0 && r == Ok::<StepOutcome, EngineError>(StepOutcome::Continue)
                },
                Cursor::Exhausted => s1 == (VmS { pc: s0.pc + 1, ..s0 }) && c1 == c0 && r == Ok::<
                    StepOutcome,
                    EngineError,
                >(StepOutcome::Continue),
                Cursor::Unpositioned => aborted(s0, s1, c0, c1) && r == Err::<
                    StepOutcome,
                    EngineError,
                >(EngineError::Execution),
            },
            Opcode::Column { cursor, col, dst } => match s0.cursors[cursor as int] {
                Cursor::At(i) => if col < c0.table[i as int].1.len() {
                    s1 == (VmS {
                        pc: s0.pc + 1,
                        regs: s0.regs.update(dst as int, c0.table[i as int].1[col as int]),
                        ..s0
                    }) && c1 == c0 && r == Ok::<StepOutcome, EngineError>(StepOutcome::Continue)
                } else {
                    aborted(s0, s1, c0, c1) && r == Err::<StepOutcome, EngineError>(
                        EngineError::Execution,
                    )
                },
                _ => aborted(s0, s1, c0, c1) && r == Err::<StepOutcome, EngineError>(
                    EngineError::Execution,
                ),
            },
            Opcode::RowId { cursor, dst } => match s0.cursors[cursor as int] {
                Cursor::At(i) => s1 == (VmS {
                    pc: s0.pc + 1,
                    regs: s0.regs.update(dst as int, ValueS::Integer(c0.table[i as int].0)),
                    ..s0
                }) && c1 == c0 && r == Ok::<StepOutcome, EngineError>(StepOutcome::Continue),
                _ => aborted(s0, s1, c0, c1) && r == Err::<StepOutcome, EngineError>(
                    EngineError::Execution,
                ),
            },
            Opcode::ResultRow { start, len } => s1 == (VmS { pc: s0.pc + 1, ..s0 }) && c1 == c0
                && (r matches Ok(StepOutcome::Row(w)) && w@ == s0.regs.subrange(
                start as int,
                start + len,
            )),
            Opcode::CmpBranch { lhs, rhs, op, target } => s1 == (VmS {
                pc: if cmp_matches(cmp_value(s0.regs[lhs as int], s0.regs[rhs as int]), op) {
                    target as int
                } else {
                    s0.pc + 1
                },
                ..s0
            }) && c1 == c0 && r == Ok::<StepOutcome, EngineError>(StepOutcome::Continue),
            Opcode::Insert { key_reg, start, len } => if !c0.in_tx || c0.committing
                || s0.commit_started {
                aborted(s0, s1, c0, c1) && r == Err::<StepOutcome, EngineError>(
                    EngineError::Execution,
                )
            } else {
                match s0.regs[key_reg as int] {
                    ValueS::Integer(k) => s1 == (VmS {
                        pc: s0.pc + 1,
                        cursors: all_unpositioned(s0.cursors.len()),
                        ..s0
                    }) && c1 == (EngineObs {
                        table: spec_insert(c0.table, k, s0.regs.subrange(start as int, start + len)),
                        ..c0
                    }) && r == Ok::<StepOutcome, EngineError>(StepOutcome::Continue),
                    _ => aborted(s0, s1, c0, c1) && r == Err::<StepOutcome, EngineError>(
                        EngineError::Execution,
                    ),
                }
            },
            Opcode::Delete { cursor } => if !c0.in_tx || c0.committing || s0.commit_started {
                aborted(s0, s1, c0, c1) && r == Err::<StepOutcome, EngineError>(
                    EngineError::Execution,
                )
            } else {
                match s0.cursors[cursor as int] {
                    Cursor::At(i) => s1 == (VmS {
                        pc: s0.pc + 1,
                        cursors: all_unpositioned(s0.cursors.len()),
                        ..s0
                    }) && c1 == (EngineObs {
                        table: spec_delete(c0.table, c0.table[i as int].0),
                        ..c0
                    }) && r == Ok::<StepOutcome, EngineError>(StepOutcome::Continue),
                    _ => aborted(s0, s1, c0, c1) && r == Err::<StepOutcome, EngineError>(
                        EngineError::Execution,
                    ),
                }
            },
            Opcode::Goto { target } => s1 == (VmS { pc: target as int, ..s0 }) && c1 == c0 && r
                == Ok::<StepOutcome, EngineError>(StepOutcome::Continue),
            Opcode::Begin => if c0.in_tx {
                aborted(s0, s1, c0, c1) && r == Err::<StepOutcome, EngineError>(
                    EngineError::Execution,
                )
            } else {
                s1 == (VmS { pc: s0.pc + 1, ..s0 }) && c1 == (EngineObs { in_tx: true, ..c0 }) && r
                    == Ok::<StepOutcome, EngineError>(StepOutcome::Continue)
            },
            Opcode::Commit => if !c0.in_tx {
                aborted(s0, s1, c0, c1) && r == Err::<StepOutcome, EngineError>(
                    EngineError::Execution,
                )
            } else if !s0.commit_started {
                if c0.committing {
                    aborted(s0, s1, c0, c1) && r == Err::<StepOutcome, EngineError>(
                        EngineError::Execution,
                    )
                } else if c0.disk_len + 3 * c0.table.len() + 1 > usize::MAX {
                    aborted(s0, s1, c0, c1) && r == Err::<StepOutcome, EngineError>(
                        EngineError::Capacity,
                    )
                } else {
                    s1 == (VmS { commit_started: true, ..s0 }) && c1 == (EngineObs {
                        committing: true,
                        queue_len: c1.queue_len,
                        ..c0
                    }) && c1.queue_len >= 1 && r == Ok::<StepOutcome, EngineError>(StepOutcome::Io)
                }
            } else if c0.queue_len > 0 {
                s1 == s0 && c1 == c0 && r == Ok::<StepOutcome, EngineError>(StepOutcome::Io)
            } else {
                s1 == (VmS { pc: s0.pc + 1, commit_started: false, ..s0 }) && c1 == (EngineObs {
                    in_tx: false,
                    ..c0
                }) && r == Ok::<StepOutcome, EngineError>(StepOutcome::Continue)
            },
            Opcode::Rollback => s1 == (VmS {
                pc: s0.pc + 1,
                cursors: all_unpositioned(s0.cursors.len()),
                commit_started: false,
                ..s0
            }) && c1 == (EngineObs {
                table: c0.durable,
                in_tx: false,
                committing: false,
                queue_len: 0,
                ..c0
            }) && r == Ok::<StepOutcome, EngineError>(StepOutcome::Continue),
            Opcode::Halt => s1 == (VmS { halted: true, ..s0 }) && c1 == c0 && r == Ok::<
                StepOutcome,
                EngineError,
            >(StepOutcome::Done),
        }
    }
}

/// What one performed write does to the observable connection state: the
/// queue shortens by one, table and transaction are untouched, and the
/// committed state flips to the pending snapshot exactly at the final
/// (marker) write.
pub open spec fn io_effect(c0: EngineObs, c1: EngineObs) -> bool {
    &&& c1.queue_len == c0.queue_len - 1
    &&& c1.table == c0.table
    &&& c1.in_tx == c0.in_tx
    &&& (c0.queue_len > 1 ==> c1.durable == c0.durable && c1.committing)
    &&& (c0.queue_len == 1 ==> c1.durable == c0.table && !c1.committing)
}

/// The pull relation: the result of running at most `fuel` steps of the
/// step relation from `(s0, c0)`. The first yielded row, completion or
/// error ends the pull with that answer; a suspension is pumped with one
/// performed write when `pump` is set and surfaced as `IO` otherwise; an
/// exhausted budget ends the pull with `Busy`. Every pull operation is
/// bound to `step_effect` through this relation, so what it returns is
/// fixed by the program, the table and the budget.
pub open spec fn pull_effect(
    ops: Seq<Opcode>,
    s0: VmS,
    s1: VmS,
    c0: EngineObs,
    c1: EngineObs,
    fuel: nat,
    pump: bool,
    r: Result<RowResult, EngineError>,
) -> bool
    decreases fuel,
{
    if fuel == 0 {
        s1 == s0 && c1 == c0 && r == Ok::<RowResult, EngineError>(RowResult::Busy)
    } else {
        exists|sm: VmS, cm: EngineObs, out: Result<StepOutcome, EngineError>|
            {
                &&& #[trigger] step_effect(ops, s0, sm, c0, cm, out)
                &&& match out {
                    Ok(StepOutcome::Continue) => pull_effect(
                        ops,
                        sm,
                        s1,
                        cm,
                        c1,
                        (fuel - 1) as nat,
                        pump,
                        r,
                    ),
                    Ok(StepOutcome::Row(w)) => s1 == sm && c1 == cm && r == Ok::<
                        RowResult,
                        EngineError,
                    >(RowResult::Row(w)),
                    Ok(StepOutcome::Io) => if cm.queue_len > 0 {
                        if pump {
                            exists|cp: EngineObs|
                                #[trigger] io_effect(cm, cp) && pull_effect(
                                    ops,
                                    sm,
                                    s1,
                                    cp,
                                    c1,
                                    (fuel - 1) as nat,
                                    pump,
                                    r,
                                )
                        } else {
                            s1 == sm && c1 == cm && r == Ok::<RowResult, EngineError>(
                                RowResult::IO,
                            )
                        }
                    } else {
                        pull_effect(ops, sm, s1, cm, c1, (fuel - 1) as nat, pump, r)
                    },
                    Ok(StepOutcome::Done) => s1 == sm && c1 == cm && r == Ok::<
                        RowResult,
                        EngineError,
                    >(RowResult::Done),
                    Err(e) => s1 == sm && c1 == cm && r == Err::<RowResult, EngineError>(e),
                }
            }
    }
}

/// What one `step` call yields: more work to do, a produced row, a
/// suspension on outstanding I/O, or completion.
#[derive(PartialEq, Eq, Debug)]
pub enum StepOutcome {
    Continue,
    Row(Row),
    Io,
    Done,
}

/// The pull result a caller of `advance` sees. `IO` surfaces a suspension
/// the caller chose not to auto-pump; `Busy` reports an exhausted step
/// budget.
#[derive(PartialEq, Eq, Debug)]
pub enum RowResult {
    Row(Row),
    IO,
    Done,
    Busy,
}

/// A prepared statement: a validated program and its frame.
pub struct Statement {
    prog: Program,
    vm: Vm,
}

impl Statement {
    pub closed spec fn ops(self) -> Seq<Opcode> {
        self.prog.ops@
    }

    pub closed spec fn frame(self) -> VmS {
        self.vm@
    }

    /// The frame stays compatible with the program and the table its
    /// cursors walk; a started commit implies an open transaction whose
    /// drained queue has made the table durable.
    pub closed spec fn wf(self, c: EngineObs) -> bool {
        &&& prog_wf(self.prog)
        &&& self.vm.regs@.len() == self.prog.n_regs
        &&& self.vm.cursors@.len() == self.prog.n_cursors
        &&& (forall|i: int|
            0 <= i < self.vm.cursors@.len() ==> ((#[trigger] self.vm.cursors@[i]) matches
                Cursor::At(j) ==> j < c.table.len()))
        &&& (self.vm.commit_started ==> c.in_tx)
        &&& (self.vm.commit_started && !c.committing ==> c.table == c.durable)
    }

    /// The statement's program is validated.
    pub closed spec fn program_valid(self) -> bool {
        prog_wf(self.prog) && self.vm.regs@.len() == self.prog.n_regs && self.vm.cursors@.len()
            == self.prog.n_cursors
    }
}

proof fn lemma_map_values_update(s: Seq<Value>, i: int, v: Value)
    requires
        0 <= i < s.len(),
    ensures
        s.update(i, v).map_values(|x: Value| x@) == s.map_values(|x: Value| x@).update(i, v@),
{
    assert(s.update(i, v).map_values(|x: Value| x@) =~= s.map_values(|x: Value| x@).update(i, v@));
}

/// Copies a run of registers out as a row.
fn copy_regs(regs: &Vec<Value>, start: usize, len: usize) -> (w: Row)
    requires
        start + len <= regs@.len(),
    ensures
        w@ == regs@.map_values(|x: Value| x@).subrange(start as int, start + len),
{
    let n = regs.len();
    let mut values: Vec<Value> = Vec::new();
    let mut q: usize = 0;
    while q < len
        invariant
            q <= len,
            n == regs@.len(),
            start + len <= n,
            values@.len() == q,
            forall|j: int| 0 <= j < q ==> (#[trigger] values@[j])@ == regs@[start + j]@,
        decreases len - q,
    {
        let v = regs[start + q].clone();
        values.push(v);
        q = q + 1;
    }
    let w = Row { values };
    proof {
        assert(w@ =~= regs@.map_values(|x: Value| x@).subrange(start as int, start + len));
    }
    w
}

impl Statement {
    /// Executes exactly one instruction against the frame and the
    /// connection, per the step relation `step_effect`: it may do silent
    /// work (`Continue`), yield a row, suspend on outstanding commit I/O
    /// (`Io`), or finish (`Done`); a violated opcode precondition
    /// terminates the program with `Execution` after rolling the
    /// transaction back. After `Done`, every further step yields `Done`
    /// again and changes nothing.
    #[verifier::rlimit(100)]
    pub fn step(&mut self, conn: &mut Connection) -> (r: Result<StepOutcome, EngineError>)
        requires
            old(self).wf(old(conn).obs()),
            old(conn).wf(),
        ensures
            final(self).wf(final(conn).obs()),
            final(conn).wf(),
            final(self).ops() == old(self).ops(),
            final(self).program_valid() == old(self).program_valid(),
            step_effect(
                old(self).ops(),
                old(self).frame(),
                final(self).frame(),
                old(conn).obs(),
                final(conn).obs(),
                r,
            ),
    {
        if self.vm.halted {
            return Ok(StepOutcome::Done);
        }
        if self.vm.pc >= self.prog.ops.len() {
            self.vm.mark_aborted();
            conn.rollback();
            return Err(EngineError::Execution);
        }
        let pc = self.vm.pc;
        proof {
            assert(op_valid(
                self.prog.ops@[pc as int],
                self.prog.n_regs as int,
                self.prog.n_cursors as int,
                self.prog.ops@.len() as int,
            ));
        }
        match &self.prog.ops[pc] {
            Opcode::LoadConst { value, dst } => {
                let v = value.clone();
                let d = *dst;
                proof {
                    lemma_map_values_update(self.vm.regs@, d as int, v);
                }
                self.vm.regs[d] = v;
                self.vm.pc = pc + 1;
                Ok(StepOutcome::Continue)
            },
            Opcode::Rewind { cursor, on_empty } => {
                if conn.table().len() == 0 {
                    self.vm.cursors[*cursor] = Cursor::Exhausted;
                    self.vm.pc = *on_empty;
                } else {
                    self.vm.cursors[*cursor] = Cursor::At(0);
                    self.vm.pc = pc + 1;
                }
                Ok(StepOutcome::Continue)
            },
            Opcode::SeekKey { cursor, op, key_reg, on_miss } => {
                let c = *cursor;
                let o = *op;
                let miss = *on_miss;
                let key: i64 = match &self.vm.regs[*key_reg] {
                    Value::Integer(k) => *k,
                    _ => {
                        self.vm.mark_aborted();
                        conn.rollback();
                        return Err(EngineError::Execution);
                    },
                };
                proof {
                    crate::table::lemma_lb_bounds(conn.obs().table, key as int);
                    crate::table::lemma_ub_bounds(conn.obs().table, key as int);
                }
                match conn.table().seek(key, o) {
                    Some(i) => {
                        self.vm.cursors[c] = Cursor::At(i);
                        self.vm.pc = pc + 1;
                    },
                    None => {
                        self.vm.cursors[c] = Cursor::Exhausted;
                        self.vm.pc = miss;
                    },
                }
                Ok(StepOutcome::Continue)
            },
            Opcode::Next { cursor, on_more } => {
                let c = *cursor;
                match self.vm.cursors[c] {
                    Cursor::At(i) => {
                        let n = conn.table().len();
                        if i + 1 < n {
                            self.vm.cursors[c] = Cursor::At(i + 1);
                            self.vm.pc = *on_more;
                        } else {
                            self.vm.cursors[c] = Cursor::Exhausted;
                            self.vm.pc = pc + 1;
                        }
                        Ok(StepOutcome::Continue)
                    },
                    Cursor::Exhausted => {
                        self.vm.pc = pc + 1;
                        proof {
                            assert(self.vm.cursors@ =~= old(self).frame().cursors);
                        }
                        Ok(StepOutcome::Continue)
                    },
                    Cursor::Unpositioned => {
                        self.vm.mark_aborted();
                        conn.rollback();
                        Err(EngineError::Execution)
                    },
                }
            },
            Opcode::Prev { cursor, on_more } => {
                let c = *cursor;
                match self.vm.cursors[c] {
                    Cursor::At(i) => {
                        if i > 0 {
                            self.vm.cursors[c] = Cursor::At(i - 1);
                            self.vm.pc = *on_more;
                        } else {
                            self.vm.cursors[c] = Cursor::Exhausted;
                            self.vm.pc = pc + 1;
                        }
                        Ok(StepOutcome::Continue)
                    },
                    Cursor::Exhausted => {
                        self.vm.pc = pc + 1;
                        proof {
                            assert(self.vm.cursors@ =~= old(self).frame().cursors);
                        }
                        Ok(StepOutcome::Continue)
                    },
                    Cursor::Unpositioned => {
                        self.vm.mark_aborted();
                        conn.rollback();
                        Err(EngineError::Execution)
                    },
                }
            },
            Opcode::Column { cursor, col, dst } => {
                let c = *cursor;
                let cl = *col;
                let d = *dst;
                match self.vm.cursors[c] {
                    Cursor::At(i) => {
                        let row = conn.table().row_at(i);
                        if cl < row.values.len() {
                            let v = row.values[cl].clone();
                            proof {
                                lemma_map_values_update(self.vm.regs@, d as int, v);
                            }
                            self.vm.regs[d] = v;
                            self.vm.pc = pc + 1;
                            Ok(StepOutcome::Continue)
                        } else {
                            self.vm.mark_aborted();
                            conn.rollback();
                            Err(EngineError::Execution)
                        }
                    },
                    _ => {
                        self.vm.mark_aborted();
                        conn.rollback();
                        Err(EngineError::Execution)
                    },
                }
            },
            Opcode::RowId { cursor, dst } => {
                let c = *cursor;
                let d = *dst;
                match self.vm.cursors[c] {
                    Cursor::At(i) => {
                        let k = conn.table().key_at(i);
                        let v = Value::Integer(k);
                        proof {
                            lemma_map_values_update(self.vm.regs@, d as int, v);
                        }
                        self.vm.regs[d] = v;
                        self.vm.pc = pc + 1;
                        Ok(StepOutcome::Continue)
                    },
                    _ => {
                        self.vm.mark_aborted();
                        conn.rollback();
                        Err(EngineError::Execution)
                    },
                }
            },
            Opcode::ResultRow { start, len } => {
                let w = copy_regs(&self.vm.regs, *start, *len);
                self.vm.pc = pc + 1;
                Ok(StepOutcome::Row(w))
            },
            Opcode::CmpBranch { lhs, rhs, op, target } => {
                let c = value_cmp(&self.vm.regs[*lhs], &self.vm.regs[*rhs]);
                if cmp_matches_exec(c, *op) {
                    self.vm.pc = *target;
                } else {
                    self.vm.pc = pc + 1;
                }
                Ok(StepOutcome::Continue)
            },
            Opcode::Insert { key_reg, start, len } => {
                if !conn.is_in_tx() || conn.pending_ops() > 0 || self.vm.commit_started {
                    self.vm.mark_aborted();
                    conn.rollback();
                    return Err(EngineError::Execution);
                }
                let key: i64 = match &self.vm.regs[*key_reg] {
                    Value::Integer(k) => *k,
                    _ => {
                        self.vm.mark_aborted();
                        conn.rollback();
                        return Err(EngineError::Execution);
                    },
                };
                let w = copy_regs(&self.vm.regs, *start, *len);
                conn.insert_row(key, w);
                self.vm.reset_cursors();
                self.vm.pc = pc + 1;
                Ok(StepOutcome::Continue)
            },
            Opcode::Delete { cursor } => {
                if !conn.is_in_tx() || conn.pending_ops() > 0 || self.vm.commit_started {
                    self.vm.mark_aborted();
                    conn.rollback();
                    return Err(EngineError::Execution);
                }
                let c = *cursor;
                match self.vm.cursors[c] {
                    Cursor::At(i) => {
                        let key = conn.table().key_at(i);
                        conn.delete_row(key);
                        self.vm.reset_cursors();
                        self.vm.pc = pc + 1;
                        Ok(StepOutcome::Continue)
                    },
                    _ => {
                        self.vm.mark_aborted();
                        conn.rollback();
                        Err(EngineError::Execution)
                    },
                }
            },
            Opcode::Goto { target } => {
                self.vm.pc = *target;
                Ok(StepOutcome::Continue)
            },
            Opcode::Begin => {
                if conn.is_in_tx() {
                    self.vm.mark_aborted();
                    conn.rollback();
                    Err(EngineError::Execution)
                } else {
                    conn.begin();
                    self.vm.pc = pc + 1;
                    Ok(StepOutcome::Continue)
                }
            },
            Opcode::Commit => {
                if !conn.is_in_tx() {
                    self.vm.mark_aborted();
                    conn.rollback();
                    Err(EngineError::Execution)
                } else if !self.vm.commit_started {
                    if conn.pending_ops() > 0 {
                        self.vm.mark_aborted();
                        conn.rollback();
                        Err(EngineError::Execution)
                    } else {
                        match conn.commit_start() {
                            Ok(()) => {
                                self.vm.commit_started = true;
                                Ok(StepOutcome::Io)
                            },
                            Err(e) => {
                                self.vm.mark_aborted();
                                conn.rollback();
                                Err(e)
                            },
                        }
                    }
                } else if conn.pending_ops() > 0 {
                    Ok(StepOutcome::Io)
                } else {
                    conn.end_tx();
                    self.vm.commit_started = false;
                    self.vm.pc = pc + 1;
                    Ok(StepOutcome::Continue)
                }
            },
            Opcode::Rollback => {
                conn.rollback();
                self.vm.reset_cursors();
                self.vm.commit_started = false;
                self.vm.pc = pc + 1;
                Ok(StepOutcome::Continue)
            },
            Opcode::Halt => {
                self.vm.halted = true;
                Ok(StepOutcome::Done)
            },
        }
    }

    /// Rewinds the statement: the compiled program is kept, the frame is
    /// fresh.
    pub fn reset(&mut self)
        requires
            old(self).program_valid(),
        ensures
            final(self).program_valid(),
            final(self).ops() == old(self).ops(),
            forall|c: EngineObs| #[trigger] final(self).wf(c),
            final(self).frame() == (VmS {
                pc: 0,
                regs: Seq::new(old(self).frame().regs.len(), |i: int| ValueS::Null),
                cursors: all_unpositioned(old(self).frame().cursors.len()),
                halted: false,
                commit_started: false,
            }),
    {
        self.vm.pc = 0;
        self.vm.halted = false;
        self.vm.commit_started = false;
        let n_regs = self.vm.regs.len();
        let n_curs = self.vm.cursors.len();
        let mut regs: Vec<Value> = Vec::new();
        while regs.len() < n_regs
            invariant
                regs@.len() <= n_regs,
                forall|j: int| 0 <= j < regs@.len() ==> (#[trigger] regs@[j]) is Null,
            decreases n_regs - regs@.len(),
        {
            regs.push(Value::Null);
        }
        let mut cursors: Vec<Cursor> = Vec::new();
        while cursors.len() < n_curs
            invariant
                cursors@.len() <= n_curs,
                forall|j: int| 0 <= j < cursors@.len() ==> (#[trigger] cursors@[j]) is Unpositioned,
            decreases n_curs - cursors@.len(),
        {
            cursors.push(Cursor::Unpositioned);
        }
        self.vm.regs = regs;
        self.vm.cursors = cursors;
        proof {
            assert(self.vm.regs@.map_values(|x: Value| x@) =~= Seq::new(
                old(self).frame().regs.len(),
                |i: int| ValueS::Null,
            ));
            assert(self.vm.cursors@ =~= all_unpositioned(old(self).frame().cursors.len()));
        }
    }

    /// The pull operation: runs `step` until a row is produced or the
    /// program finishes, pumping the I/O scheduler with one performed write
    /// whenever the program suspends, within the given step budget: the
    /// result is exactly what the pull relation `pull_effect` (pumping)
    /// fixes for the old frame, connection and budget. After `Done`, every
    /// further `advance` yields `Done` again, produces no row, and changes
    /// nothing.
    pub fn advance(&mut self, conn: &mut Connection, fuel: usize) -> (r: Result<
        RowResult,
        EngineError,
    >)
        requires
            old(self).wf(old(conn).obs()),
            old(conn).wf(),
            fuel >= 1,
        ensures
            final(self).wf(final(conn).obs()),
            final(conn).wf(),
            final(self).ops() == old(self).ops(),
            pull_effect(
                old(self).ops(),
                old(self).frame(),
                final(self).frame(),
                old(conn).obs(),
                final(conn).obs(),
                fuel as nat,
                true,
                r,
            ),
            old(self).frame().halted ==> r == Ok::<RowResult, EngineError>(RowResult::Done)
                && final(self).frame() == old(self).frame() && final(conn).obs() == old(
                conn,
            ).obs(),
            (r matches Ok(RowResult::Done)) ==> final(self).frame().halted,
    {
        let mut budget = fuel;
        loop
            invariant
                self.wf(conn.obs()),
                conn.wf(),
                self.ops() == old(self).ops(),
                fuel >= 1,
                budget <= fuel,
                old(self).frame().halted ==> budget == fuel && self.frame() == old(self).frame()
                    && conn.obs() == old(conn).obs(),
                forall|s1: VmS, c1: EngineObs, rr: Result<RowResult, EngineError>|
                    #[trigger] pull_effect(
                        old(self).ops(),
                        self.frame(),
                        s1,
                        conn.obs(),
                        c1,
                        budget as nat,
                        true,
                        rr,
                    ) ==> pull_effect(
                        old(self).ops(),
                        old(self).frame(),
                        s1,
                        old(conn).obs(),
                        c1,
                        fuel as nat,
                        true,
                        rr,
                    ),
            decreases budget,
        {
            if budget == 0 {
                proof {
                    assert(pull_effect(
                        old(self).ops(),
                        self.frame(),
                        self.frame(),
                        conn.obs(),
                        conn.obs(),
                        0nat,
                        true,
                        Ok::<RowResult, EngineError>(RowResult::Busy),
                    ));
                }
                return Ok(RowResult::Busy);
            }
            let ghost s_pre = self.frame();
            let ghost c_pre = conn.obs();
            let ghost b_pre = budget as nat;
            budget = budget - 1;
            let out = self.step(conn);
            match out {
                Ok(StepOutcome::Continue) => {
                    proof {
                        assert forall|s1: VmS, c1: EngineObs, rr: Result<RowResult, EngineError>|
                            #[trigger] pull_effect(
                                old(self).ops(),
                                self.frame(),
                                s1,
                                conn.obs(),
                                c1,
                                budget as nat,
                                true,
                                rr,
                            ) implies pull_effect(
                            old(self).ops(),
                            old(self).frame(),
                            s1,
                            old(conn).obs(),
                            c1,
                            fuel as nat,
                            true,
                            rr,
                        ) by {
                            assert(step_effect(
                                old(self).ops(),
                                s_pre,
                                self.frame(),
                                c_pre,
                                conn.obs(),
                                Ok(StepOutcome::Continue),
                            ));
                            assert(pull_effect(
                                old(self).ops(),
                                s_pre,
                                s1,
                                c_pre,
                                c1,
                                b_pre,
                                true,
                                rr,
                            ));
                        }
                    }
                },
                Ok(StepOutcome::Row(w)) => {
                    proof {
                        assert(step_effect(
                            old(self).ops(),
                            s_pre,
                            self.frame(),
                            c_pre,
                            conn.obs(),
                            Ok(StepOutcome::Row(w)),
                        ));
                        assert(pull_effect(
                            old(self).ops(),
                            s_pre,
                            self.frame(),
                            c_pre,
                            conn.obs(),
                            b_pre,
                            true,
                            Ok::<RowResult, EngineError>(RowResult::Row(w)),
                        ));
                    }
                    return Ok(RowResult::Row(w));
                },
                Ok(StepOutcome::Io) => {
                    let ghost s_mid = self.frame();
                    let ghost c_mid = conn.obs();
                    proof {
                        assert(c_mid.queue_len > 0);
                    }
                    if conn.pending_ops() > 0 {
                        conn.io_step();
                    }
                    proof {
                        assert(io_effect(c_mid, conn.obs()));
                        assert forall|s1: VmS, c1: EngineObs, rr: Result<RowResult, EngineError>|
                            #[trigger] pull_effect(
                                old(self).ops(),
                                self.frame(),
                                s1,
                                conn.obs(),
                                c1,
                                budget as nat,
                                true,
                                rr,
                            ) implies pull_effect(
                            old(self).ops(),
                            old(self).frame(),
                            s1,
                            old(conn).obs(),
                            c1,
                            fuel as nat,
                            true,
                            rr,
                        ) by {
                            assert(step_effect(
                                old(self).ops(),
                                s_pre,
                                s_mid,
                                c_pre,
                                c_mid,
                                Ok(StepOutcome::Io),
                            ));
                            assert(io_effect(c_mid, conn.obs()));
                            assert(pull_effect(
                                old(self).ops(),
                                s_pre,
                                s1,
                                c_pre,
                                c1,
                                b_pre,
                                true,
                                rr,
                            ));
                        }
                    }
                },
                Ok(StepOutcome::Done) => {
                    proof {
                        assert(self.frame().halted);
                        assert(step_effect(
                            old(self).ops(),
                            s_pre,
                            self.frame(),
                            c_pre,
                            conn.obs(),
                            Ok(StepOutcome::Done),
                        ));
                        assert(pull_effect(
                            old(self).ops(),
                            s_pre,
                            self.frame(),
                            c_pre,
                            conn.obs(),
                            b_pre,
                            true,
                            Ok::<RowResult, EngineError>(RowResult::Done),
                        ));
                    }
                    return Ok(RowResult::Done);
                },
                Err(e) => {
                    proof {
                        assert(step_effect(
                            old(self).ops(),
                            s_pre,
                            self.frame(),
                            c_pre,
                            conn.obs(),
                            Err(e),
                        ));
                        assert(pull_effect(
                            old(self).ops(),
                            s_pre,
                            self.frame(),
                            c_pre,
                            conn.obs(),
                            b_pre,
                            true,
                            Err::<RowResult, EngineError>(e),
                        ));
                    }
                    return Err(e);
                },
            }
        }
    }
}

impl Statement {
    /// The non-blocking pull: like `advance`, but a suspension on
    /// outstanding commit I/O surfaces as `IO` instead of being pumped
    /// internally, leaving the choice of where pumping happens to the
    /// caller, who performs writes with `io_step` and retries: the result
    /// is exactly what the pull relation `pull_effect` (not pumping) fixes
    /// for the old frame, connection and budget.
    pub fn next_row(&mut self, conn: &mut Connection, fuel: usize) -> (r: Result<
        RowResult,
        EngineError,
    >)
        requires
            old(self).wf(old(conn).obs()),
            old(conn).wf(),
            fuel >= 1,
        ensures
            final(self).wf(final(conn).obs()),
            final(conn).wf(),
            final(self).ops() == old(self).ops(),
            pull_effect(
                old(self).ops(),
                old(self).frame(),
                final(self).frame(),
                old(conn).obs(),
                final(conn).obs(),
                fuel as nat,
                false,
                r,
            ),
            old(self).frame().halted ==> r == Ok::<RowResult, EngineError>(RowResult::Done)
                && final(self).frame() == old(self).frame() && final(conn).obs() == old(
                conn,
            ).obs(),
            (r matches Ok(RowResult::Done)) ==> final(self).frame().halted,
            (r matches Ok(RowResult::IO)) ==> final(conn).obs().committing,
    {
        let mut budget = fuel;
        loop
            invariant
                self.wf(conn.obs()),
                conn.wf(),
                self.ops() == old(self).ops(),
                fuel >= 1,
                budget <= fuel,
                old(self).frame().halted ==> budget == fuel && self.frame() == old(self).frame()
                    && conn.obs() == old(conn).obs(),
                forall|s1: VmS, c1: EngineObs, rr: Result<RowResult, EngineError>|
                    #[trigger] pull_effect(
                        old(self).ops(),
                        self.frame(),
                        s1,
                        conn.obs(),
                        c1,
                        budget as nat,
                        false,
                        rr,
                    ) ==> pull_effect(
                        old(self).ops(),
                        old(self).frame(),
                        s1,
                        old(conn).obs(),
                        c1,
                        fuel as nat,
                        false,
                        rr,
                    ),
            decreases budget,
        {
            if budget == 0 {
                proof {
                    assert(pull_effect(
                        old(self).ops(),
                        self.frame(),
                        self.frame(),
                        conn.obs(),
                        conn.obs(),
                        0nat,
                        false,
                        Ok::<RowResult, EngineError>(RowResult::Busy),
                    ));
                }
                return Ok(RowResult::Busy);
            }
            let ghost s_pre = self.frame();
            let ghost c_pre = conn.obs();
            let ghost b_pre = budget as nat;
            budget = budget - 1;
            let out = self.step(conn);
            match out {
                Ok(StepOutcome::Continue) => {
                    proof {
                        assert forall|s1: VmS, c1: EngineObs, rr: Result<RowResult, EngineError>|
                            #[trigger] pull_effect(
                                old(self).ops(),
                                self.frame(),
                                s1,
                                conn.obs(),
                                c1,
                                budget as nat,
                                false,
                                rr,
                            ) implies pull_effect(
                            old(self).ops(),
                            old(self).frame(),
                            s1,
                            old(conn).obs(),
                            c1,
                            fuel as nat,
                            false,
                            rr,
                        ) by {
                            assert(step_effect(
                                old(self).ops(),
                                s_pre,
                                self.frame(),
                                c_pre,
                                conn.obs(),
                                Ok(StepOutcome::Continue),
                            ));
                            assert(pull_effect(
                                old(self).ops(),
                                s_pre,
                                s1,
                                c_pre,
                                c1,
                                b_pre,
                                false,
                                rr,
                            ));
                        }
                    }
                },
                Ok(StepOutcome::Row(w)) => {
                    proof {
                        assert(step_effect(
                            old(self).ops(),
                            s_pre,
                            self.frame(),
                            c_pre,
                            conn.obs(),
                            Ok(StepOutcome::Row(w)),
                        ));
                        assert(pull_effect(
                            old(self).ops(),
                            s_pre,
                            self.frame(),
                            c_pre,
                            conn.obs(),
                            b_pre,
                            false,
                            Ok::<RowResult, EngineError>(RowResult::Row(w)),
                        ));
                    }
                    return Ok(RowResult::Row(w));
                },
                Ok(StepOutcome::Io) => {
                    proof {
                        assert(conn.obs().queue_len > 0);
                    }
                    if conn.pending_ops() > 0 {
                        proof {
                            assert(step_effect(
                                old(self).ops(),
                                s_pre,
                                self.frame(),
                                c_pre,
                                conn.obs(),
                                Ok(StepOutcome::Io),
                            ));
                            assert(pull_effect(
                                old(self).ops(),
                                s_pre,
                                self.frame(),
                                c_pre,
                                conn.obs(),
                                b_pre,
                                false,
                                Ok::<RowResult, EngineError>(RowResult::IO),
                            ));
                        }
                        return Ok(RowResult::IO);
                    }
                },
                Ok(StepOutcome::Done) => {
                    proof {
                        assert(self.frame().halted);
                        assert(step_effect(
                            old(self).ops(),
                            s_pre,
                            self.frame(),
                            c_pre,
                            conn.obs(),
                            Ok(StepOutcome::Done),
                        ));
                        assert(pull_effect(
                            old(self).ops(),
                            s_pre,
                            self.frame(),
                            c_pre,
                            conn.obs(),
                            b_pre,
                            false,
                            Ok::<RowResult, EngineError>(RowResult::Done),
                        ));
                    }
                    return Ok(RowResult::Done);
                },
                Err(e) => {
                    proof {
                        assert(step_effect(
                            old(self).ops(),
                            s_pre,
                            self.frame(),
                            c_pre,
                            conn.obs(),
                            Err(e),
                        ));
                        assert(pull_effect(
                            old(self).ops(),
                            s_pre,
                            self.frame(),
                            c_pre,
                            conn.obs(),
                            b_pre,
                            false,
                            Err::<RowResult, EngineError>(e),
                        ));
                    }
                    return Err(e);
                },
            }
        }
    }
}

impl Connection {
    /// Loads a compiled program into a fresh frame, validating its
    /// register, cursor and jump operands once; an invalid program is
    /// rejected with `Execution`, exactly when some operand is out of
    /// bounds.
    pub fn prepare(&self, prog: Program) -> (r: Result<Statement, EngineError>)
        requires
            self.wf(),
        ensures
            match r {
                Ok(st) => st.wf(self.obs()) && st.program_valid() && st.ops() == prog.ops@
                    && st.frame() == (VmS {
                    pc: 0,
                    regs: Seq::new(prog.n_regs as nat, |i: int| ValueS::Null),
                    cursors: all_unpositioned(prog.n_cursors as nat),
                    halted: false,
                    commit_started: false,
                }),
                Err(e) => e == EngineError::Execution,
            },
            (r is Err) == !prog_wf(prog),
    {
        let n_ops = prog.ops.len();
        let mut i: usize = 0;
        while i < n_ops
            invariant
                i <= prog.ops@.len(),
                n_ops == prog.ops@.len(),
                forall|j: int|
                    0 <= j < i ==> op_valid(
                        #[trigger] prog.ops@[j],
                        prog.n_regs as int,
                        prog.n_cursors as int,
                        prog.ops@.len() as int,
                    ),
            decreases n_ops - i,
        {
            if !op_valid_exec(&prog.ops[i], prog.n_regs, prog.n_cursors, n_ops) {
                return Err(EngineError::Execution);
            }
            i = i + 1;
        }
        let mut regs: Vec<Value> = Vec::new();
        while regs.len() < prog.n_regs
            invariant
                regs@.len() <= prog.n_regs,
                forall|j: int| 0 <= j < regs@.len() ==> (#[trigger] regs@[j]) is Null,
            decreases prog.n_regs - regs@.len(),
        {
            regs.push(Value::Null);
        }
        let mut cursors: Vec<Cursor> = Vec::new();
        while cursors.len() < prog.n_cursors
            invariant
                cursors@.len() <= prog.n_cursors,
                forall|j: int| 0 <= j < cursors@.len() ==> (#[trigger] cursors@[j]) is Unpositioned,
            decreases prog.n_cursors - cursors@.len(),
        {
            cursors.push(Cursor::Unpositioned);
        }
        let vm = Vm { pc: 0, regs, cursors, halted: false, commit_started: false };
        let st = Statement { prog, vm };
        proof {
            assert(st.frame().regs =~= Seq::new(st.prog.n_regs as nat, |i: int| ValueS::Null));
            assert(st.frame().cursors =~= all_unpositioned(st.prog.n_cursors as nat));
        }
        Ok(st)
    }
}

impl Vm {
    /// Unpositions every cursor, as a structural change to the table
    /// demands before any cursor is used again.
    fn reset_cursors(&mut self)
        ensures
            final(self)@ == (VmS {
                cursors: all_unpositioned(old(self)@.cursors.len()),
                ..old(self)@
            }),
            final(self).regs@ == old(self).regs@,
            final(self).cursors@.len() == old(self).cursors@.len(),
            final(self).pc == old(self).pc,
            final(self).halted == old(self).halted,
            final(self).commit_started == old(self).commit_started,
    {
        let mut i: usize = 0;
        while i < self.cursors.len()
            invariant
                i <= self.cursors@.len(),
                self.cursors@.len() == old(self).cursors@.len(),
                forall|j: int| 0 <= j < i ==> self.cursors@[j] == Cursor::Unpositioned,
                forall|j: int|
                    i <= j < self.cursors@.len() ==> self.cursors@[j] == old(self).cursors@[j],
                self.pc == old(self).pc,
                self.regs@ == old(self).regs@,
                self.halted == old(self).halted,
                self.commit_started == old(self).commit_started,
            decreases self.cursors@.len() - i,
        {
            self.cursors[i] = Cursor::Unpositioned;
            i = i + 1;
        }
        proof {
            assert(self.cursors@ =~= all_unpositioned(old(self)@.cursors.len()));
            assert(self@ =~= (VmS {
                cursors: all_unpositioned(old(self)@.cursors.len()),
                ..old(self)@
            }));
        }
    }
}



} // verus!
