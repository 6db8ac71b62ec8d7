use vstd::prelude::*;
use crate::value::{Value, ValueS};

verus! {

/// A row: an ordered, fixed-arity sequence of values, one per column.
#[derive(PartialEq, Eq, Debug)]
pub struct Row {
    pub values: Vec<Value>,
}

impl View for Row {
    type V = Seq<ValueS>;

    open spec fn view(&self) -> Seq<ValueS> {
        self.values@.map_values(|v: Value| v@)
    }
}

impl Clone for Row {
    fn clone(&self) -> (r: Self)
        ensures
            r@ == self@,
    {
        let mut values: Vec<Value> = Vec::new();
        let mut i: usize = 0;
        while i < self.values.len()
            invariant
                i <= self.values.len(),
                values@.map_values(|v: Value| v@) =~= self@.subrange(0, i as int),
            decreases self.values.len() - i,
        {
            let ghost vs_old = values@;
            let v = self.values[i].clone();
            values.push(v);
            proof {
                assert(values@ == vs_old.push(v));
                assert(values@.map_values(|v: Value| v@) =~= vs_old.map_values(
                    |v: Value| v@,
                ).push(v@));
                assert(self@[i as int] == v@);
                assert(self@.subrange(0, i + 1) =~= self@.subrange(0, i as int).push(
                    self@[i as int],
                ));
            }
            i = i + 1;
        }
        proof {
            assert(self@.subrange(0, self.values@.len() as int) =~= self@);
        }
        Row { values }
    }
}

/// One keyed entry of a table: the row identifier and the row it owns.
pub struct Entry {
    pub key: i64,
    pub row: Row,
}

impl View for Entry {
    type V = (int, Seq<ValueS>);

    open spec fn view(&self) -> (int, Seq<ValueS>) {
        (self.key as int, self.row@)
    }
}

/// Keys strictly ascend: the ordering invariant every table state keeps.
pub open spec fn sorted_entries(s: Seq<(int, Seq<ValueS>)>) -> bool {
    forall|i: int, j: int| 0 <= i < j < s.len() ==> s[i].0 < s[j].0
}

/// First position whose key is at least `k`.
pub open spec fn lb(s: Seq<(int, Seq<ValueS>)>, k: int) -> int
    decreases s.len(),
{
    if s.len() == 0 {
        0
    } else if s[0].0 >= k {
        0
    } else {
        1 + lb(s.drop_first(), k)
    }
}

/// First position whose key is strictly above `k`.
pub open spec fn ub(s: Seq<(int, Seq<ValueS>)>, k: int) -> int
    decreases s.len(),
{
    if s.len() == 0 {
        0
    } else if s[0].0 > k {
        0
    } else {
        1 + ub(s.drop_first(), k)
    }
}

/// What inserting `(k, v)` does to the entry sequence: replace the row of an
/// equal key, else splice the pair in at its ordered position.
pub open spec fn spec_insert(s: Seq<(int, Seq<ValueS>)>, k: int, v: Seq<ValueS>) -> Seq<
    (int, Seq<ValueS>),
> {
    let i = lb(s, k);
    if i < s.len() && s[i].0 == k {
        s.update(i, (k, v))
    } else {
        s.insert(i, (k, v))
    }
}

/// What deleting key `k` does to the entry sequence.
pub open spec fn spec_delete(s: Seq<(int, Seq<ValueS>)>, k: int) -> Seq<(int, Seq<ValueS>)> {
    let i = lb(s, k);
    if i < s.len() && s[i].0 == k {
        s.remove(i)
    } else {
        s
    }
}

pub proof fn lemma_lb_bounds(s: Seq<(int, Seq<ValueS>)>, k: int)
    ensures
        0 <= lb(s, k) <= s.len(),
        forall|j: int| 0 <= j < lb(s, k) ==> s[j].0 < k,
        lb(s, k) < s.len() ==> s[lb(s, k)].0 >= k,
    decreases s.len(),
{
    if s.len() > 0 && s[0].0 < k {
        lemma_lb_bounds(s.drop_first(), k);
        assert forall|j: int| 0 <= j < lb(s, k) implies s[j].0 < k by {
            if j > 0 {
                assert(s.drop_first()[j - 1] == s[j]);
            }
        }
    }
}

pub proof fn lemma_ub_bounds(s: Seq<(int, Seq<ValueS>)>, k: int)
    ensures
        0 <= ub(s, k) <= s.len(),
        forall|j: int| 0 <= j < ub(s, k) ==> s[j].0 <= k,
        ub(s, k) < s.len() ==> s[ub(s, k)].0 > k,
    decreases s.len(),
{
    if s.len() > 0 && s[0].0 <= k {
        lemma_ub_bounds(s.drop_first(), k);
        assert forall|j: int| 0 <= j < ub(s, k) implies s[j].0 <= k by {
            if j > 0 {
                assert(s.drop_first()[j - 1] == s[j]);
            }
        }
    }
}

/// On a sorted sequence, any position with the boundary facts of `lb` is
/// `lb` itself.
pub proof fn lemma_lb_unique(s: Seq<(int, Seq<ValueS>)>, k: int, i: int)
    requires
        sorted_entries(s),
        0 <= i <= s.len(),
        forall|j: int| 0 <= j < i ==> s[j].0 < k,
        i < s.len() ==> s[i].0 >= k,
    ensures
        lb(s, k) == i,
{
    lemma_lb_bounds(s, k);
    if lb(s, k) < i {
        assert(s[lb(s, k)].0 < k);
    } else if i < lb(s, k) {
        assert(s[i].0 < k);
    }
}

pub proof fn lemma_ub_unique(s: Seq<(int, Seq<ValueS>)>, k: int, i: int)
    requires
        sorted_entries(s),
        0 <= i <= s.len(),
        forall|j: int| 0 <= j < i ==> s[j].0 <= k,
        i < s.len() ==> s[i].0 > k,
    ensures
        ub(s, k) == i,
{
    lemma_ub_bounds(s, k);
    if ub(s, k) < i {
        assert(s[ub(s, k)].0 <= k);
    } else if i < ub(s, k) {
        assert(s[i].0 <= k);
    }
}

/// The comparison an ordered seek asks for.
#[derive(Clone, Copy, PartialEq, Eq, Structural, Debug)]
pub enum SeekOp {
    Eq,
    Ge,
    Gt,
    Le,
    Lt,
}

/// Where a seek must land: the first (for `Eq`/`Ge`/`Gt`) or last (for
/// `Le`/`Lt`) position satisfying the comparison, or nothing.
pub open spec fn spec_seek(s: Seq<(int, Seq<ValueS>)>, k: int, op: SeekOp) -> Option<int> {
    match op {
        SeekOp::Eq => if lb(s, k) < s.len() && s[lb(s, k)].0 == k {
            Some(lb(s, k))
        } else {
            None
        },
        SeekOp::Ge => if lb(s, k) < s.len() {
            Some(lb(s, k))
        } else {
            None
        },
        SeekOp::Gt => if ub(s, k) < s.len() {
            Some(ub(s, k))
        } else {
            None
        },
        SeekOp::Le => if ub(s, k) > 0 {
            Some(ub(s, k) - 1)
        } else {
            None
        },
        SeekOp::Lt => if lb(s, k) > 0 {
            Some(lb(s, k) - 1)
        } else {
            None
        },
    }
}

/// The ordered entry store a table cursor walks: rows keyed by their row
/// identifier, kept strictly sorted.
pub struct Table {
    entries: Vec<Entry>,
}

impl View for Table {
    type V = Seq<(int, Seq<ValueS>)>;

    closed spec fn view(&self) -> Seq<(int, Seq<ValueS>)> {
        self.entries@.map_values(|e: Entry| e@)
    }
}

impl Table {
    /// Every table state keeps its keys strictly ascending, so a full scan
    /// yields keys in strictly ascending order.
    pub open spec fn wf(self) -> bool {
        sorted_entries(self@)
    }

    pub fn new() -> (t: Table)
        ensures
            t.wf(),
            t@ == Seq::<(int, Seq<ValueS>)>::empty(),
    {
        proof {
            assert(Seq::<Entry>::empty().map_values(|e: Entry| e@) =~= Seq::<(
                int,
                Seq<ValueS>,
            )>::empty());
        }
        Table { entries: Vec::new() }
    }

    /// Wraps an already-sorted entry sequence, as recovery reads one back
    /// from the persisted pages.
    pub fn from_entries(entries: Vec<Entry>) -> (t: Table)
        requires
            sorted_entries(entries@.map_values(|e: Entry| e@)),
        ensures
            t.wf(),
            t@ == entries@.map_values(|e: Entry| e@),
    {
        Table { entries }
    }

    pub fn len(&self) -> (n: usize)
        ensures
            n == self@.len(),
    {
        self.entries.len()
    }

    pub fn key_at(&self, i: usize) -> (k: i64)
        requires
            i < self@.len(),
        ensures
            k as int == self@[i as int].0,
    {
        self.entries[i].key
    }

    pub fn row_at(&self, i: usize) -> (r: Row)
        requires
            i < self@.len(),
        ensures
            r@ == self@[i as int].1,
    {
        self.entries[i].row.clone()
    }

    /// First position whose key is at least `key`.
    fn lower_bound(&self, key: i64) -> (i: usize)
        ensures
            i as int == lb(self@, key as int),
    {
        let mut i: usize = 0;
        proof {
            assert(self@.skip(0) =~= self@);
        }
        while i < self.entries.len() && self.entries[i].key < key
            invariant
                i <= self@.len(),
                lb(self@, key as int) == i + lb(self@.skip(i as int), key as int),
            decreases self@.len() - i,
        {
            proof {
                assert(self@.skip(i as int)[0] == self@[i as int]);
                assert(self@.skip(i as int).drop_first() =~= self@.skip(i + 1));
            }
            i = i + 1;
        }
        proof {
            if i < self.entries.len() {
                assert(self@.skip(i as int)[0] == self@[i as int]);
            }
        }
        i
    }

    /// Inserts the row under `key`, replacing the row of an equal key and
    /// otherwise splicing the pair in at its ordered position.
    pub fn insert(&mut self, key: i64, row: Row)
        requires
            old(self).wf(),
        ensures
            final(self).wf(),
            final(self)@ == spec_insert(old(self)@, key as int, row@),
    {
        let ghost s = self@;
        let ghost k = key as int;
        let i = self.lower_bound(key);
        proof {
            lemma_lb_bounds(s, k);
        }
        if i < self.entries.len() && self.entries[i].key == key {
            self.entries[i] = Entry { key, row };
            proof {
                assert(self@ =~= s.update(i as int, (k, row@)));
                assert forall|p: int, q: int| 0 <= p < q < self@.len() implies self@[p].0
                    < self@[q].0 by {
                    assert(s[p].0 < s[q].0);
                }
            }
        } else {
            self.entries.insert(i, Entry { key, row });
            proof {
                assert(self@ =~= s.insert(i as int, (k, row@)));
                assert forall|p: int, q: int| 0 <= p < q < self@.len() implies self@[p].0
                    < self@[q].0 by {
                    if p < i && q < i {
                        assert(self@[p] == s[p] && self@[q] == s[q]);
                    } else if p < i && q == i {
                        assert(self@[p] == s[p]);
                    } else if p < i && q > i {
                        assert(self@[p] == s[p] && self@[q] == s[q - 1]);
                        assert(s[p].0 < k);
                    } else if p == i && q > i {
                        assert(self@[q] == s[q - 1]);
                        assert(s[q - 1].0 >= k);
                        assert(s[q - 1].0 != k || i < s.len() && s[i as int].0 == k);
                    } else {
                        assert(self@[p] == s[p - 1] && self@[q] == s[q - 1]);
                    }
                }
            }
        }
    }

    /// Removes the entry keyed `key`; reports whether one was there.
    pub fn delete(&mut self, key: i64) -> (removed: bool)
        requires
            old(self).wf(),
        ensures
            final(self).wf(),
            final(self)@ == spec_delete(old(self)@, key as int),
            removed == (lb(old(self)@, key as int) < old(self)@.len() && old(self)@[lb(
                old(self)@,
                key as int,
            )].0 == key as int),
    {
        let ghost s = self@;
        let ghost k = key as int;
        let i = self.lower_bound(key);
        proof {
            lemma_lb_bounds(s, k);
        }
        if i < self.entries.len() && self.entries[i].key == key {
            self.entries.remove(i);
            proof {
                assert(self@ =~= s.remove(i as int));
                assert forall|p: int, q: int| 0 <= p < q < self@.len() implies self@[p].0
                    < self@[q].0 by {
                    let p0 = if p < i { p } else { p + 1 };
                    let q0 = if q < i { q } else { q + 1 };
                    assert(s[p0].0 < s[q0].0);
                }
            }
            true
        } else {
            false
        }
    }

    /// Positions an ordered lookup: the first entry satisfying `Eq`, `Ge`
    /// or `Gt`, the last entry satisfying `Le` or `Lt`, or nothing.
    pub fn seek(&self, key: i64, op: SeekOp) -> (r: Option<usize>)
        requires
            self.wf(),
        ensures
            match r {
                Some(i) => Some(i as int) == spec_seek(self@, key as int, op),
                None => spec_seek(self@, key as int, op) is None,
            },
    {
        let ghost s = self@;
        let ghost k = key as int;
        let i = self.lower_bound(key);
        proof {
            lemma_lb_bounds(s, k);
        }
        match op {
            SeekOp::Eq => {
                if i < self.entries.len() && self.entries[i].key == key {
                    Some(i)
                } else {
                    None
                }
            },
            SeekOp::Ge => {
                if i < self.entries.len() {
                    Some(i)
                } else {
                    None
                }
            },
            SeekOp::Gt => {
                let j = if i < self.entries.len() && self.entries[i].key == key {
                    i + 1
                } else {
                    i
                };
                proof {
                    lemma_ub_unique(s, k, j as int);
                }
                if j < self.entries.len() {
                    Some(j)
                } else {
                    None
                }
            },
            SeekOp::Le => {
                let j = if i < self.entries.len() && self.entries[i].key == key {
                    i + 1
                } else {
                    i
                };
                proof {
                    lemma_ub_unique(s, k, j as int);
                }
                if j > 0 {
                    Some(j - 1)
                } else {
                    None
                }
            },
            SeekOp::Lt => {
                if i > 0 {
                    Some(i - 1)
                } else {
                    None
                }
            },
        }
    }
}

/// However a table was built — any sequence of inserts and deletes — a
/// full scan in cursor order yields its keys in strictly ascending order.
pub proof fn lemma_scan_ascending(t: Table)
    requires
        t.wf(),
    ensures
        forall|i: int, j: int| 0 <= i < j < t@.len() ==> t@[i].0 < t@[j].0,
{
}

/// Round trip: inserting a row under a key and then seeking that key finds
/// exactly that row, value for value.
pub proof fn lemma_insert_round_trip(s: Seq<(int, Seq<ValueS>)>, k: int, v: Seq<ValueS>)
    requires
        sorted_entries(s),
    ensures
        sorted_entries(spec_insert(s, k, v)),
        spec_seek(spec_insert(s, k, v), k, SeekOp::Eq) is Some,
        ({
            let s2 = spec_insert(s, k, v);
            let i = spec_seek(s2, k, SeekOp::Eq).unwrap();
            0 <= i < s2.len() && s2[i].0 == k && s2[i].1 == v
        }),
{
    lemma_lb_bounds(s, k);
    let i = lb(s, k);
    let s2 = spec_insert(s, k, v);
    if i < s.len() && s[i].0 == k {
        assert forall|p: int, q: int| 0 <= p < q < s2.len() implies s2[p].0 < s2[q].0 by {
            assert(s[p].0 < s[q].0);
        }
    } else {
        assert forall|p: int, q: int| 0 <= p < q < s2.len() implies s2[p].0 < s2[q].0 by {
            if p < i && q < i {
                assert(s2[p] == s[p] && s2[q] == s[q]);
            } else if p < i && q == i {
                assert(s2[p] == s[p]);
            } else if p < i && q > i {
                assert(s2[p] == s[p] && s2[q] == s[q - 1]);
                assert(s[p].0 < k);
            } else if p == i && q > i {
                assert(s2[q] == s[q - 1]);
                assert(s[q - 1].0 >= k);
                assert(s[q - 1].0 != k || i < s.len() && s[i].0 == k);
            } else {
                assert(s2[p] == s[p - 1] && s2[q] == s[q - 1]);
            }
        }
    }
    assert forall|j: int| 0 <= j < i implies s2[j].0 < k by {
        assert(s2[j] == s[j]);
    }
    assert(s2[i].0 == k);
    lemma_lb_unique(s2, k, i);
}

/// A cursor: positioned at an entry, not yet positioned, or driven past the
/// last entry.
#[derive(Clone, Copy, PartialEq, Eq, Structural, Debug)]
pub enum Cursor {
    Unpositioned,
    At(usize),
    Exhausted,
}

impl Cursor {
    pub open spec fn valid_for(self, s: Seq<(int, Seq<ValueS>)>) -> bool {
        match self {
            Cursor::At(i) => i < s.len(),
            _ => true,
        }
    }
}

impl Table {
    /// Positions the cursor at the first entry, or exhausts it at once on
    /// an empty table.
    pub fn rewind(&self, cur: &mut Cursor)
        ensures
            self@.len() == 0 ==> *final(cur) == Cursor::Exhausted,
            self@.len() > 0 ==> *final(cur) == Cursor::At(0),
            final(cur).valid_for(self@),
    {
        if self.entries.len() == 0 {
            *cur = Cursor::Exhausted;
        } else {
            *cur = Cursor::At(0);
        }
    }

    /// Advances to the next entry in key order; past the last entry the
    /// cursor is exhausted, and stays so.
    pub fn advance_cursor(&self, cur: &mut Cursor)
        requires
            old(cur).valid_for(self@),
            !(*old(cur) is Unpositioned),
        ensures
            final(cur).valid_for(self@),
            match *old(cur) {
                Cursor::At(i) => if i + 1 < self@.len() {
                    *final(cur) == Cursor::At((i + 1) as usize)
                } else {
                    *final(cur) == Cursor::Exhausted
                },
                _ => *final(cur) == Cursor::Exhausted,
            },
    {
        match *cur {
            Cursor::At(i) => {
                let n = self.entries.len();
                if i + 1 < n {
                    *cur = Cursor::At(i + 1);
                } else {
                    *cur = Cursor::Exhausted;
                }
            },
            _ => {
                *cur = Cursor::Exhausted;
            },
        }
    }

    /// Steps back to the previous entry; before the first entry the cursor
    /// is exhausted.
    pub fn retreat_cursor(&self, cur: &mut Cursor)
        requires
            old(cur).valid_for(self@),
            !(*old(cur) is Unpositioned),
        ensures
            final(cur).valid_for(self@),
            match *old(cur) {
                Cursor::At(i) => if i > 0 {
                    *final(cur) == Cursor::At((i - 1) as usize)
                } else {
                    *final(cur) == Cursor::Exhausted
                },
                _ => *final(cur) == Cursor::Exhausted,
            },
    {
        match *cur {
            Cursor::At(i) => {
                if i > 0 {
                    *cur = Cursor::At(i - 1);
                } else {
                    *cur = Cursor::Exhausted;
                }
            },
            _ => {
                *cur = Cursor::Exhausted;
            },
        }
    }
}

} // verus!
