use vstd::prelude::*;
use crate::table::{Entry, Row, Table, sorted_entries};
use crate::value::ValueS;

verus! {

/// Most entries a leaf page may carry.
pub const LEAF_CAP: usize = 8;

/// Most children an interior page may carry.
pub const FANOUT: usize = 8;

/// One fixed-size page of the persisted file. Page 0 always holds the
/// metadata, whose write is the durability marker of a commit; every other
/// page is a B-tree node. A node never moves: commits only append fresh
/// node pages and then overwrite the metadata.
pub enum PageData {
    /// The durability marker: the root page number (0 when the tree is
    /// empty), the uniform height of the tree, and the extent: the number
    /// of pages that were valid when this marker was written.
    Meta { root: usize, height: usize, extent: usize },
    /// A leaf node: one key per row, kept in ascending key order.
    LeafPage { keys: Vec<i64>, rows: Vec<Row> },
    /// An interior node: the page numbers of its children, left to right.
    InteriorPage { children: Vec<usize> },
}

pub open spec fn meta_root(p: PageData) -> int {
    match p {
        PageData::Meta { root, .. } => root as int,
        _ => 0,
    }
}

pub open spec fn meta_height(p: PageData) -> nat {
    match p {
        PageData::Meta { height, .. } => height as nat,
        _ => 0,
    }
}

pub open spec fn meta_extent(p: PageData) -> int {
    match p {
        PageData::Meta { extent, .. } => extent as int,
        _ => 0,
    }
}

/// The entries a leaf page carries, in page order.
pub open spec fn leaf_entries(keys: Seq<i64>, rows: Seq<Row>) -> Seq<(int, Seq<ValueS>)> {
    Seq::new(keys.len(), |i: int| (keys[i] as int, rows[i]@))
}

/// Reads the entries of the subtree rooted at page `p`, expecting a tree of
/// uniform height `h` whose pages all lie below `extent`. `None` means the
/// pages do not form such a tree. Because the height is spent one level per
/// hop, a `Some` answer certifies the balance invariant: every leaf sits
/// exactly `h` hops below the root, and no node exceeds its page capacity.
pub open spec fn decode_node(disk: Seq<PageData>, p: int, h: nat, extent: int) -> Option<
    Seq<(int, Seq<ValueS>)>,
>
    decreases h, 0nat, 0nat,
{
    if p < 1 || p >= extent || p >= disk.len() {
        None
    } else {
        match disk[p] {
            PageData::LeafPage { keys, rows } => if h == 0 && keys@.len() == rows@.len() && 1
                <= keys@.len() <= LEAF_CAP {
                Some(leaf_entries(keys@, rows@))
            } else {
                None
            },
            PageData::InteriorPage { children } => if h > 0 && 1 <= children@.len() <= FANOUT {
                decode_children(disk, children@, (h - 1) as nat, extent)
            } else {
                None
            },
            PageData::Meta { .. } => None,
        }
    }
}

/// Concatenates the entries of the sibling subtrees rooted at `cs`.
pub open spec fn decode_children(disk: Seq<PageData>, cs: Seq<usize>, h: nat, extent: int) -> Option<
    Seq<(int, Seq<ValueS>)>,
>
    decreases h, 1nat, cs.len(),
{
    if cs.len() == 0 {
        Some(Seq::empty())
    } else {
        match (decode_node(disk, cs[0] as int, h, extent), decode_children(
            disk,
            cs.drop_first(),
            h,
            extent,
        )) {
            (Some(a), Some(b)) => Some(a + b),
            _ => None,
        }
    }
}

/// The committed contents of the file: what the metadata page points at.
pub open spec fn durable_entries(disk: Seq<PageData>) -> Option<Seq<(int, Seq<ValueS>)>> {
    if disk.len() < 1 || !(disk[0] is Meta) {
        None
    } else if meta_root(disk[0]) == 0 {
        Some(Seq::empty())
    } else {
        decode_node(disk, meta_root(disk[0]), meta_height(disk[0]), meta_extent(disk[0]))
    }
}

/// Decoding reads only pages in `[1, extent)`: two disks that agree there
/// decode alike.
pub proof fn lemma_decode_frame(d1: Seq<PageData>, d2: Seq<PageData>, p: int, h: nat, extent: int)
    requires
        extent <= d1.len(),
        extent <= d2.len(),
        forall|q: int| 1 <= q < extent ==> d1[q] == d2[q],
    ensures
        decode_node(d1, p, h, extent) == decode_node(d2, p, h, extent),
    decreases h, 0nat, 0nat,
{
    if 1 <= p < extent {
        match d1[p] {
            PageData::InteriorPage { children } => {
                if h > 0 && 1 <= children@.len() <= FANOUT {
                    lemma_decode_frame_children(d1, d2, children@, (h - 1) as nat, extent);
                }
            },
            _ => {},
        }
    }
}

pub proof fn lemma_decode_frame_children(
    d1: Seq<PageData>,
    d2: Seq<PageData>,
    cs: Seq<usize>,
    h: nat,
    extent: int,
)
    requires
        extent <= d1.len(),
        extent <= d2.len(),
        forall|q: int| 1 <= q < extent ==> d1[q] == d2[q],
    ensures
        decode_children(d1, cs, h, extent) == decode_children(d2, cs, h, extent),
    decreases h, 1nat, cs.len(),
{
    if cs.len() > 0 {
        lemma_decode_frame(d1, d2, cs[0] as int, h, extent);
        lemma_decode_frame_children(d1, d2, cs.drop_first(), h, extent);
    }
}

/// A successful decode survives appending pages and widening the extent.
pub proof fn lemma_decode_extend(
    d1: Seq<PageData>,
    d2: Seq<PageData>,
    p: int,
    h: nat,
    e1: int,
    e2: int,
)
    requires
        e1 <= e2,
        e1 <= d1.len(),
        e2 <= d2.len(),
        forall|q: int| 1 <= q < e1 ==> d1[q] == d2[q],
        decode_node(d1, p, h, e1) is Some,
    ensures
        decode_node(d2, p, h, e2) == decode_node(d1, p, h, e1),
    decreases h, 0nat, 0nat,
{
    match d1[p] {
        PageData::InteriorPage { children } => {
            if h > 0 && 1 <= children@.len() <= FANOUT {
                lemma_decode_extend_children(d1, d2, children@, (h - 1) as nat, e1, e2);
            }
        },
        _ => {},
    }
}

pub proof fn lemma_decode_extend_children(
    d1: Seq<PageData>,
    d2: Seq<PageData>,
    cs: Seq<usize>,
    h: nat,
    e1: int,
    e2: int,
)
    requires
        e1 <= e2,
        e1 <= d1.len(),
        e2 <= d2.len(),
        forall|q: int| 1 <= q < e1 ==> d1[q] == d2[q],
        decode_children(d1, cs, h, e1) is Some,
    ensures
        decode_children(d2, cs, h, e2) == decode_children(d1, cs, h, e1),
    decreases h, 1nat, cs.len(),
{
    if cs.len() > 0 {
        lemma_decode_extend(d1, d2, cs[0] as int, h, e1, e2);
        lemma_decode_extend_children(d1, d2, cs.drop_first(), h, e1, e2);
    }
}

/// Sibling lists decode piecewise: a concatenation decodes to the
/// concatenation of the parts, and fails when either part fails.
pub proof fn lemma_decode_children_concat(
    disk: Seq<PageData>,
    cs1: Seq<usize>,
    cs2: Seq<usize>,
    h: nat,
    extent: int,
)
    ensures
        decode_children(disk, cs1 + cs2, h, extent) == match (decode_children(
            disk,
            cs1,
            h,
            extent,
        ), decode_children(disk, cs2, h, extent)) {
            (Some(a), Some(b)) => Some(a + b),
            _ => None::<Seq<(int, Seq<ValueS>)>>,
        },
    decreases cs1.len(),
{
    if cs1.len() == 0 {
        assert(cs1 + cs2 =~= cs2);
        match decode_children(disk, cs2, h, extent) {
            Some(b) => {
                assert(Seq::<(int, Seq<ValueS>)>::empty() + b =~= b);
            },
            None => {},
        }
    } else {
        assert((cs1 + cs2).drop_first() =~= cs1.drop_first() + cs2);
        lemma_decode_children_concat(disk, cs1.drop_first(), cs2, h, extent);
        match (decode_node(disk, cs1[0] as int, h, extent), decode_children(
            disk,
            cs1.drop_first(),
            h,
            extent,
        ), decode_children(disk, cs2, h, extent)) {
            (Some(a), Some(b), Some(c)) => {
                assert(a + (b + c) =~= (a + b) + c);
            },
            _ => {},
        }
    }
}

/// One entry of the I/O scheduler's queue: write `page` to page number
/// `target`.
pub struct WriteOp {
    pub target: usize,
    pub page: PageData,
}

/// The pager: the persisted file of pages and the FIFO queue of submitted,
/// not yet performed, page writes. The pager keeps the complete page image
/// in memory, so a read is always served from that image at once and no
/// read ever suspends; there is consequently no eviction, no pinning and no
/// read queue here. Writes become durable only when `drive` performs them,
/// and the metadata write that flips a commit's visibility is always queued
/// last.
pub struct Pager {
    disk: Vec<PageData>,
    queue: Vec<WriteOp>,
}

impl Pager {
    pub closed spec fn disk_view(self) -> Seq<PageData> {
        self.disk@
    }

    pub closed spec fn queue_len(self) -> int {
        self.queue@.len() as int
    }

    /// The planned file: the current file with every queued node write
    /// already applied (the queued metadata write excepted).
    pub closed spec fn planned_disk(self) -> Seq<PageData> {
        self.disk@ + Seq::new((self.queue@.len() - 1) as nat, |i: int| self.queue@[i].page)
    }

    /// What the queued commit will make durable once its marker is written.
    pub closed spec fn pending(self) -> Seq<(int, Seq<ValueS>)> {
        let m = self.queue@[self.queue@.len() - 1].page;
        if meta_root(m) == 0 {
            Seq::empty()
        } else {
            decode_node(self.planned_disk(), meta_root(m), meta_height(m), meta_extent(m)).unwrap()
        }
    }

    pub closed spec fn queue_inv(self) -> bool {
        self.queue@.len() == 0 || {
            let n = self.queue@.len() as int;
            let m = self.queue@[n - 1].page;
            &&& forall|i: int|
                0 <= i < n - 1 ==> self.queue@[i].target == self.disk@.len() + i && !(
                self.queue@[i].page is Meta)
            &&& self.queue@[n - 1].target == 0
            &&& m is Meta
            &&& meta_extent(m) == self.disk@.len() + n - 1
            &&& (meta_root(m) == 0 || decode_node(
                self.planned_disk(),
                meta_root(m),
                meta_height(m),
                meta_extent(m),
            ) is Some)
            &&& sorted_entries(self.pending())
        }
    }

    /// Every reachable pager state keeps a committed, decodable, sorted
    /// tree on page 0's marker, and a queue that appends fresh node pages
    /// before it rewrites the marker.
    pub closed spec fn inv(self) -> bool {
        &&& self.disk@.len() >= 1
        &&& self.disk@[0] is Meta
        &&& 1 <= meta_extent(self.disk@[0]) <= self.disk@.len()
        &&& durable_entries(self.disk@) is Some
        &&& sorted_entries(self.durable())
        &&& self.queue_inv()
    }

    /// The committed entries: what a reopen after a crash recovers.
    pub closed spec fn durable(self) -> Seq<(int, Seq<ValueS>)> {
        durable_entries(self.disk@).unwrap()
    }

    pub open spec fn committing(self) -> bool {
        self.queue_len() > 0
    }

    /// A fresh single-file database: an empty tree, nothing queued.
    pub fn new() -> (p: Pager)
        ensures
            p.inv(),
            !p.committing(),
            p.queue_len() == 0,
            p.disk_view().len() == 1,
            p.durable() == Seq::<(int, Seq<ValueS>)>::empty(),
    {
        let mut disk: Vec<PageData> = Vec::new();
        disk.push(PageData::Meta { root: 0, height: 0, extent: 1 });
        Pager { disk, queue: Vec::new() }
    }

    pub fn pending_writes(&self) -> (n: usize)
        ensures
            n as int == self.queue_len(),
    {
        self.queue.len()
    }

    pub fn disk_len(&self) -> (n: usize)
        ensures
            n as int == self.disk_view().len(),
    {
        self.disk.len()
    }

    /// Drops the queue without performing it: the crash model, and also the
    /// rollback of whatever a began commit had submitted. The committed
    /// state is untouched.
    pub fn crash(&mut self)
        requires
            old(self).inv(),
        ensures
            final(self).inv(),
            !final(self).committing(),
            final(self).queue_len() == 0,
            final(self).disk_view() == old(self).disk_view(),
            final(self).durable() == old(self).durable(),
    {
        self.queue.clear();
    }

    /// Performs the oldest queued write. Every write before the marker
    /// lands on a fresh page and leaves the committed state exactly as it
    /// was; the marker write, always last, flips the committed state to the
    /// pending snapshot in one page write.
    pub fn drive(&mut self)
        requires
            old(self).inv(),
            old(self).committing(),
        ensures
            final(self).inv(),
            final(self).queue_len() == old(self).queue_len() - 1,
            old(self).queue_len() > 1 ==> final(self).durable() == old(self).durable()
                && final(self).committing() && final(self).pending() == old(self).pending(),
            old(self).queue_len() == 1 ==> final(self).durable() == old(self).pending() && !(
            final(self).committing()),
    {
        let ghost old_self = *self;
        let n = self.queue.len();
        let op = self.queue.remove(0);
        if n > 1 {
            proof {
                assert(op.target == self.disk@.len());
            }
            self.disk.push(op.page);
            proof {
                let d_old = old_self.disk@;
                let d_new = self.disk@;
                assert(d_new == d_old.push(op.page));
                // committed state: the marker and everything below its
                // extent are untouched by an append
                assert(d_new[0] == d_old[0]);
                let m0 = d_old[0];
                if meta_root(m0) != 0 {
                    lemma_decode_frame(d_old, d_new, meta_root(m0), meta_height(m0), meta_extent(m0));
                }
                assert(durable_entries(d_new) == durable_entries(d_old));
                // the planned file is unchanged: the applied page moved
                // from the queue onto the disk
                assert(self.planned_disk() =~= old_self.planned_disk());
                assert(self.pending() == old_self.pending());
                assert(self.queue_inv());
            }
        } else {
            proof {
                assert(op.target == 0);
                assert(op.page is Meta);
            }
            self.disk[0] = op.page;
            proof {
                let d_old = old_self.disk@;
                let d_new = self.disk@;
                assert(d_new == d_old.update(0, op.page));
                assert(old_self.planned_disk() =~= d_old);
                let m = op.page;
                if meta_root(m) != 0 {
                    lemma_decode_frame(d_old, d_new, meta_root(m), meta_height(m), meta_extent(m));
                }
                assert(durable_entries(d_new) is Some);
                assert(self.durable() == old_self.pending());
            }
        }
    }
}

impl Pager {
    /// Begins committing the table: builds a complete page image of its
    /// tree — leaves first, then each interior level, so every child page
    /// number precedes its parent — and submits one write per page, oldest
    /// first, followed by the metadata marker. Nothing reaches the file
    /// until `drive` performs the queued writes, and the marker is
    /// performed last.
    pub fn commit_begin(&mut self, t: &Table)
        requires
            old(self).inv(),
            !old(self).committing(),
            t.wf(),
            old(self).disk_view().len() + 3 * t@.len() + 1 <= usize::MAX,
        ensures
            final(self).inv(),
            final(self).committing(),
            final(self).pending() == t@,
            final(self).durable() == old(self).durable(),
            final(self).disk_view() == old(self).disk_view(),
    {
        let ghost d0 = self.disk@;
        let base = self.disk.len();
        let n = t.len();
        let mut plan: Vec<PageData> = Vec::new();
        let mut ptrs: Vec<usize> = Vec::new();
        let mut covered: usize = 0;
        proof {
            assert(t@.subrange(0, 0) =~= Seq::<(int, Seq<ValueS>)>::empty());
        }
        while covered < n
            invariant
                n == t@.len(),
                t.wf(),
                base == d0.len(),
                base >= 1,
                base + 3 * n + 1 <= usize::MAX,
                covered <= n,
                ptrs@.len() == plan@.len(),
                ptrs@.len() <= covered,
                covered > 0 ==> ptrs@.len() >= 1,
                forall|j: int| 0 <= j < plan@.len() ==> !(#[trigger] plan@[j] is Meta),
                decode_children(d0 + plan@, ptrs@, 0, base + plan@.len()) == Some(
                    t@.subrange(0, covered as int),
                ),
            decreases n - covered,
        {
            let remaining = n - covered;
            let c = if remaining < LEAF_CAP {
                remaining
            } else {
                LEAF_CAP
            };
            let mut keys: Vec<i64> = Vec::new();
            let mut rows: Vec<Row> = Vec::new();
            let mut j: usize = 0;
            while j < c
                invariant
                    j <= c,
                    1 <= c,
                    covered + c <= n,
                    n == t@.len(),
                    keys@.len() == j,
                    rows@.len() == j,
                    leaf_entries(keys@, rows@) == t@.subrange(covered as int, covered + j),
                decreases c - j,
            {
                keys.push(t.key_at(covered + j));
                rows.push(t.row_at(covered + j));
                proof {
                    assert(leaf_entries(keys@, rows@) =~= t@.subrange(covered as int, covered + j + 1));
                }
                j = j + 1;
            }
            let ghost gk = keys@;
            let ghost gr = rows@;
            let idx = base + plan.len();
            let ghost aug1 = d0 + plan@;
            let ghost e1 = base + plan@.len() as int;
            let page = PageData::LeafPage { keys, rows };
            let ghost gpage = page;
            plan.push(page);
            proof {
                let aug2 = d0 + plan@;
                let e2 = base + plan@.len() as int;
                assert(aug2 =~= aug1.push(gpage));
                lemma_decode_extend_children(aug1, aug2, ptrs@, 0, e1, e2);
                assert(aug2[idx as int] == gpage);
                let chunk = t@.subrange(covered as int, covered + c);
                assert(decode_node(aug2, idx as int, 0, e2) == Some(chunk));
                lemma_decode_children_concat(aug2, ptrs@, seq![idx], 0, e2);
                assert(seq![idx].drop_first() =~= Seq::<usize>::empty());
                assert(decode_children(aug2, Seq::<usize>::empty(), 0, e2) == Some(Seq::<(
                    int,
                    Seq<ValueS>,
                )>::empty()));
                assert(decode_children(aug2, seq![idx], 0, e2) == Some(chunk + Seq::empty()));
                assert(chunk + Seq::<(int, Seq<ValueS>)>::empty() =~= chunk);
                assert(ptrs@ + seq![idx] =~= ptrs@.push(idx));
                assert(t@.subrange(0, covered as int) + chunk =~= t@.subrange(0, covered + c));
            }
            ptrs.push(idx);
            covered = covered + c;
        }
        proof {
            assert(t@.subrange(0, n as int) =~= t@);
        }
        let mut height: usize = 0;
        if n > 0 {
            while ptrs.len() > 1
                invariant
                    n == t@.len(),
                    n >= 1,
                    base == d0.len(),
                    base >= 1,
                    base + 3 * n + 1 <= usize::MAX,
                    1 <= ptrs@.len(),
                    plan@.len() + 2 * ptrs@.len() <= 3 * n,
                    height + ptrs@.len() <= usize::MAX,
                    forall|j: int| 0 <= j < plan@.len() ==> !(#[trigger] plan@[j] is Meta),
                    decode_children(d0 + plan@, ptrs@, height as nat, base + plan@.len()) == Some(
                        t@,
                    ),
                decreases ptrs@.len(),
            {
                let ghost plan_s = plan@.len() as int;
                let ghost p_total = ptrs@.len() as int;
                let mut newptrs: Vec<usize> = Vec::new();
                let mut consumed: usize = 0;
                proof {
                    assert(ptrs@.skip(0) =~= ptrs@);
                    assert(decode_children(
                        d0 + plan@,
                        Seq::<usize>::empty(),
                        (height + 1) as nat,
                        base + plan@.len(),
                    ) == Some(Seq::<(int, Seq<ValueS>)>::empty()));
                }
                while consumed < ptrs.len()
                    invariant
                        n == t@.len(),
                        base == d0.len(),
                        base >= 1,
                        base + 3 * n + 1 <= usize::MAX,
                        p_total == ptrs@.len(),
                        2 <= p_total,
                        consumed <= p_total,
                        plan_s + 2 * p_total <= 3 * n,
                        plan@.len() == plan_s + newptrs@.len(),
                        2 * newptrs@.len() <= consumed + 1,
                        consumed < p_total ==> 2 * newptrs@.len() <= consumed,
                        height + 1 <= usize::MAX,
                        forall|j: int| 0 <= j < plan@.len() ==> !(#[trigger] plan@[j] is Meta),
                        ({
                            let aug = d0 + plan@;
                            let e = base + plan@.len() as int;
                            match (decode_children(aug, newptrs@, (height + 1) as nat, e),
                            decode_children(aug, ptrs@.skip(consumed as int), height as nat, e)) {
                                (Some(x), Some(y)) => x + y == t@,
                                _ => false,
                            }
                        }),
                    decreases p_total - consumed,
                {
                    let rem = ptrs.len() - consumed;
                    let c = if rem < FANOUT {
                        rem
                    } else {
                        FANOUT
                    };
                    let mut children: Vec<usize> = Vec::new();
                    let mut j: usize = 0;
                    while j < c
                        invariant
                            j <= c,
                            1 <= c,
                            consumed + c <= ptrs@.len(),
                            ptrs@.len() <= usize::MAX,
                            children@ == ptrs@.subrange(consumed as int, consumed + j),
                        decreases c - j,
                    {
                        children.push(ptrs[consumed + j]);
                        proof {
                            assert(children@ =~= ptrs@.subrange(consumed as int, consumed + j + 1));
                        }
                        j = j + 1;
                    }
                    let ghost gc = children@;
                    let idx = base + plan.len();
                    let ghost aug1 = d0 + plan@;
                    let ghost e1 = base + plan@.len() as int;
                    let page = PageData::InteriorPage { children };
                    let ghost gpage = page;
                    plan.push(page);
                    proof {
                        let aug2 = d0 + plan@;
                        let e2 = base + plan@.len() as int;
                        assert(aug2 =~= aug1.push(gpage));
                        let x = decode_children(aug1, newptrs@, (height + 1) as nat, e1).unwrap();
                        let y = decode_children(
                            aug1,
                            ptrs@.skip(consumed as int),
                            height as nat,
                            e1,
                        ).unwrap();
                        lemma_decode_extend_children(aug1, aug2, newptrs@, (height + 1) as nat, e1, e2);
                        lemma_decode_extend_children(
                            aug1,
                            aug2,
                            ptrs@.skip(consumed as int),
                            height as nat,
                            e1,
                            e2,
                        );
                        assert(ptrs@.skip(consumed as int) =~= gc + ptrs@.skip(consumed + c));
                        lemma_decode_children_concat(aug2, gc, ptrs@.skip(consumed + c), height as nat, e2);
                        let y1 = decode_children(aug2, gc, height as nat, e2).unwrap();
                        let y2 = decode_children(aug2, ptrs@.skip(consumed + c), height as nat, e2).unwrap();
                        assert(y1 + y2 == y);
                        assert(aug2[idx as int] == gpage);
                        assert(decode_node(aug2, idx as int, (height + 1) as nat, e2) == Some(y1));
                        lemma_decode_children_concat(aug2, newptrs@, seq![idx], (height + 1) as nat, e2);
                        assert(seq![idx].drop_first() =~= Seq::<usize>::empty());
                        assert(decode_children(aug2, Seq::<usize>::empty(), (height + 1) as nat, e2)
                            == Some(Seq::<(int, Seq<ValueS>)>::empty()));
                        assert(y1 + Seq::<(int, Seq<ValueS>)>::empty() =~= y1);
                        assert(decode_children(aug2, seq![idx], (height + 1) as nat, e2) == Some(y1));
                        assert(newptrs@ + seq![idx] =~= newptrs@.push(idx));
                        assert((x + y1) + y2 =~= x + (y1 + y2));
                        assert(x + (y1 + y2) == t@);
                    }
                    newptrs.push(idx);
                    consumed = consumed + c;
                }
                proof {
                    assert(ptrs@.skip(p_total) =~= Seq::<usize>::empty());
                    let aug = d0 + plan@;
                    let e = base + plan@.len() as int;
                    let x = decode_children(aug, newptrs@, (height + 1) as nat, e).unwrap();
                    assert(x + Seq::<(int, Seq<ValueS>)>::empty() =~= x);
                }
                ptrs = newptrs;
                height = height + 1;
            }
        }
        let root: usize = if n == 0 {
            0
        } else {
            ptrs[0]
        };
        proof {
            if n > 0 {
                let aug = d0 + plan@;
                let e = base + plan@.len() as int;
                assert(ptrs@.drop_first() =~= Seq::<usize>::empty());
                assert(decode_children(aug, Seq::<usize>::empty(), height as nat, e) == Some(Seq::<(
                    int,
                    Seq<ValueS>,
                )>::empty()));
                assert(ptrs@[0] == root);
                let a = decode_node(aug, root as int, height as nat, e).unwrap();
                assert(a + Seq::<(int, Seq<ValueS>)>::empty() =~= a);
                assert(decode_node(aug, root as int, height as nat, e) == Some(t@));
            }
        }
        let total = plan.len();
        let ghost plan0 = plan@;
        let mut i: usize = 0;
        while plan.len() > 0
            invariant
                i + plan@.len() == plan0.len(),
                plan@ == plan0.skip(i as int),
                self.queue@.len() == i,
                base == self.disk@.len(),
                base + plan0.len() <= usize::MAX,
                self.disk@ == d0,
                forall|j: int|
                    0 <= j < i ==> (#[trigger] self.queue@[j]).target == base + j
                        && self.queue@[j].page == plan0[j],
            decreases plan@.len(),
        {
            let page = plan.remove(0);
            self.queue.push(WriteOp { target: base + i, page });
            proof {
                assert(plan@ =~= plan0.skip(i + 1));
            }
            i = i + 1;
        }
        self.queue.push(
            WriteOp { target: 0, page: PageData::Meta { root, height, extent: base + total } },
        );
        proof {
            let q = self.queue@;
            let nq = q.len() as int;
            assert(Seq::new((nq - 1) as nat, |k: int| q[k].page) =~= plan0);
            assert(self.planned_disk() == d0 + plan0);
            if n == 0 {
                assert(t@ =~= Seq::<(int, Seq<ValueS>)>::empty());
                assert(self.pending() == t@);
            } else {
                assert(self.pending() == t@);
            }
            assert(self.queue_inv());
        }
    }
}

/// Reads back the subtree rooted at page `p` of height `h`: the executable
/// mirror of `decode_node`.
fn decode_node_exec(disk: &Vec<PageData>, p: usize, h: usize, extent: usize) -> (r: Option<
    Vec<Entry>,
>)
    ensures
        match r {
            Some(v) => decode_node(disk@, p as int, h as nat, extent as int) == Some(
                v@.map_values(|e: Entry| e@),
            ),
            None => decode_node(disk@, p as int, h as nat, extent as int) is None,
        },
    decreases h,
{
    if p < 1 || p >= extent || p >= disk.len() {
        return None;
    }
    match &disk[p] {
        PageData::LeafPage { keys, rows } => {
            if h == 0 && keys.len() == rows.len() && 1 <= keys.len() && keys.len() <= LEAF_CAP {
                let mut out: Vec<Entry> = Vec::new();
                let mut j: usize = 0;
                while j < keys.len()
                    invariant
                        j <= keys@.len(),
                        keys@.len() == rows@.len(),
                        out@.len() == j,
                        forall|q: int|
                            0 <= q < j ==> (#[trigger] out@[q])@ == (keys@[q] as int, rows@[q]@),
                    decreases keys@.len() - j,
                {
                    let row = rows[j].clone();
                    out.push(Entry { key: keys[j], row });
                    j = j + 1;
                }
                proof {
                    assert(out@.map_values(|e: Entry| e@) =~= leaf_entries(keys@, rows@));
                }
                Some(out)
            } else {
                None
            }
        },
        PageData::InteriorPage { children } => {
            if h > 0 && 1 <= children.len() && children.len() <= FANOUT {
                let mut out: Vec<Entry> = Vec::new();
                let mut j: usize = 0;
                proof {
                    assert(children@.take(0) =~= Seq::<usize>::empty());
                }
                while j < children.len()
                    invariant
                        j <= children@.len(),
                        1 <= h,
                        decode_node(disk@, p as int, h as nat, extent as int) == decode_children(
                            disk@,
                            children@,
                            (h - 1) as nat,
                            extent as int,
                        ),
                        decode_children(disk@, children@.take(j as int), (h - 1) as nat, extent as int)
                            == Some(out@.map_values(|e: Entry| e@)),
                    decreases children@.len() - j,
                {
                    let sub = decode_node_exec(disk, children[j], h - 1, extent);
                    match sub {
                        Some(mut v) => {
                            let ghost pre = out@;
                            let ghost gv = v@;
                            out.append(&mut v);
                            proof {
                                assert(children@.take(j + 1) =~= children@.take(j as int).push(
                                    children@[j as int],
                                ));
                                lemma_decode_children_concat(
                                    disk@,
                                    children@.take(j as int),
                                    seq![children@[j as int]],
                                    (h - 1) as nat,
                                    extent as int,
                                );
                                assert(seq![children@[j as int]].drop_first() =~= Seq::<
                                    usize,
                                >::empty());
                                assert(decode_children(
                                    disk@,
                                    Seq::<usize>::empty(),
                                    (h - 1) as nat,
                                    extent as int,
                                ) == Some(Seq::<(int, Seq<ValueS>)>::empty()));
                                let sv = gv.map_values(|e: Entry| e@);
                                assert(sv + Seq::<(int, Seq<ValueS>)>::empty() =~= sv);
                                assert(children@.take(j as int) + seq![children@[j as int]]
                                    =~= children@.take(j + 1));
                                assert(out@ == pre + gv);
                                assert(out@.map_values(|e: Entry| e@) =~= pre.map_values(
                                    |e: Entry| e@,
                                ) + sv);
                            }
                        },
                        None => {
                            proof {
                                assert(children@.take(j as int) + children@.skip(j as int)
                                    =~= children@);
                                lemma_decode_children_concat(
                                    disk@,
                                    children@.take(j as int),
                                    children@.skip(j as int),
                                    (h - 1) as nat,
                                    extent as int,
                                );
                                assert(children@.skip(j as int)[0] == children@[j as int]);
                                assert(decode_children(
                                    disk@,
                                    children@.skip(j as int),
                                    (h - 1) as nat,
                                    extent as int,
                                ) is None);
                            }
                            return None;
                        },
                    }
                    j = j + 1;
                }
                proof {
                    assert(children@.take(children@.len() as int) =~= children@);
                    assert(decode_node(disk@, p as int, h as nat, extent as int)
                        == decode_children(disk@, children@, (h - 1) as nat, extent as int));
                }
                Some(out)
            } else {
                None
            }
        },
        PageData::Meta { .. } => None,
    }
}

/// Balance: whatever sequence of inserts, deletes and commits produced the
/// file, the committed pages always form a tree the decoder accepts — and
/// the decoder spends one level of height per hop and bounds every page, so
/// every leaf sits the same number of hops below the root and no node
/// exceeds its page capacity. The committed keys are strictly ascending.
pub proof fn lemma_durable_balanced(p: Pager)
    requires
        p.inv(),
    ensures
        durable_entries(p.disk_view()) is Some,
        sorted_entries(durable_entries(p.disk_view()).unwrap()),
{
}

impl Pager {
    /// Recovers the committed table from the file: reads the metadata page
    /// and decodes the tree it points at. This is what reopening after a
    /// crash observes — exactly the last committed state.
    pub fn load_table(&self) -> (t: Table)
        requires
            self.inv(),
        ensures
            t.wf(),
            t@ == self.durable(),
    {
        match &self.disk[0] {
            PageData::Meta { root, height, extent } => {
                if *root == 0 {
                    let t = Table::new();
                    proof {
                        assert(self.durable() =~= Seq::<(int, Seq<ValueS>)>::empty());
                    }
                    t
                } else {
                    let r = decode_node_exec(&self.disk, *root, *height, *extent);
                    match r {
                        Some(entries) => Table::from_entries(entries),
                        None => {
                            proof {
                                assert(false);
                            }
                            Table::new()
                        },
                    }
                }
            },
            _ => {
                proof {
                    assert(false);
                }
                Table::new()
            },
        }
    }
}

} // verus!
