use vstd::prelude::*;

verus! {

/// Number of bins in the ring of one history level.
pub const HISTORY_SIZE: usize = 128;

/// Number of time resolutions kept for every commodity.
pub const LEVEL_COUNT: usize = 6;

/// Opaque, totally ordered handle of a commodity of the item registry.
#[derive(Clone, Copy, Debug, PartialEq, Eq, Structural, PartialOrd, Ord, Hash)]
pub struct ItemID(pub u32);

/// Ticks between two bins of resolution `r`:
/// 5s, 1m, 10m, 1h, 10h and 50h of game time.
pub open spec fn spec_level_freq(r: int) -> u32 {
    if r == 0 {
        2
    } else if r == 1 {
        25
    } else if r == 2 {
        250
    } else if r == 3 {
        1500
    } else if r == 4 {
        15000
    } else {
        75000
    }
}

/// Ticks between two bins of resolution `r`.
pub fn level_freq(r: usize) -> (f: u32)
    requires
        r < LEVEL_COUNT,
    ensures
        f == spec_level_freq(r as int),
        f > 0,
{
    match r {
        0 => 2,
        1 => 25,
        2 => 250,
        3 => 1500,
        4 => 15000,
        _ => 75000,
    }
}

/// Whether the cursor of resolution `r` moves on at `tick`.
pub open spec fn level_moves(tick: u32, r: int) -> bool {
    tick % spec_level_freq(r) == 0
}

/// The cursor of resolution `r` after `tick`.
pub open spec fn next_cursor(c: usize, tick: u32, r: int) -> usize {
    if level_moves(tick, r) {
        ((c + 1) % (HISTORY_SIZE as int)) as usize
    } else {
        c
    }
}

/// `cell + qty`, saturating at `u32::MAX`.
pub open spec fn sat_add(cell: u32, qty: int) -> u32 {
    if cell + qty > u32::MAX {
        u32::MAX
    } else {
        (cell + qty) as u32
    }
}

/// One history of one item at one resolution.
/// The ring is walked by a cursor shared by all items.
#[derive(Clone, Copy)]
pub struct ItemHistoryLevel {
    pub past_ring: [u32; HISTORY_SIZE],
}

impl Default for ItemHistoryLevel {
    fn default() -> (r: Self)
        ensures
            forall|k: int| 0 <= k < HISTORY_SIZE ==> #[trigger] r.past_ring@[k] == 0,
    {
        ItemHistoryLevel { past_ring: [0u32; HISTORY_SIZE] }
    }
}

/// The histories of one item, one per resolution.
#[derive(Clone, Copy)]
pub struct ItemHistory {
    pub levels: [ItemHistoryLevel; LEVEL_COUNT],
}

impl Default for ItemHistory {
    fn default() -> (r: Self)
        ensures
            forall|l: int, k: int|
                0 <= l < LEVEL_COUNT && 0 <= k < HISTORY_SIZE ==> #[trigger] r.levels@[l].past_ring@[k]
                    == 0,
    {
        let z = ItemHistoryLevel::default();
        ItemHistory { levels: [z; LEVEL_COUNT] }
    }
}

/// Who stands on one side of a trade.
#[derive(Clone, Copy, Debug, PartialEq, Eq, Structural)]
pub enum TradeTarget {
    /// A counterparty outside the simulated economy.
    ExternalTrade,
    /// An agent of the simulation.
    Internal(u64),
}

/// A trade of `qty` units of the commodity `kind`.
#[derive(Clone, Copy, Debug, PartialEq, Eq, Structural)]
pub struct Trade {
    pub kind: ItemID,
    pub qty: i32,
    pub buyer: TradeTarget,
    pub seller: TradeTarget,
}

/// Abstract state of one set of histories: the items in ascending order,
/// the shared cursors, and `cells[i][r][k]`, bin `k` of resolution `r` of item `i`.
pub struct HistView {
    pub ids: Seq<ItemID>,
    pub cursors: Seq<usize>,
    pub cells: Seq<Seq<Seq<u32>>>,
}

pub open spec fn ids_ascending(ids: Seq<ItemID>) -> bool {
    forall|i: int, j: int| 0 <= i < j < ids.len() ==> (#[trigger] ids[i]).0 < (#[trigger] ids[j]).0
}

impl HistView {
    pub open spec fn wf(self) -> bool {
        &&& ids_ascending(self.ids)
        &&& self.cursors.len() == LEVEL_COUNT
        &&& forall|r: int| 0 <= r < LEVEL_COUNT ==> #[trigger] self.cursors[r] < HISTORY_SIZE
        &&& self.cells.len() == self.ids.len()
        &&& forall|i: int| 0 <= i < self.ids.len() ==> (#[trigger] self.cells[i]).len() == LEVEL_COUNT
        &&& forall|i: int, r: int|
            0 <= i < self.ids.len() && 0 <= r < LEVEL_COUNT ==> (#[trigger] self.cells[i][r]).len()
                == HISTORY_SIZE
    }

    /// A set just made for `registry`: one entry per distinct commodity of it,
    /// every cursor and every bin at zero.
    pub open spec fn fresh(self, registry: Seq<ItemID>) -> bool {
        &&& self.wf()
        &&& forall|id: ItemID| self.ids.contains(id) <==> registry.contains(id)
        &&& forall|r: int| 0 <= r < LEVEL_COUNT ==> #[trigger] self.cursors[r] == 0
        &&& forall|i: int, l: int, k: int|
            0 <= i < self.ids.len() && 0 <= l < LEVEL_COUNT && 0 <= k < HISTORY_SIZE
                ==> #[trigger] self.cells[i][l][k] == 0
    }

    /// The cursors move on at `tick`; the bin each moving cursor lands on is cleared.
    pub open spec fn advanced(self, tick: u32) -> HistView {
        let cursors = Seq::new(
            LEVEL_COUNT as nat,
            |r: int| next_cursor(self.cursors[r], tick, r),
        );
        HistView {
            ids: self.ids,
            cursors: cursors,
            cells: Seq::new(
                self.cells.len(),
                |i: int|
                    Seq::new(
                        LEVEL_COUNT as nat,
                        |r: int|
                            Seq::new(
                                HISTORY_SIZE as nat,
                                |k: int|
                                    if level_moves(tick, r) && k == cursors[r] {
                                        0u32
                                    } else {
                                        self.cells[i][r][k]
                                    },
                            ),
                    ),
            ),
        }
    }

    /// A trade of a positive quantity is added, saturating, to the current bin of
    /// every resolution of its commodity; any other trade changes nothing.
    pub open spec fn traded(self, t: Trade) -> HistView {
        if t.qty <= 0 {
            self
        } else {
            HistView {
                ids: self.ids,
                cursors: self.cursors,
                cells: Seq::new(
                    self.cells.len(),
                    |i: int|
                        if self.ids[i] == t.kind {
                            Seq::new(
                                LEVEL_COUNT as nat,
                                |r: int|
                                    self.cells[i][r].update(
                                        self.cursors[r] as int,
                                        sat_add(self.cells[i][r][self.cursors[r] as int], t.qty as int),
                                    ),
                            )
                        } else {
                            self.cells[i]
                        },
                ),
            }
        }
    }
}

/// The histories of every commodity at every resolution, with one cursor per resolution.
pub struct ItemHistories {
    m: Vec<(ItemID, ItemHistory)>,
    cursors: [usize; LEVEL_COUNT],
}

impl View for ItemHistories {
    type V = HistView;

    closed spec fn view(&self) -> HistView {
        HistView {
            ids: self.m@.map_values(|e: (ItemID, ItemHistory)| e.0),
            cursors: self.cursors@,
            cells: Seq::new(
                self.m@.len(),
                |i: int| Seq::new(LEVEL_COUNT as nat, |r: int| self.m@[i].1.levels@[r].past_ring@),
            ),
        }
    }
}

/// Where `id` stands in the ascending entries `m`: `Ok` with its index, or `Err`
/// with the index at which it would be inserted.
fn search(m: &Vec<(ItemID, ItemHistory)>, id: ItemID) -> (r: Result<usize, usize>)
    requires
        ids_ascending(m@.map_values(|e: (ItemID, ItemHistory)| e.0)),
    ensures
        match r {
            Ok(i) => i < m@.len() && m@[i as int].0 == id,
            Err(p) => p <= m@.len() && (forall|i: int| 0 <= i < p ==> (#[trigger] m@[i]).0.0 < id.0)
                && (forall|i: int| p <= i < m@.len() ==> (#[trigger] m@[i]).0.0 > id.0),
        },
{
    let ghost ids = m@.map_values(|e: (ItemID, ItemHistory)| e.0);
    let mut lo: usize = 0;
    let mut hi: usize = m.len();
    while lo < hi
        invariant
            lo <= hi <= m@.len(),
            ids == m@.map_values(|e: (ItemID, ItemHistory)| e.0),
            ids_ascending(ids),
            forall|i: int| 0 <= i < lo ==> (#[trigger] m@[i]).0.0 < id.0,
            forall|i: int| hi <= i < m@.len() ==> (#[trigger] m@[i]).0.0 > id.0,
        decreases hi - lo,
    {
        let mid = lo + (hi - lo) / 2;
        let k = m[mid].0;
        if k.0 == id.0 {
            return Ok(mid);
        } else if k.0 < id.0 {
            proof {
                assert forall|i: int| 0 <= i < mid + 1 implies (#[trigger] m@[i]).0.0 < id.0 by {
                    if i < mid {
                        assert(ids[i].0 < ids[mid as int].0);
                    }
                }
            }
            lo = mid + 1;
        } else {
            proof {
                assert forall|i: int| mid <= i < m@.len() implies (#[trigger] m@[i]).0.0 > id.0 by {
                    if i > mid {
                        assert(ids[mid as int].0 < ids[i].0);
                    }
                }
            }
            hi = mid;
        }
    }
    Err(lo)
}

impl ItemHistories {
    /// One zeroed history for each commodity of `registry`, all cursors at zero.
    pub fn new(registry: &[ItemID]) -> (r: Self)
        ensures
            r@.fresh(registry@),
    {
        let mut m: Vec<(ItemID, ItemHistory)> = Vec::new();
        let mut j: usize = 0;
        while j < registry.len()
            invariant
                j <= registry@.len(),
                ids_ascending(m@.map_values(|e: (ItemID, ItemHistory)| e.0)),
                forall|id: ItemID|
                    m@.map_values(|e: (ItemID, ItemHistory)| e.0).contains(id) <==> registry@.subrange(
                        0,
                        j as int,
                    ).contains(id),
                forall|i: int, l: int, k: int|
                    0 <= i < m@.len() && 0 <= l < LEVEL_COUNT && 0 <= k < HISTORY_SIZE
                        ==> #[trigger] m@[i].1.levels@[l].past_ring@[k] == 0,
            decreases registry@.len() - j,
        {
            let id = registry[j];
            let ghost old_m = m@;
            let ghost oids = old_m.map_values(|e: (ItemID, ItemHistory)| e.0);
            match search(&m, id) {
                Ok(i) => {
                    proof {
                        assert(oids[i as int] == id);
                    }
                },
                Err(p) => {
                    m.insert(p, (id, ItemHistory::default()));
                    proof {
                        let ids = m@.map_values(|e: (ItemID, ItemHistory)| e.0);
                        assert(ids =~= oids.insert(p as int, id));
                        assert forall|a: int, b: int| 0 <= a < b < ids.len() implies (#[trigger] ids[a]).0
                            < (#[trigger] ids[b]).0 by {
                            if b < p {
                                assert(oids[a].0 < oids[b].0);
                            } else if b == p {
                                assert(old_m[a].0.0 < id.0);
                            } else if a < p {
                                assert(old_m[b - 1].0.0 > id.0);
                                assert(old_m[a].0.0 < id.0);
                            } else if a == p {
                                assert(old_m[b - 1].0.0 > id.0);
                            } else {
                                assert(oids[a - 1].0 < oids[b - 1].0);
                            }
                        }
                        assert forall|x: ItemID| ids.contains(x) <==> (oids.contains(x) || x == id) by {
                            if oids.contains(x) {
                                let w = choose|w: int| 0 <= w < oids.len() && oids[w] == x;
                                if w < p {
                                    assert(ids[w] == x);
                                } else {
                                    assert(ids[w + 1] == x);
                                }
                            }
                            if x == id {
                                assert(ids[p as int] == x);
                            }
                            if ids.contains(x) {
                                let w = choose|w: int| 0 <= w < ids.len() && ids[w] == x;
                                if w < p {
                                    assert(oids[w] == x);
                                } else if w > p {
                                    assert(oids[w - 1] == x);
                                }
                            }
                        }
                    }
                },
            }
            proof {
                let ids = m@.map_values(|e: (ItemID, ItemHistory)| e.0);
                let pre = registry@.subrange(0, j as int);
                let post = registry@.subrange(0, j + 1);
                assert(post =~= pre.push(id));
                assert forall|x: ItemID| ids.contains(x) <==> post.contains(x) by {
                    if post.contains(x) {
                        let q = choose|q: int| 0 <= q < post.len() && post[q] == x;
                        if q < pre.len() {
                            assert(pre[q] == x);
                        }
                    }
                    if pre.contains(x) {
                        let q = choose|q: int| 0 <= q < pre.len() && pre[q] == x;
                        assert(post[q] == x);
                    }
                    if x == id {
                        assert(post[j as int] == x);
                    }
                }
            }
            j += 1;
        }
        assert(registry@.subrange(0, registry@.len() as int) =~= registry@);
        ItemHistories { m, cursors: [0usize; LEVEL_COUNT] }
    }
}

impl ItemHistories {
    /// The cell of bin `k`, resolution `l`, item at index `i`.
    spec fn cell(&self, i: int, l: int, k: int) -> u32 {
        self.m@[i].1.levels@[l].past_ring@[k]
    }

    /// Sets bin `k` of resolution `l` of the item at index `i` to `v`.
    fn set_cell(&mut self, i: usize, l: usize, k: usize, v: u32)
        requires
            i < old(self).m@.len(),
            l < LEVEL_COUNT,
            k < HISTORY_SIZE,
        ensures
            final(self).cursors == old(self).cursors,
            final(self).m@.len() == old(self).m@.len(),
            forall|j: int| 0 <= j < old(self).m@.len() ==> (#[trigger] final(self).m@[j]).0 == old(self).m@[j].0,
            forall|j: int, l2: int, k2: int|
                0 <= j < old(self).m@.len() && 0 <= l2 < LEVEL_COUNT && 0 <= k2 < HISTORY_SIZE
                    ==> #[trigger] final(self).cell(j, l2, k2) == if j == i && l2 == l && k2 == k {
                    v
                } else {
                    old(self).cell(j, l2, k2)
                },
    {
        self.m[i].1.levels[l].past_ring[k] = v;
    }
}

impl ItemHistories {
    /// Clears bin `k` of resolution `l` of every item.
    fn clear_bin(&mut self, l: usize, k: usize)
        requires
            l < LEVEL_COUNT,
            k < HISTORY_SIZE,
        ensures
            final(self).cursors == old(self).cursors,
            final(self).m@.len() == old(self).m@.len(),
            forall|j: int| 0 <= j < old(self).m@.len() ==> (#[trigger] final(self).m@[j]).0 == old(self).m@[j].0,
            forall|j: int, l2: int, k2: int|
                0 <= j < old(self).m@.len() && 0 <= l2 < LEVEL_COUNT && 0 <= k2 < HISTORY_SIZE
                    ==> #[trigger] final(self).cell(j, l2, k2) == if l2 == l && k2 == k {
                    0
                } else {
                    old(self).cell(j, l2, k2)
                },
    {
        let mut i: usize = 0;
        while i < self.m.len()
            invariant
                i <= self.m@.len(),
                self.cursors == old(self).cursors,
                self.m@.len() == old(self).m@.len(),
                l < LEVEL_COUNT,
                k < HISTORY_SIZE,
                forall|j: int| 0 <= j < old(self).m@.len() ==> (#[trigger] self.m@[j]).0 == old(self).m@[j].0,
                forall|j: int, l2: int, k2: int|
                    0 <= j < old(self).m@.len() && 0 <= l2 < LEVEL_COUNT && 0 <= k2 < HISTORY_SIZE
                        ==> #[trigger] self.cell(j, l2, k2) == if j < i && l2 == l && k2 == k {
                        0
                    } else {
                        old(self).cell(j, l2, k2)
                    },
            decreases old(self).m@.len() - i,
        {
            self.set_cell(i, l, k, 0);
            i += 1;
        }
    }

    /// Moves on the cursor of every resolution whose period divides `tick`,
    /// clearing the bin it lands on.
    pub fn advance(&mut self, tick: u32)
        requires
            old(self)@.wf(),
        ensures
            final(self)@ == old(self)@.advanced(tick),
            final(self)@.wf(),
    {
        let ghost adv = old(self)@.advanced(tick);
        let mut r: usize = 0;
        while r < LEVEL_COUNT
            invariant
                r <= LEVEL_COUNT,
                adv == old(self)@.advanced(tick),
                old(self)@.wf(),
                self.m@.len() == old(self).m@.len(),
                forall|j: int| 0 <= j < old(self).m@.len() ==> (#[trigger] self.m@[j]).0 == old(self).m@[j].0,
                forall|l: int| 0 <= l < r ==> #[trigger] self.cursors@[l] == adv.cursors[l],
                forall|l: int| r <= l < LEVEL_COUNT ==> #[trigger] self.cursors@[l] == old(self).cursors@[l],
                forall|j: int, l: int, k: int|
                    0 <= j < old(self).m@.len() && 0 <= l < LEVEL_COUNT && 0 <= k < HISTORY_SIZE
                        ==> #[trigger] self.cell(j, l, k) == if l < r {
                        adv.cells[j][l][k]
                    } else {
                        old(self).cell(j, l, k)
                    },
            decreases LEVEL_COUNT - r,
        {
            let ghost pre = *self;
            if tick % level_freq(r) == 0 {
                let c = (self.cursors[r] + 1) % HISTORY_SIZE;
                self.cursors[r] = c;
                self.clear_bin(r, c);
                proof {
                    assert(adv.cursors[r as int] == c);
                }
            }
            proof {
                assert forall|j: int, k: int|
                    0 <= j < old(self).m@.len() && 0 <= k < HISTORY_SIZE implies #[trigger] self.cell(
                    j,
                    r as int,
                    k,
                ) == adv.cells[j][r as int][k] by {
                    assert(old(self)@.cells[j][r as int][k] == old(self).cell(j, r as int, k));
                    assert(pre.cell(j, r as int, k) == old(self).cell(j, r as int, k));
                }
                assert forall|j: int, l: int, k: int|
                    0 <= j < old(self).m@.len() && 0 <= l < LEVEL_COUNT && l != r && 0 <= k
                        < HISTORY_SIZE implies #[trigger] self.cell(j, l, k) == pre.cell(j, l, k) by {}
            }
            r += 1;
        }
        proof {
            assert(self@.ids =~= adv.ids);
            assert(self@.cursors =~= adv.cursors);
            assert forall|j: int| 0 <= j < self@.cells.len() implies #[trigger] self@.cells[j] =~= adv.cells[j] by {
                assert forall|l: int| 0 <= l < LEVEL_COUNT implies #[trigger] self@.cells[j][l] =~= adv.cells[j][l] by {
                    assert forall|k: int| 0 <= k < HISTORY_SIZE implies #[trigger] self@.cells[j][l][k]
                        == adv.cells[j][l][k] by {
                        assert(self@.cells[j][l][k] == self.cell(j, l, k));
                    }
                }
            }
            assert(self@.cells =~= adv.cells);
        }
    }

    /// Adds a trade of positive quantity, saturating, to the current bin of every
    /// resolution of its commodity; a trade of quantity zero or less is ignored.
    pub fn handle_trade(&mut self, trade: &Trade)
        requires
            old(self)@.wf(),
            trade.qty > 0 ==> old(self)@.ids.contains(trade.kind),
        ensures
            final(self)@ == old(self)@.traded(*trade),
            final(self)@.wf(),
    {
        if trade.qty <= 0 {
            return;
        }
        let ghost after = old(self)@.traded(*trade);
        let ghost oids = old(self)@.ids;
        match search(&self.m, trade.kind) {
            Ok(i) => {
                let mut r: usize = 0;
                while r < LEVEL_COUNT
                    invariant
                        r <= LEVEL_COUNT,
                        i < self.m@.len(),
                        old(self)@.wf(),
                        oids == old(self)@.ids,
                        oids.len() == old(self).m@.len(),
                        oids[i as int] == trade.kind,
                        trade.qty > 0,
                        after == old(self)@.traded(*trade),
                        self.cursors == old(self).cursors,
                        self.m@.len() == old(self).m@.len(),
                        forall|j: int| 0 <= j < old(self).m@.len() ==> (#[trigger] self.m@[j]).0 == old(self).m@[j].0,
                        forall|j: int, l: int, k: int|
                            0 <= j < old(self).m@.len() && 0 <= l < LEVEL_COUNT && 0 <= k < HISTORY_SIZE
                                ==> #[trigger] self.cell(j, l, k) == if j == i && l < r {
                                after.cells[j][l][k]
                            } else {
                                old(self).cell(j, l, k)
                            },
                    decreases LEVEL_COUNT - r,
                {
                    let c = self.cursors[r];
                    let v = self.m[i].1.levels[r].past_ring[c];
                    proof {
                        assert(after.ids[i as int] == trade.kind);
                        assert(after.cells[i as int][r as int] == old(self)@.cells[i as int][r as int].update(
                            c as int,
                            sat_add(old(self)@.cells[i as int][r as int][c as int], trade.qty as int),
                        ));
                        assert(self.cell(i as int, r as int, c as int) == old(self).cell(i as int, r as int, c as int));
                        assert(old(self)@.cells[i as int][r as int][c as int] == v);
                    }
                    self.set_cell(i, r, c, v.saturating_add(trade.qty as u32));
                    r += 1;
                }
                proof {
                    assert forall|j: int| 0 <= j < oids.len() && j != i implies oids[j] != trade.kind by {
                        if j < i {
                            assert(oids[j].0 < oids[i as int].0);
                        } else {
                            assert(oids[i as int].0 < oids[j].0);
                        }
                    }
                    assert(self@.ids =~= after.ids);
                    assert(self@.cursors =~= after.cursors);
                    assert forall|j: int| 0 <= j < self@.cells.len() implies #[trigger] self@.cells[j]
                        =~= after.cells[j] by {
                        assert forall|l: int| 0 <= l < LEVEL_COUNT implies #[trigger] self@.cells[j][l]
                            =~= after.cells[j][l] by {
                            assert forall|k: int| 0 <= k < HISTORY_SIZE implies #[trigger] self@.cells[j][l][k]
                                == after.cells[j][l][k] by {
                                assert(self@.cells[j][l][k] == self.cell(j, l, k));
                                assert(old(self)@.cells[j][l][k] == old(self).cell(j, l, k));
                            }
                        }
                    }
                    assert(self@.cells =~= after.cells);
                }
            },
            Err(p) => {
                proof {
                    let w = choose|w: int| 0 <= w < oids.len() && oids[w] == trade.kind;
                    assert(self.m@[w].0 == trade.kind);
                }
            },
        }
    }

    /// The bins of resolution `level` of every commodity, in ascending id order;
    /// nothing for a resolution that does not exist.
    pub fn iter_histories(&self, level: usize) -> (r: Vec<(ItemID, ItemHistoryLevel)>)
        requires
            self@.wf(),
        ensures
            r@.len() == if level < LEVEL_COUNT {
                self@.ids.len()
            } else {
                0
            },
            forall|i: int| 0 <= i < r@.len() ==> (#[trigger] r@[i]).0 == self@.ids[i] && r@[i].1.past_ring@
                == self@.cells[i][level as int],
            forall|i: int, j: int| 0 <= i < j < r@.len() ==> (#[trigger] r@[i]).0.0 < (#[trigger] r@[j]).0.0,
    {
        let mut out: Vec<(ItemID, ItemHistoryLevel)> = Vec::new();
        if level >= LEVEL_COUNT {
            return out;
        }
        let mut i: usize = 0;
        while i < self.m.len()
            invariant
                i <= self.m@.len(),
                level < LEVEL_COUNT,
                self@.wf(),
                out@.len() == i,
                forall|j: int| 0 <= j < i ==> (#[trigger] out@[j]).0 == self@.ids[j] && out@[j].1.past_ring@
                    == self@.cells[j][level as int],
            decreases self.m@.len() - i,
        {
            out.push((self.m[i].0, self.m[i].1.levels[level]));
            i += 1;
        }
        proof {
            assert forall|a: int, b: int| 0 <= a < b < out@.len() implies (#[trigger] out@[a]).0.0
                < (#[trigger] out@[b]).0.0 by {
                assert(self@.ids[a].0 < self@.ids[b].0);
            }
        }
        out
    }
}

impl ItemHistories {
    /// The entries, in ascending id order.
    pub fn entries(&self) -> (r: &Vec<(ItemID, ItemHistory)>)
        ensures
            r@.len() == self@.ids.len(),
            forall|i: int| 0 <= i < r@.len() ==> (#[trigger] r@[i]).0 == self@.ids[i],
            forall|i: int, l: int|
                0 <= i < r@.len() && 0 <= l < LEVEL_COUNT ==> (#[trigger] r@[i].1.levels@[l]).past_ring@
                    == self@.cells[i][l],
    {
        &self.m
    }

    /// The shared cursors, one per resolution.
    pub fn cursors(&self) -> (r: [usize; LEVEL_COUNT])
        ensures
            r@ == self@.cursors,
    {
        self.cursors
    }

    /// A set from stored parts: `Some` exactly when the ids ascend strictly and
    /// every cursor is below `HISTORY_SIZE`.
    pub fn from_parts(m: Vec<(ItemID, ItemHistory)>, cursors: [usize; LEVEL_COUNT]) -> (r: Option<Self>)
        ensures
            r.is_some() <==> ids_ascending(m@.map_values(|e: (ItemID, ItemHistory)| e.0)) && (forall|l: int|
                0 <= l < LEVEL_COUNT ==> #[trigger] cursors@[l] < HISTORY_SIZE),
            r matches Some(h) ==> {
                &&& h@.wf()
                &&& h@.ids == m@.map_values(|e: (ItemID, ItemHistory)| e.0)
                &&& h@.cursors == cursors@
                &&& forall|i: int, l: int|
                    0 <= i < m@.len() && 0 <= l < LEVEL_COUNT ==> #[trigger] h@.cells[i][l]
                        == m@[i].1.levels@[l].past_ring@
            },
    {
        let ghost ids = m@.map_values(|e: (ItemID, ItemHistory)| e.0);
        let mut l: usize = 0;
        while l < LEVEL_COUNT
            invariant
                l <= LEVEL_COUNT,
                forall|l2: int| 0 <= l2 < l ==> #[trigger] cursors@[l2] < HISTORY_SIZE,
            decreases LEVEL_COUNT - l,
        {
            if cursors[l] >= HISTORY_SIZE {
                return None;
            }
            l += 1;
        }
        let mut i: usize = 1;
        while i < m.len()
            invariant
                1 <= i,
                ids == m@.map_values(|e: (ItemID, ItemHistory)| e.0),
                forall|a: int, b: int| 0 <= a < b < i && b < m@.len() ==> (#[trigger] ids[a]).0 < (#[trigger] ids[b]).0,
            decreases m@.len() - i,
        {
            if m[i - 1].0.0 >= m[i].0.0 {
                proof {
                    assert(!(ids[i - 1].0 < ids[i as int].0));
                }
                return None;
            }
            proof {
                assert forall|a: int, b: int| 0 <= a < b < i + 1 && b < m@.len() implies (#[trigger] ids[a]).0
                    < (#[trigger] ids[b]).0 by {
                    if b == i && a < i - 1 {
                        assert(ids[a].0 < ids[i - 1].0);
                    }
                }
            }
            i += 1;
        }
        let h = ItemHistories { m, cursors };
        proof {
            assert forall|i2: int, r: int| 0 <= i2 < h@.ids.len() && 0 <= r < LEVEL_COUNT implies (#[trigger] h@.cells[i2][r]).len()
                == HISTORY_SIZE by {}
        }
        Some(h)
    }
}

/// Whether the two sets list the same ids.
fn same_ids(a: &ItemHistories, b: &ItemHistories) -> (r: bool)
    ensures
        r <==> a@.ids == b@.ids,
{
    if a.m.len() != b.m.len() {
        proof {
            assert(a@.ids.len() != b@.ids.len());
        }
        return false;
    }
    let mut i: usize = 0;
    while i < a.m.len()
        invariant
            i <= a.m@.len(),
            a.m@.len() == b.m@.len(),
            forall|j: int| 0 <= j < i ==> (#[trigger] a.m@[j]).0 == b.m@[j].0,
        decreases a.m@.len() - i,
    {
        if a.m[i].0.0 != b.m[i].0.0 {
            proof {
                assert(a@.ids[i as int] != b@.ids[i as int]);
            }
            return false;
        }
        i += 1;
    }
    proof {
        assert(a@.ids =~= b@.ids);
    }
    true
}

/// Which set a trade is recorded in: 0 for exports (bought from outside),
/// 1 for imports (sold from outside), 2 for internal trade.
/// A trade with both sides outside counts as an export.
pub open spec fn route(t: Trade) -> int {
    if t.buyer == TradeTarget::ExternalTrade {
        0
    } else if t.seller == TradeTarget::ExternalTrade {
        1
    } else {
        2
    }
}

/// Abstract state of the three sets of trade statistics.
pub struct EcoView {
    pub exports: HistView,
    pub imports: HistView,
    pub internal_trade: HistView,
}

impl EcoView {
    pub open spec fn wf(self) -> bool {
        &&& self.exports.wf()
        &&& self.imports.wf()
        &&& self.internal_trade.wf()
        &&& self.imports.ids == self.exports.ids
        &&& self.internal_trade.ids == self.exports.ids
    }

    /// All three sets move their cursors on at `tick`.
    pub open spec fn advanced(self, tick: u32) -> EcoView {
        EcoView {
            exports: self.exports.advanced(tick),
            imports: self.imports.advanced(tick),
            internal_trade: self.internal_trade.advanced(tick),
        }
    }

    /// The trade is recorded in the one set that `route` picks.
    pub open spec fn with_trade(self, t: Trade) -> EcoView {
        if route(t) == 0 {
            EcoView { exports: self.exports.traded(t), ..self }
        } else if route(t) == 1 {
            EcoView { imports: self.imports.traded(t), ..self }
        } else {
            EcoView { internal_trade: self.internal_trade.traded(t), ..self }
        }
    }

    /// The trades are recorded one after the other, in order.
    pub open spec fn with_trades(self, trades: Seq<Trade>) -> EcoView
        decreases trades.len(),
    {
        if trades.len() == 0 {
            self
        } else {
            self.with_trades(trades.drop_last()).with_trade(trades.last())
        }
    }

    /// One tick: cursors move on first, then the trades are recorded.
    pub open spec fn step(self, tick: u32, trades: Seq<Trade>) -> EcoView {
        self.advanced(tick).with_trades(trades)
    }

    /// Every trade of positive quantity names a commodity that the sets know.
    pub open spec fn knows_all(self, trades: Seq<Trade>) -> bool {
        forall|i: int| 0 <= i < trades.len() && (#[trigger] trades[i]).qty > 0 ==> self.exports.ids.contains(trades[i].kind)
    }
}

/// Trade statistics: what leaves the city, what enters it, and what changes hands inside it.
pub struct EcoStats {
    pub exports: ItemHistories,
    pub imports: ItemHistories,
    pub internal_trade: ItemHistories,
}

impl View for EcoStats {
    type V = EcoView;

    open spec fn view(&self) -> EcoView {
        EcoView { exports: self.exports@, imports: self.imports@, internal_trade: self.internal_trade@ }
    }
}

impl EcoStats {
    /// Statistics from three stored sets: `Some` exactly when the three list the same ids.
    pub fn from_sets(exports: ItemHistories, imports: ItemHistories, internal_trade: ItemHistories) -> (r: Option<Self>)
        requires
            exports@.wf(),
            imports@.wf(),
            internal_trade@.wf(),
        ensures
            r.is_some() <==> imports@.ids == exports@.ids && internal_trade@.ids == exports@.ids,
            r matches Some(s) ==> s@ == (EcoView { exports: exports@, imports: imports@, internal_trade: internal_trade@ }),
            r matches Some(s) ==> s@.wf(),
    {
        if !same_ids(&exports, &imports) || !same_ids(&exports, &internal_trade) {
            return None;
        }
        Some(EcoStats { exports, imports, internal_trade })
    }

    /// Three empty sets, each with one entry per commodity of `registry`.
    pub fn new(registry: &[ItemID]) -> (r: Self)
        ensures
            r@.wf(),
            r@.exports.fresh(registry@),
            r@.imports.fresh(registry@),
            r@.internal_trade.fresh(registry@),
    {
        let r = EcoStats {
            exports: ItemHistories::new(registry),
            imports: ItemHistories::new(registry),
            internal_trade: ItemHistories::new(registry),
        };
        proof {
            lemma_fresh_ids_unique(r.exports@, r.imports@, registry@);
            lemma_fresh_ids_unique(r.exports@, r.internal_trade@, registry@);
        }
        r
    }

    /// One tick: every set moves its cursors on, then each trade is recorded, in
    /// order, in exports, imports or internal trade.
    pub fn advance(&mut self, tick: u32, trades: &[Trade])
        requires
            old(self)@.wf(),
            old(self)@.knows_all(trades@),
        ensures
            final(self)@ == old(self)@.step(tick, trades@),
            final(self)@.wf(),
    {
        self.exports.advance(tick);
        self.imports.advance(tick);
        self.internal_trade.advance(tick);
        let ghost start = old(self)@.advanced(tick);
        proof {
            assert(self@ == start);
            assert(trades@.subrange(0, 0) =~= Seq::<Trade>::empty());
        }
        let mut j: usize = 0;
        while j < trades.len()
            invariant
                j <= trades@.len(),
                start == old(self)@.advanced(tick),
                self@.wf(),
                self@.exports.ids == old(self)@.exports.ids,
                old(self)@.knows_all(trades@),
                self@ == start.with_trades(trades@.subrange(0, j as int)),
            decreases trades@.len() - j,
        {
            let trade = &trades[j];
            let ghost prev = self@;
            if matches!(trade.buyer, TradeTarget::ExternalTrade) {
                self.exports.handle_trade(trade);
            } else if matches!(trade.seller, TradeTarget::ExternalTrade) {
                self.imports.handle_trade(trade);
            } else {
                self.internal_trade.handle_trade(trade);
            }
            proof {
                assert(self@ == prev.with_trade(*trade));
                assert(trades@.subrange(0, j + 1).drop_last() =~= trades@.subrange(0, j as int));
            }
            j += 1;
        }
        proof {
            assert(trades@.subrange(0, trades@.len() as int) =~= trades@);
        }
    }
}

/// Two sets made fresh for one registry list the same commodities.
proof fn lemma_fresh_ids_unique(a: HistView, b: HistView, registry: Seq<ItemID>)
    requires
        a.fresh(registry),
        b.fresh(registry),
    ensures
        a.ids == b.ids,
{
    assert forall|x: ItemID| a.ids.contains(x) <==> b.ids.contains(x) by {
        assert(a.ids.contains(x) <==> registry.contains(x));
        assert(b.ids.contains(x) <==> registry.contains(x));
    }
    lemma_ascending_same_elems(a.ids, b.ids);
}

/// Two ascending sequences that hold the same ids are equal.
proof fn lemma_ascending_same_elems(a: Seq<ItemID>, b: Seq<ItemID>)
    requires
        ids_ascending(a),
        ids_ascending(b),
        forall|x: ItemID| a.contains(x) <==> b.contains(x),
    ensures
        a == b,
    decreases a.len() + b.len(),
{
    if a.len() == 0 {
        if b.len() > 0 {
            assert(b.contains(b[0]));
        }
        assert(a =~= b);
    } else if b.len() == 0 {
        assert(a.contains(a[0]));
    } else {
        let x = a.last();
        let y = b.last();
        assert(a.contains(x));
        assert(b.contains(y));
        let wa = choose|w: int| 0 <= w < a.len() && a[w] == y;
        let wb = choose|w: int| 0 <= w < b.len() && b[w] == x;
        if wa < a.len() - 1 {
            assert(a[wa].0 < x.0);
        }
        if wb < b.len() - 1 {
            assert(b[wb].0 < y.0);
        }
        assert(x == y);
        let a2 = a.drop_last();
        let b2 = b.drop_last();
        assert forall|z: ItemID| a2.contains(z) <==> b2.contains(z) by {
            if a2.contains(z) {
                let w = choose|w: int| 0 <= w < a2.len() && a2[w] == z;
                assert(a[w].0 < x.0);
                assert(b.contains(z));
                let v = choose|v: int| 0 <= v < b.len() && b[v] == z;
                assert(v != b.len() - 1);
                assert(b2[v] == z);
            }
            if b2.contains(z) {
                let w = choose|w: int| 0 <= w < b2.len() && b2[w] == z;
                assert(b[w].0 < y.0);
                assert(a.contains(z));
                let v = choose|v: int| 0 <= v < a.len() && a[v] == z;
                assert(v != a.len() - 1);
                assert(a2[v] == z);
            }
        }
        lemma_ascending_same_elems(a2, b2);
        assert(a =~= a2.push(x));
        assert(b =~= b2.push(y));
    }
}

/// Moving the cursors on keeps a set well formed: every cursor stays below `HISTORY_SIZE`.
pub proof fn lemma_advanced_wf(h: HistView, tick: u32)
    requires
        h.wf(),
    ensures
        h.advanced(tick).wf(),
        h.advanced(tick).ids == h.ids,
{
    let a = h.advanced(tick);
    assert forall|i: int, r: int| 0 <= i < a.ids.len() && 0 <= r < LEVEL_COUNT implies (#[trigger] a.cells[i][r]).len()
        == HISTORY_SIZE by {}
}

/// Recording a trade keeps a set well formed and leaves its ids and cursors alone.
pub proof fn lemma_traded_wf(h: HistView, t: Trade)
    requires
        h.wf(),
    ensures
        h.traded(t).wf(),
        h.traded(t).ids == h.ids,
        h.traded(t).cursors == h.cursors,
{
    let a = h.traded(t);
    if t.qty > 0 {
        assert forall|i: int, r: int| 0 <= i < a.ids.len() && 0 <= r < LEVEL_COUNT implies (#[trigger] a.cells[i][r]).len()
            == HISTORY_SIZE by {
            if h.ids[i] == t.kind {
                assert(a.cells[i][r] == h.cells[i][r].update(
                    h.cursors[r] as int,
                    sat_add(h.cells[i][r][h.cursors[r] as int], t.qty as int),
                ));
            }
        }
    }
}

/// Recording trades, in order, keeps the three sets well formed.
pub proof fn lemma_with_trades_wf(s: EcoView, trades: Seq<Trade>)
    requires
        s.wf(),
    ensures
        s.with_trades(trades).wf(),
        s.with_trades(trades).exports.ids == s.exports.ids,
        s.with_trades(trades).exports.cursors == s.exports.cursors,
        s.with_trades(trades).imports.cursors == s.imports.cursors,
        s.with_trades(trades).internal_trade.cursors == s.internal_trade.cursors,
    decreases trades.len(),
{
    if trades.len() > 0 {
        let p = s.with_trades(trades.drop_last());
        lemma_with_trades_wf(s, trades.drop_last());
        lemma_traded_wf(p.exports, trades.last());
        lemma_traded_wf(p.imports, trades.last());
        lemma_traded_wf(p.internal_trade, trades.last());
    }
}

/// After a tick, whatever the tick and the trades, every cursor of every set
/// is below `HISTORY_SIZE`.
pub proof fn lemma_step_cursors_in_range(s: EcoView, tick: u32, trades: Seq<Trade>)
    requires
        s.wf(),
    ensures
        s.step(tick, trades).wf(),
        forall|r: int|
            0 <= r < LEVEL_COUNT ==> #[trigger] s.step(tick, trades).exports.cursors[r] < HISTORY_SIZE
                && s.step(tick, trades).imports.cursors[r] < HISTORY_SIZE
                && s.step(tick, trades).internal_trade.cursors[r] < HISTORY_SIZE,
{
    lemma_advanced_wf(s.exports, tick);
    lemma_advanced_wf(s.imports, tick);
    lemma_advanced_wf(s.internal_trade, tick);
    lemma_with_trades_wf(s.advanced(tick), trades);
}

/// A trade of quantity zero or less changes no cell of any set.
pub proof fn lemma_nonpositive_trade_ignored(s: EcoView, t: Trade)
    requires
        t.qty <= 0,
    ensures
        s.with_trade(t) == s,
{
}

/// A trade of positive quantity raises the current bin of every resolution of its
/// commodity by `min(qty, u32::MAX - bin)`, and changes no other cell.
pub proof fn lemma_trade_increment(h: HistView, t: Trade)
    requires
        h.wf(),
        t.qty > 0,
    ensures
        forall|i: int, r: int|
            0 <= i < h.ids.len() && h.ids[i] == t.kind && 0 <= r < LEVEL_COUNT ==> (#[trigger] h.traded(t).cells[i][r])[h.cursors[r] as int]
                - h.cells[i][r][h.cursors[r] as int] == if t.qty <= u32::MAX - h.cells[i][r][h.cursors[r] as int] {
                t.qty as int
            } else {
                u32::MAX - h.cells[i][r][h.cursors[r] as int]
            },
        forall|i: int, r: int, k: int|
            0 <= i < h.ids.len() && 0 <= r < LEVEL_COUNT && 0 <= k < HISTORY_SIZE && (h.ids[i] != t.kind
                || k != h.cursors[r]) ==> #[trigger] h.traded(t).cells[i][r][k] == h.cells[i][r][k],
{
}

/// A trade of positive quantity is recorded in exactly one set: exports when the
/// buyer is outside, else imports when the seller is outside, else internal trade.
/// The other two sets stay as they were.
pub proof fn lemma_routing_exclusive(s: EcoView, t: Trade)
    requires
        t.qty > 0,
    ensures
        0 <= route(t) < 3,
        s.with_trade(t).exports == if route(t) == 0 {
            s.exports.traded(t)
        } else {
            s.exports
        },
        s.with_trade(t).imports == if route(t) == 1 {
            s.imports.traded(t)
        } else {
            s.imports
        },
        s.with_trade(t).internal_trade == if route(t) == 2 {
            s.internal_trade.traded(t)
        } else {
            s.internal_trade
        },
{
}

/// The bins that the moving cursors of `tick` land on are already zero.
pub open spec fn landing_bins_clear(h: HistView, tick: u32) -> bool {
    forall|i: int, r: int|
        0 <= i < h.ids.len() && 0 <= r < LEVEL_COUNT && level_moves(tick, r) ==> #[trigger] h.cells[i][r][next_cursor(
            h.cursors[r],
            tick,
            r,
        ) as int] == 0
}

/// A tick without trades moves cursors only: where the bins the cursors land on
/// hold zero, no cell value changes.
pub proof fn lemma_tick_without_trades(s: EcoView, tick: u32)
    requires
        s.wf(),
        landing_bins_clear(s.exports, tick),
        landing_bins_clear(s.imports, tick),
        landing_bins_clear(s.internal_trade, tick),
    ensures
        s.step(tick, Seq::empty()).exports.cells == s.exports.cells,
        s.step(tick, Seq::empty()).imports.cells == s.imports.cells,
        s.step(tick, Seq::empty()).internal_trade.cells == s.internal_trade.cells,
        forall|r: int|
            0 <= r < LEVEL_COUNT ==> #[trigger] s.step(tick, Seq::empty()).exports.cursors[r] == next_cursor(
                s.exports.cursors[r],
                tick,
                r,
            ),
{
    lemma_advanced_same_cells(s.exports, tick);
    lemma_advanced_same_cells(s.imports, tick);
    lemma_advanced_same_cells(s.internal_trade, tick);
}

proof fn lemma_advanced_same_cells(h: HistView, tick: u32)
    requires
        h.wf(),
        landing_bins_clear(h, tick),
    ensures
        h.advanced(tick).cells == h.cells,
{
    let a = h.advanced(tick);
    assert forall|i: int| 0 <= i < h.cells.len() implies #[trigger] a.cells[i] =~= h.cells[i] by {
        assert forall|r: int| 0 <= r < LEVEL_COUNT implies #[trigger] a.cells[i][r] =~= h.cells[i][r] by {
            assert forall|k: int| 0 <= k < HISTORY_SIZE implies #[trigger] a.cells[i][r][k] == h.cells[i][r][k] by {
                if level_moves(tick, r) && k == a.cursors[r] {
                    assert(h.cells[i][r][next_cursor(h.cursors[r], tick, r) as int] == 0);
                }
            }
        }
    }
    assert(a.cells =~= h.cells);
}

} // verus!
