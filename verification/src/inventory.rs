//! The WindowServer's window inventory: which window numbers exist, and
//! which of them are normal application windows of each process.

use std::collections::{HashMap, HashSet};
use vstd::prelude::*;
use vstd::std_specs::hash::spec_hash_keys_iter;
use vstd::std_specs::iter::IteratorSpec;

verus! {

broadcast use vstd::std_specs::hash::group_hash_axioms;

/// One entry of the WindowServer's window list, as plain values: the window
/// number and owner process when present, and whether its layer, alpha and
/// size make it a normal window surface.
pub struct WindowRecord {
    pub id: Option<i64>,
    pub pid: Option<i64>,
    pub normal_surface: bool,
}

/// The abstract contents of an [`Inventory`].
pub struct InventoryModel {
    pub normal: Map<i32, Set<u32>>,
    pub known: Set<u32>,
}

pub open spec fn empty_inventory() -> InventoryModel {
    InventoryModel { normal: Map::empty(), known: Set::empty() }
}

/// A window number that fits the WindowServer's 32-bit ids.
pub open spec fn record_id(r: WindowRecord) -> Option<u32> {
    match r.id {
        Some(i) => if 0 <= i <= u32::MAX {
            Some(i as u32)
        } else {
            None
        },
        None => None,
    }
}

pub open spec fn record_pid(r: WindowRecord) -> Option<i32> {
    match r.pid {
        Some(p) => if i32::MIN <= p <= i32::MAX {
            Some(p as i32)
        } else {
            None
        },
        None => None,
    }
}

/// The inventory after taking in one record: every valid window number is
/// known, and normal surfaces with a valid owner are listed under it.
pub open spec fn add_record(m: InventoryModel, r: WindowRecord) -> InventoryModel {
    match record_id(r) {
        None => m,
        Some(id) => {
            let known = m.known.insert(id);
            match record_pid(r) {
                Some(pid) => if r.normal_surface {
                    let ids = if m.normal.contains_key(pid) {
                        m.normal[pid]
                    } else {
                        Set::empty()
                    };
                    InventoryModel { normal: m.normal.insert(pid, ids.insert(id)), known }
                } else {
                    InventoryModel { known, ..m }
                },
                None => InventoryModel { known, ..m },
            }
        },
    }
}

pub open spec fn inventory_of(rs: Seq<WindowRecord>, n: int) -> InventoryModel
    decreases n,
{
    if n <= 0 {
        empty_inventory()
    } else {
        add_record(inventory_of(rs, n - 1), rs[n - 1])
    }
}

/// The inventory lists `id` as a normal window of `pid`.
pub open spec fn normal_has(m: InventoryModel, pid: i32, id: u32) -> bool {
    m.normal.contains_key(pid) && m.normal[pid].contains(id)
}

/// Some record among the first `n` has this window number.
pub open spec fn listed_known(rs: Seq<WindowRecord>, n: int, id: u32) -> bool {
    exists|j: int| 0 <= j < n && record_id(#[trigger] rs[j]) == Some(id)
}

/// Some record among the first `n` is a normal surface with this number and owner.
pub open spec fn listed_normal(rs: Seq<WindowRecord>, n: int, pid: i32, id: u32) -> bool {
    exists|j: int| 0 <= j < n && record_id(#[trigger] rs[j]) == Some(id) && record_pid(rs[j]) == Some(pid) && rs[j].normal_surface
}

/// An inventory read from a window list knows exactly the numbers that some
/// record carries, lists as normal for a process exactly the numbers of its
/// records that are normal surfaces, and lists no process without windows.
pub proof fn lemma_inventory_contents(rs: Seq<WindowRecord>, n: int)
    requires
        0 <= n <= rs.len(),
    ensures
        forall|id: u32| #[trigger] inventory_of(rs, n).known.contains(id) <==> listed_known(rs, n, id),
        forall|pid: i32, id: u32| #[trigger] normal_has(inventory_of(rs, n), pid, id) <==> listed_normal(rs, n, pid, id),
        forall|pid: i32| #[trigger] inventory_of(rs, n).normal.contains_key(pid) ==> exists|id: u32| inventory_of(rs, n).normal[pid].contains(id),
    decreases n,
{
    if n > 0 {
        lemma_inventory_contents(rs, n - 1);
        let prev = inventory_of(rs, n - 1);
        let cur = inventory_of(rs, n);
        let r = rs[n - 1];
        assert forall|id: u32| #[trigger] cur.known.contains(id) <==> listed_known(rs, n, id) by {
            if listed_known(rs, n, id) && !listed_known(rs, n - 1, id) {
                let j = choose|j: int| 0 <= j < n && record_id(#[trigger] rs[j]) == Some(id);
                assert(j == n - 1);
            }
            if listed_known(rs, n - 1, id) {
                let j = choose|j: int| 0 <= j < n - 1 && record_id(#[trigger] rs[j]) == Some(id);
                assert(listed_known(rs, n, id));
            }
            if record_id(r) == Some(id) {
                assert(listed_known(rs, n, id));
            }
        }
        assert forall|pid: i32, id: u32| #[trigger] normal_has(cur, pid, id) <==> listed_normal(rs, n, pid, id) by {
            let fresh = record_id(r) == Some(id) && record_pid(r) == Some(pid) && r.normal_surface;
            if normal_has(prev, pid, id) {
                assert(listed_normal(rs, n - 1, pid, id));
                let j = choose|j: int| 0 <= j < n - 1 && record_id(#[trigger] rs[j]) == Some(id) && record_pid(rs[j]) == Some(pid) && rs[j].normal_surface;
                assert(listed_normal(rs, n, pid, id));
                assert(normal_has(cur, pid, id));
            } else if fresh {
                assert(normal_has(cur, pid, id));
                assert(listed_normal(rs, n, pid, id));
            } else {
                assert(!normal_has(cur, pid, id));
                if listed_normal(rs, n, pid, id) {
                    let j = choose|j: int| 0 <= j < n && record_id(#[trigger] rs[j]) == Some(id) && record_pid(rs[j]) == Some(pid) && rs[j].normal_surface;
                    assert(j < n - 1);
                    assert(listed_normal(rs, n - 1, pid, id));
                }
            }
        }
        assert forall|pid: i32| #[trigger] cur.normal.contains_key(pid) implies exists|id: u32| cur.normal[pid].contains(id) by {
            match (record_id(r), record_pid(r)) {
                (Some(nid), Some(p)) => {
                    if r.normal_surface && p == pid {
                        assert(cur.normal[pid].contains(nid));
                    } else {
                        let id = choose|id: u32| prev.normal[pid].contains(id);
                        assert(cur.normal[pid].contains(id));
                    }
                },
                _ => {
                    let id = choose|id: u32| prev.normal[pid].contains(id);
                    assert(cur.normal[pid].contains(id));
                },
            }
        }
    }
}

/// Every window listed as normal for a process is a known window, so an
/// inventory read from a window list never rejects the normal windows it
/// lists.
pub proof fn lemma_normal_windows_are_known(rs: Seq<WindowRecord>, n: int)
    requires
        0 <= n <= rs.len(),
    ensures
        forall|pid: i32, id: u32|
            #![trigger inventory_of(rs, n).normal[pid].contains(id)]
            inventory_of(rs, n).normal.contains_key(pid) && inventory_of(rs, n).normal[pid].contains(id)
                ==> inventory_of(rs, n).known.contains(id),
    decreases n,
{
    if n > 0 {
        lemma_normal_windows_are_known(rs, n - 1);
        let prev = inventory_of(rs, n - 1);
        let cur = inventory_of(rs, n);
        assert forall|pid: i32, id: u32|
            cur.normal.contains_key(pid) && cur.normal[pid].contains(id) implies cur.known.contains(id) by {
            match record_id(rs[n - 1]) {
                None => {},
                Some(nid) => {
                    if prev.normal.contains_key(pid) && prev.normal[pid].contains(id) {
                    } else {
                        assert(id == nid);
                    }
                },
            }
        }
    }
}

/// The windows the WindowServer lists: the normal application windows of
/// each process, and every window number it knows.
pub struct Inventory {
    pub normal: HashMap<i32, HashSet<u32>>,
    pub known: HashSet<u32>,
}

impl View for Inventory {
    type V = InventoryModel;

    open spec fn view(&self) -> InventoryModel {
        InventoryModel {
            normal: self.normal@.map_values(|s: HashSet<u32>| s@),
            known: self.known@,
        }
    }
}

impl Default for Inventory {
    fn default() -> (inventory: Self)
        ensures
            inventory@ == empty_inventory(),
    {
        let inventory = Inventory { normal: HashMap::new(), known: HashSet::new() };
        assert(inventory@.normal == Map::<i32, Set<u32>>::empty());
        inventory
    }
}

impl Inventory {
    /// Takes in one entry of the window list.
    pub fn add(&mut self, record: &WindowRecord)
        ensures
            final(self)@ == add_record(old(self)@, *record),
    {
        let id = match record.id {
            Some(i) => if 0 <= i && i <= 0xFFFF_FFFF {
                i as u32
            } else {
                return;
            },
            None => return,
        };
        self.known.insert(id);
        let pid = match record.pid {
            Some(p) => if -0x8000_0000 <= p && p <= 0x7FFF_FFFF {
                p as i32
            } else {
                return;
            },
            None => return,
        };
        if record.normal_surface {
            let ghost before = self.normal@;
            let mut ids = match self.normal.remove(&pid) {
                Some(ids) => ids,
                None => HashSet::new(),
            };
            ids.insert(id);
            self.normal.insert(pid, ids);
            assert(self.normal@.map_values(|s: HashSet<u32>| s@) =~= before.map_values(|s: HashSet<u32>| s@).insert(pid, (if before.contains_key(pid) {
                before[pid]@
            } else {
                Set::empty()
            }).insert(id)));
        }
    }

    /// The inventory of a window list, or `None` when the WindowServer gave
    /// no list.
    pub fn try_read(listing: Option<&[WindowRecord]>) -> (inventory: Option<Self>)
        ensures
            match listing {
                Some(rs) => inventory matches Some(inv) && inv@ == inventory_of(rs@, rs@.len() as int),
                None => inventory is None,
            },
    {
        let records = match listing {
            Some(rs) => rs,
            None => return None,
        };
        let mut inventory = Inventory::default();
        let mut i: usize = 0;
        while i < records.len()
            invariant
                i <= records@.len(),
                inventory@ == inventory_of(records@, i as int),
            decreases records.len() - i,
        {
            inventory.add(&records[i]);
            i += 1;
        }
        Some(inventory)
    }

    /// The inventory of a window list, empty when there is none.
    pub fn read(listing: Option<&[WindowRecord]>) -> (inventory: Self)
        ensures
            inventory@ == match listing {
                Some(rs) => inventory_of(rs@, rs@.len() as int),
                None => empty_inventory(),
            },
    {
        match Self::try_read(listing) {
            Some(inventory) => inventory,
            None => Self::default(),
        }
    }

    /// Whether the WindowServer knows this window number.
    pub fn contains(&self, id: u32) -> (known: bool)
        ensures
            known == self@.known.contains(id),
    {
        self.known.contains(&id)
    }

    /// A known window that is not a normal window of `pid` is rejected.
    pub fn rejects(&self, pid: i32, id: u32) -> (rejected: bool)
        ensures
            rejected == (self@.known.contains(id) && !(self@.normal.contains_key(pid)
                && self@.normal[pid].contains(id))),
    {
        self.known.contains(&id) && !match self.normal.get(&pid) {
            Some(ids) => ids.contains(&id),
            None => false,
        }
    }
}

/// A window that a cleanup rule asked to close, by its id and, when known,
/// its WindowServer number.
pub struct PendingWindow {
    pub id: u64,
    pub server_id: Option<u32>,
}

/// The pending windows that have disappeared from the WindowServer.
pub open spec fn closed_ids(m: InventoryModel, pending: Seq<PendingWindow>) -> Seq<u64>
    decreases pending.len(),
{
    if pending.len() == 0 {
        seq![]
    } else {
        let p = pending.last();
        closed_ids(m, pending.drop_last()) + match p.server_id {
            Some(s) => if !m.known.contains(s) {
                seq![p.id]
            } else {
                seq![]
            },
            None => seq![],
        }
    }
}

/// The ids of pending windows whose WindowServer number is gone.
pub fn closed_windows(inventory: &Inventory, pending: &[PendingWindow]) -> (closed: Vec<u64>)
    ensures
        closed@ == closed_ids(inventory@, pending@),
{
    let mut closed: Vec<u64> = Vec::new();
    let mut i: usize = 0;
    while i < pending.len()
        invariant
            i <= pending@.len(),
            closed@ == closed_ids(inventory@, pending@.take(i as int)),
        decreases pending.len() - i,
    {
        assert(pending@.take(i + 1).drop_last() == pending@.take(i as int));
        if let Some(server_id) = pending[i].server_id {
            if !inventory.contains(server_id) {
                closed.push(pending[i].id);
            }
        }
        i += 1;
    }
    assert(pending@.take(pending@.len() as int) == pending@);
    closed
}

/// A window that an application publishes through accessibility, as plain
/// values: its WindowServer number when it has one, and whether it reads as
/// minimized.
pub struct PublishedWindow {
    pub server_id: Option<u32>,
    pub minimized: bool,
}

pub open spec fn rejected(m: InventoryModel, pid: i32, id: u32) -> bool {
    m.known.contains(id) && !(m.normal.contains_key(pid) && m.normal[pid].contains(id))
}

/// A published window stays unless the inventory rejects its number for the
/// process and it is not minimized (minimized windows leave the normal list).
pub open spec fn passes_inventory(m: InventoryModel, pid: i32, w: PublishedWindow) -> bool {
    match w.server_id {
        None => true,
        Some(id) => !(rejected(m, pid, id) && !w.minimized),
    }
}

/// An earlier published window that stays has this number.
pub open spec fn seen_before(m: InventoryModel, pid: i32, ws: Seq<PublishedWindow>, n: int, id: u32) -> bool {
    exists|j: int| 0 <= j < n && (#[trigger] ws[j]).server_id == Some(id) && passes_inventory(m, pid, ws[j])
}

/// The `i`-th published window is kept: it stays, and no earlier window
/// that stays has the same number.
pub open spec fn kept_published(m: InventoryModel, pid: i32, ws: Seq<PublishedWindow>, i: int) -> bool {
    passes_inventory(m, pid, ws[i]) && match ws[i].server_id {
        None => true,
        Some(id) => !seen_before(m, pid, ws, i, id),
    }
}

/// The indices of the kept windows among the first `n`, in order.
pub open spec fn kept_indices(m: InventoryModel, pid: i32, ws: Seq<PublishedWindow>, n: int) -> Seq<usize>
    decreases n,
{
    if n <= 0 {
        seq![]
    } else {
        kept_indices(m, pid, ws, n - 1) + if kept_published(m, pid, ws, n - 1) {
            seq![(n - 1) as usize]
        } else {
            seq![]
        }
    }
}

/// The process's normal windows that no kept published window accounts for.
pub open spec fn missing_ids(m: InventoryModel, pid: i32, ws: Seq<PublishedWindow>) -> Set<u32> {
    let normal = if m.normal.contains_key(pid) {
        m.normal[pid]
    } else {
        Set::empty()
    };
    normal.filter(|id: u32| !seen_before(m, pid, ws, ws.len() as int, id))
}

/// The published windows to list, and the normal windows still to find.
pub struct Completion {
    pub kept: Vec<usize>,
    pub missing: HashSet<u32>,
}

impl Inventory {
    /// Checks the windows an application publishes against the inventory:
    /// keeps each window once, drops those the WindowServer does not list as
    /// normal windows of the process unless they are minimized, and returns
    /// the process's normal windows that none of them accounts for.
    pub fn complete(&self, pid: i32, published: &[PublishedWindow]) -> (c: Completion)
        ensures
            c.kept@ == kept_indices(self@, pid, published@, published@.len() as int),
            c.missing@ == missing_ids(self@, pid, published@),
    {
        let ghost m = self@;
        let mut kept: Vec<usize> = Vec::new();
        let mut seen: HashSet<u32> = HashSet::new();
        let mut i: usize = 0;
        while i < published.len()
            invariant
                m == self@,
                i <= published@.len(),
                kept@ == kept_indices(m, pid, published@, i as int),
                forall|id: u32| #[trigger] seen@.contains(id) <==> seen_before(m, pid, published@, i as int, id),
            decreases published.len() - i,
        {
            let w = &published[i];
            let ghost before = seen@;
            match w.server_id {
                None => {
                    kept.push(i);
                },
                Some(id) => {
                    if !(self.rejects(pid, id) && !w.minimized) {
                        let fresh = seen.insert(id);
                        if fresh {
                            kept.push(i);
                        }
                    }
                },
            }
            proof {
                assert forall|id: u32| #[trigger] seen@.contains(id) <==> seen_before(m, pid, published@, i + 1, id) by {
                    if seen_before(m, pid, published@, i + 1, id) && !seen_before(m, pid, published@, i as int, id) {
                        let j = choose|j: int| 0 <= j < i + 1 && (#[trigger] published@[j]).server_id == Some(id) && passes_inventory(m, pid, published@[j]);
                        assert(j == i);
                    }
                    if seen_before(m, pid, published@, i as int, id) {
                        let j = choose|j: int| 0 <= j < i && (#[trigger] published@[j]).server_id == Some(id) && passes_inventory(m, pid, published@[j]);
                        assert(seen_before(m, pid, published@, i + 1, id));
                    }
                    if published@[i as int].server_id == Some(id) && passes_inventory(m, pid, published@[i as int]) {
                        assert(seen_before(m, pid, published@, i + 1, id));
                    }
                }
            }
            i += 1;
        }
        let mut missing: HashSet<u32> = HashSet::new();
        let ghost normal = if m.normal.contains_key(pid) {
            m.normal[pid]
        } else {
            Set::<u32>::empty()
        };
        match self.normal.get(&pid) {
            None => {
                assert(missing@ == missing_ids(m, pid, published@));
            },
            Some(ids) => {
                assert(ids@ == normal);
                let ghost keys = IteratorSpec::remaining(&spec_hash_keys_iter(ids)).unref();
                assert(keys.to_set() == ids@);
                for id in it: ids.iter()
                    invariant
                        it.seq().unref() == keys,
                        forall|x: u32| #[trigger] missing@.contains(x) <==> (exists|k: int| 0 <= k < it.index() && keys[k] == x) && !seen@.contains(x),
                {
                    if !seen.contains(id) {
                        missing.insert(*id);
                    }
                }
                assert forall|x: u32| #[trigger] missing@.contains(x) <==> missing_ids(m, pid, published@).contains(x) by {
                    if normal.contains(x) {
                        assert(keys.to_set().contains(x));
                        assert(keys.contains(x));
                    }
                }
                assert(missing@ == missing_ids(m, pid, published@));
            },
        }
        Completion { kept, missing }
    }
}

} // verus!
