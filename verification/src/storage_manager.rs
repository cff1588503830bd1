//! The storage manager: a registry of containers, each backed by one heap
//! file, with record-level insert, read, update and delete. The state lives
//! in memory; the caller persists each heap file's image and the registry
//! document and rebuilds the manager from them on startup.

use crate::errors::StorageError;
use crate::heapfile::{pages_recs, HeapFile, HeapFileIterator};
use crate::page::{add_shape, delete_shape, lemma_first_gap_none, live, page_recs, recs_from,
    spec_alloc, views_of, Page, HEADER_FIXED, HEADER_PER_SLOT};
use crate::PAGE_SIZE;
use vstd::prelude::*;

verus! {

/// Names one container (a table) of the storage manager.
pub type ContainerId = u16;

/// An opaque transaction token, passed through unchanged.
#[derive(Clone, Copy, Debug, PartialEq, Eq, Structural)]
pub struct TransactionId {
    pub id: u64,
}

impl TransactionId {
    /// A fresh token.
    pub fn new() -> (r: TransactionId) {
        TransactionId { id: 0 }
    }
}

/// An opaque permission token, passed through unchanged.
#[derive(Clone, Copy, Debug, PartialEq, Eq, Structural)]
pub enum Permissions {
    ReadOnly,
    ReadWrite,
}

/// What kind of container is created; opaque to the storage layer.
#[derive(Clone, Copy, Debug, PartialEq, Eq, Structural)]
pub enum StateType {
    BaseTable,
}

/// Creation-time configuration; opaque to the storage layer.
#[derive(Clone, Copy, Debug, PartialEq, Eq, Structural)]
pub struct ContainerConfig {}

impl ContainerConfig {
    /// The one configuration this layer distinguishes.
    pub fn simple_container() -> (r: ContainerConfig) {
        ContainerConfig {  }
    }
}

/// The engine-wide address of a record: container, page and slot. The
/// segment field is reserved and unused.
#[derive(Clone, Copy, Debug, PartialEq, Eq)]
pub struct ValueId {
    pub container_id: ContainerId,
    pub segment_id: Option<u16>,
    pub page_id: Option<u16>,
    pub slot_id: Option<u16>,
}

/// Whether a record of `len` bytes fits into some page of a heap file at
/// all: an empty page must accept it.
pub open spec fn fits_empty_page(len: int) -> bool {
    len + HEADER_PER_SLOT < PAGE_SIZE - HEADER_FIXED
}

/// What a first-fit insertion of `bytes` did to the pages of a heap file:
/// every page below `r.0` refused the record, page `r.0` (grown fresh with
/// identifier = old page count if none accepted) holds it under slot `r.1`,
/// and no other page moved.
pub open spec fn first_fit_post(
    old_pgs: Seq<Page>,
    new_pgs: Seq<Page>,
    bytes: Seq<u8>,
    r: (u16, u16),
) -> bool {
    let k = r.0 as int;
    &&& 0 <= k <= old_pgs.len()
    &&& forall|j: int|
        0 <= j < k ==> bytes.len() + HEADER_PER_SLOT >= (#[trigger] old_pgs[j]).free_space()
    &&& (k < old_pgs.len() ==> {
        &&& bytes.len() + HEADER_PER_SLOT < old_pgs[k].free_space()
        &&& r.1 as int == spec_alloc(old_pgs[k].dir())
        &&& new_pgs =~= old_pgs.update(k, new_pgs[k])
        &&& add_shape(old_pgs[k], new_pgs[k], bytes, r.1)
        &&& new_pgs[k].slot_map() =~= old_pgs[k].slot_map().insert(r.1, bytes)
    })
    &&& (k == old_pgs.len() ==> {
        &&& r.1 == 0
        &&& new_pgs.len() == old_pgs.len() + 1
        &&& new_pgs =~= old_pgs.push(new_pgs[k])
        &&& new_pgs[k].id() == k as u16
        &&& new_pgs[k].slot_map() =~= Map::<u16, Seq<u8>>::empty().insert(0u16, bytes)
    })
}

/// What one `insert_value` call does to a container's pages and returns:
/// a first-fit insertion when the record can fit a page at all, otherwise
/// no change and an address without a slot.
pub open spec fn insert_step_post(
    pre: Seq<Page>,
    post: Seq<Page>,
    v: Seq<u8>,
    vid: ValueId,
    cid: ContainerId,
) -> bool {
    &&& vid.container_id == cid
    &&& vid.segment_id is None
    &&& (!fits_empty_page(v.len() as int) ==> vid.page_id == Some(pre.len() as u16) && vid.slot_id
        is None && post == pre)
    &&& (fits_empty_page(v.len() as int) ==> vid.page_id is Some && vid.slot_id is Some
        && first_fit_post(pre, post, v, (vid.page_id->Some_0, vid.slot_id->Some_0)))
}

/// What one successful `delete_value` call does to a container's pages:
/// only the addressed page changes, losing exactly the addressed slot, with
/// the exact compaction `delete_shape` fixes.
pub open spec fn delete_step_post(pre: Seq<Page>, post: Seq<Page>, pid: int, sid: u16) -> bool {
    &&& 0 <= pid < pre.len()
    &&& post =~= pre.update(pid, post[pid])
    &&& post[pid].slot_map() =~= pre[pid].slot_map().remove(sid)
    &&& delete_shape(pre[pid], post[pid], sid)
}

/// A well-formed page holding exactly one record under slot zero has a
/// one-entry directory and yields exactly that record.
proof fn lemma_single_slot_page(p: Page, v: Seq<u8>)
    requires
        p.wf(),
        p.slot_map() =~= Map::<u16, Seq<u8>>::empty().insert(0u16, v),
    ensures
        p.dir().len() == 1,
        p.dir()[0] is Some,
        page_recs(p) =~= seq![v],
{
    assert(p.slot_map().dom().contains(0u16));
    assert(live(p.dir(), 0));
    assert(p.dir().len() >= 1);
    if p.dir().len() >= 2 {
        assert(p.dir().last() is Some);
        assert(live(p.dir(), p.dir().len() - 1));
        assert(p.slot_map().dom().contains((p.dir().len() - 1) as u16));
        assert((p.dir().len() - 1) as u16 == 0u16);
        assert(false);
    }
    assert(recs_from(p, 1) =~= Seq::<Seq<u8>>::empty());
    assert(p.rec_bytes(0) == p.slot_map()[0u16]);
    assert(page_recs(p) =~= seq![p.rec_bytes(0)]);
}

/// Appending a slot to a hole-free page appends its record to the page's
/// record sequence and leaves every earlier record in place.
proof fn lemma_page_recs_append(old_p: Page, new_p: Page, v: Seq<u8>, t: int)
    requires
        0 <= t <= old_p.dir().len(),
        new_p.dir() =~= old_p.dir().push(new_p.dir().last()),
        new_p.dir().last() is Some,
        new_p.slot_map() =~= old_p.slot_map().insert(old_p.dir().len() as u16, v),
        old_p.dir().len() < 0x10000,
        forall|s: int| live(old_p.dir(), s) ==> live(new_p.dir(), s),
    ensures
        recs_from(new_p, t) =~= recs_from(old_p, t).push(v),
    decreases old_p.dir().len() - t,
{
    let len = old_p.dir().len() as int;
    if t == len {
        assert(recs_from(old_p, t) =~= Seq::<Seq<u8>>::empty());
        assert(live(new_p.dir(), len));
        assert(new_p.slot_map().dom().contains(len as u16));
        assert(new_p.rec_bytes(len) == new_p.slot_map()[len as u16]);
        assert(new_p.rec_bytes(len) == v);
        assert(recs_from(new_p, len + 1) =~= Seq::<Seq<u8>>::empty());
        assert(recs_from(new_p, t) =~= seq![v]);
    } else {
        lemma_page_recs_append(old_p, new_p, v, t + 1);
        assert(new_p.dir()[t] == old_p.dir()[t]);
        if old_p.dir()[t] is Some {
            assert(live(old_p.dir(), t) && live(new_p.dir(), t));
            assert(old_p.rec_bytes(t) == old_p.slot_map()[t as u16]);
            assert(new_p.rec_bytes(t) == new_p.slot_map()[t as u16]);
            assert((t as u16) != (len as u16));
            assert(new_p.rec_bytes(t) == old_p.rec_bytes(t));
            assert(recs_from(new_p, t) =~= seq![new_p.rec_bytes(t)] + recs_from(new_p, t + 1));
            assert(recs_from(old_p, t) =~= seq![old_p.rec_bytes(t)] + recs_from(old_p, t + 1));
        }
    }
}

/// A state first-fit keeps ordered: well-formed, hole-free pages, every one
/// but the last too full to accept another record of length `n`.
pub open spec fn ordered_state(pgs: Seq<Page>, n: int) -> bool {
    &&& forall|k: int| 0 <= k < pgs.len() ==> (#[trigger] pgs[k]).wf()
    &&& forall|k: int, t: int|
        0 <= k < pgs.len() && 0 <= t < pgs[k].dir().len() ==> #[trigger] pgs[k].dir()[t] is Some
    &&& forall|k: int| 0 <= k < pgs.len() - 1 ==> n + HEADER_PER_SLOT >= (#[trigger] pgs[k]).free_space()
}

/// One uniform-length insertion into an ordered state appends its record to
/// the container's record sequence and keeps the state ordered.
#[verifier::rlimit(100)]
#[verifier::spinoff_prover]
proof fn lemma_order_step(
    pre: Seq<Page>,
    post: Seq<Page>,
    v: Seq<u8>,
    vid: ValueId,
    cid: ContainerId,
    n: int,
)
    requires
        ordered_state(pre, n),
        forall|k: int| 0 <= k < post.len() ==> (#[trigger] post[k]).wf(),
        insert_step_post(pre, post, v, vid, cid),
        v.len() == n,
        fits_empty_page(n),
    ensures
        ordered_state(post, n),
        pages_recs(post) =~= pages_recs(pre).push(v),
{
    let k = vid.page_id->Some_0 as int;
    let sid = vid.slot_id->Some_0;
    assert(first_fit_post(pre, post, v, (vid.page_id->Some_0, sid)));
    if k < pre.len() {
        // The accepted page can only be the last: every earlier one refused.
        assert(n + HEADER_PER_SLOT < pre[k].free_space());
        if k < pre.len() - 1 {
            assert(n + HEADER_PER_SLOT >= pre[k].free_space());
        }
        assert(k == pre.len() - 1);
        // Hole-free, so the new slot is appended to the directory.
        let oldpg = pre[k];
        let newpg = post[k];
        assert(forall|t: int| 0 <= t < oldpg.dir().len() ==> oldpg.dir()[t] is Some);
        lemma_first_gap_none(oldpg.dir());
        assert(sid as int == spec_alloc(oldpg.dir()));
        assert(sid as int == oldpg.dir().len());
        assert(add_shape(oldpg, newpg, v, sid));
        assert(newpg.dir() =~= oldpg.dir().push(
            Some((oldpg.packed() as u16, v.len() as u16)),
        ));
        assert(newpg.dir().last() is Some);
        assert(forall|s: int| live(oldpg.dir(), s) ==> live(newpg.dir(), s));
        lemma_page_recs_append(oldpg, newpg, v, 0);
        assert(pages_recs(post) =~= pages_recs(post.drop_last()) + page_recs(newpg));
        assert(post.drop_last() =~= pre.drop_last());
        assert(pages_recs(pre) =~= pages_recs(pre.drop_last()) + page_recs(oldpg));
        assert(pages_recs(post) =~= pages_recs(pre).push(v)) by {
            assert(page_recs(newpg) =~= page_recs(oldpg).push(v));
        }
        assert(ordered_state(post, n)) by {
            assert forall|k2: int, t: int|
                0 <= k2 < post.len() && 0 <= t < post[k2].dir().len() implies #[trigger] post[k2].dir()[t]
                is Some by {
                if k2 != k {
                    assert(post[k2] == pre[k2]);
                }
            }
            assert forall|k2: int|
                0 <= k2 < post.len() - 1 implies n + HEADER_PER_SLOT >= (
            #[trigger] post[k2]).free_space() by {
                assert(post[k2] == pre[k2]);
            }
        }
    } else {
        // A fresh page was appended, holding only the new record.
        assert(k == pre.len());
        let newpg = post[k];
        assert(post =~= pre.push(newpg));
        assert(newpg.slot_map() =~= Map::<u16, Seq<u8>>::empty().insert(0u16, v));
        lemma_single_slot_page(newpg, v);
        assert(pages_recs(post) =~= pages_recs(post.drop_last()) + page_recs(newpg));
        assert(post.drop_last() =~= pre);
        assert(pages_recs(post) =~= pages_recs(pre).push(v));
        assert(ordered_state(post, n)) by {
            assert forall|k2: int, t: int|
                0 <= k2 < post.len() && 0 <= t < post[k2].dir().len() implies #[trigger] post[k2].dir()[t]
                is Some by {
                if k2 < pre.len() {
                    assert(post[k2] == pre[k2]);
                } else {
                    assert(post[k2] == newpg);
                }
            }
            assert forall|k2: int|
                0 <= k2 < post.len() - 1 implies n + HEADER_PER_SLOT >= (
            #[trigger] post[k2]).free_space() by {
                assert(post[k2] == pre[k2]);
            }
        }
    }
}

/// Insertion order: starting from an empty container, a run of insertions
/// of records all of one length `n` (small enough to fit a page) leaves the
/// container's records — the sequence `get_iterator` yields, ascending by
/// page and slot — exactly the inserted records, in insertion order.
pub proof fn lemma_insertion_order(
    states: Seq<Seq<Page>>,
    vs: Seq<Seq<u8>>,
    rs: Seq<ValueId>,
    cid: ContainerId,
    n: int,
)
    requires
        inserts_trace(states, vs, rs, cid),
        states.first().len() == 0,
        forall|i: int| 0 <= i < vs.len() ==> (#[trigger] vs[i]).len() == n,
        fits_empty_page(n),
        forall|j: int, k: int|
            0 <= j < states.len() && 0 <= k < states[j].len() ==> (#[trigger] states[j][k]).wf(),
    ensures
        pages_recs(states.last()) =~= vs,
        ordered_state(states.last(), n),
    decreases vs.len(),
{
    if vs.len() == 0 {
        assert(states.last() == states.first());
        assert(pages_recs(states.last()) =~= Seq::<Seq<u8>>::empty());
    } else {
        let states0 = states.drop_last();
        let vs0 = vs.drop_last();
        let rs0 = rs.drop_last();
        assert forall|i: int|
            0 <= i < vs0.len() implies insert_step_post(
            #[trigger] states0[i],
            states0[i + 1],
            vs0[i],
            rs0[i],
            cid,
        ) by {
            assert(states0[i] == states[i] && states0[i + 1] == states[i + 1]);
            assert(vs0[i] == vs[i] && rs0[i] == rs[i]);
            assert(insert_step_post(states[i], states[i + 1], vs[i], rs[i], cid));
        }
        assert(inserts_trace(states0, vs0, rs0, cid));
        assert(states0.first() == states.first());
        assert forall|j: int, k: int|
            0 <= j < states0.len() && 0 <= k < states0[j].len() implies (
        #[trigger] states0[j][k]).wf() by {
            assert(states0[j] == states[j]);
            assert(states[j][k].wf());
        }
        lemma_insertion_order(states0, vs0, rs0, cid, n);
        let i = vs.len() - 1;
        assert(insert_step_post(states[i], states[i + 1], vs[i], rs[i], cid));
        assert(states0.last() == states[i]);
        assert(states.last() == states[i + 1]);
        assert forall|k: int|
            0 <= k < states.last().len() implies (#[trigger] states.last()[k]).wf() by {
            assert(states[states.len() - 1][k].wf());
        }
        lemma_order_step(states[i], states[i + 1], vs[i], rs[i], cid, n);
        assert(pages_recs(states.last()) =~= pages_recs(states[i]).push(vs[i]));
        assert(pages_recs(states[i]) =~= vs0);
        assert(vs0.push(vs[i]) =~= vs);
    }
}

/// A run of `insert_value` calls, one per record, in order: `states` lists
/// the container's pages before and after each step, and each step is one
/// `insert_step_post`. The sequential composition `insert_values` promises.
pub open spec fn inserts_trace(
    states: Seq<Seq<Page>>,
    vs: Seq<Seq<u8>>,
    rs: Seq<ValueId>,
    cid: ContainerId,
) -> bool {
    &&& states.len() == vs.len() + 1
    &&& rs.len() == vs.len()
    &&& forall|i: int|
        0 <= i < vs.len() ==> insert_step_post(
            #[trigger] states[i],
            states[i + 1],
            vs[i],
            rs[i],
            cid,
        )
}

/// Insert a record into the first page that accepts it, scanning in
/// ascending page order; grow the file by one page when none does.
#[verifier::rlimit(100)]
#[verifier::spinoff_prover]
pub fn first_fit_insert(hf: &mut HeapFile, bytes: &Vec<u8>) -> (r: (u16, u16))
    requires
        old(hf).wf(),
        fits_empty_page(bytes@.len() as int),
        old(hf).view_pages().len() < 0xFFFF,
    ensures
        final(hf).wf(),
        first_fit_post(old(hf).view_pages(), final(hf).view_pages(), bytes@, r),
{
    let n = hf.num_pages();
    let mut k: u16 = 0;
    while k < n
        invariant
            hf.wf(),
            hf.view_pages() == old(hf).view_pages(),
            n as int == hf.view_pages().len(),
            k <= n,
            bytes@.len() + HEADER_PER_SLOT < PAGE_SIZE - HEADER_FIXED,
            forall|j: int|
                0 <= j < k ==> bytes@.len() + HEADER_PER_SLOT >= (#[trigger] hf.view_pages()[j]).free_space(),
        decreases n - k,
    {
        let mut pg = match hf.read_page_from_file(k) {
            Ok(pg) => pg,
            Err(_) => {
                proof {
                    assert(false);
                }
                Page::new(0)
            },
        };
        let free = pg.get_largest_free_contiguous_space();
        if bytes.len() + HEADER_PER_SLOT < free {
            let sid = match pg.add_value(bytes) {
                Some(sid) => sid,
                None => {
                    proof {
                        assert(false);
                    }
                    0u16
                },
            };
            match hf.write_page_to_file(pg) {
                Ok(()) => {},
                Err(_) => {},
            }
            return (k, sid);
        }
        k = k + 1;
    }
    // No existing page accepts the record: grow by one page.
    let mut pg = Page::new(n);
    let sid = match pg.add_value(bytes) {
        Some(sid) => sid,
        None => {
            proof {
                assert(false);
            }
            0u16
        },
    };
    match hf.write_page_to_file(pg) {
        Ok(()) => {},
        Err(_) => {},
    }
    (n, sid)
}

pub struct StorageManager {
    /// Filesystem directory the caller manages for this engine.
    pub storage_path: String,
    is_temp: bool,
    containers: Vec<(ContainerId, HeapFile)>,
}

impl StorageManager {
    /// The registered containers, in registration order.
    pub closed spec fn entries(self) -> Seq<(ContainerId, HeapFile)> {
        self.containers@
    }

    /// Whether the manager was created for testing, so teardown removes its
    /// directory.
    pub closed spec fn temp(self) -> bool {
        self.is_temp
    }

    /// Well-formedness: container identifiers are unique and every heap
    /// file is well formed.
    pub open spec fn wf(self) -> bool {
        &&& forall|i: int, j: int|
            0 <= i < j < self.entries().len() ==> (#[trigger] self.entries()[i]).0 != (
            #[trigger] self.entries()[j]).0
        &&& forall|i: int| 0 <= i < self.entries().len() ==> (#[trigger] self.entries()[i]).1.wf()
    }

    /// Whether `cid` is registered.
    pub open spec fn has(self, cid: ContainerId) -> bool {
        exists|i: int| 0 <= i < self.entries().len() && (#[trigger] self.entries()[i]).0 == cid
    }

    /// Index of `cid` in the registry.
    pub open spec fn idx_of(self, cid: ContainerId) -> int {
        choose|i: int| 0 <= i < self.entries().len() && (#[trigger] self.entries()[i]).0 == cid
    }

    /// The pages of container `cid`.
    pub open spec fn pages_of(self, cid: ContainerId) -> Seq<Page> {
        self.entries()[self.idx_of(cid)].1.view_pages()
    }

    /// A manager over `storage_path` with no containers registered; the
    /// caller reattaches persisted containers via `attach_container`.
    pub fn new(storage_path: String) -> (r: StorageManager)
        ensures
            r.wf(),
            r.entries().len() == 0,
            !r.temp(),
    {
        StorageManager { storage_path, is_temp: false, containers: Vec::new() }
    }

    /// A manager for tests: marked temporary so teardown removes its state.
    pub fn new_test_sm() -> (r: StorageManager)
        ensures
            r.wf(),
            r.entries().len() == 0,
            r.temp(),
    {
        StorageManager { storage_path: String::new(), is_temp: true, containers: Vec::new() }
    }

    /// The one configuration this layer distinguishes.
    pub fn get_simple_config() -> (r: ContainerConfig) {
        ContainerConfig {  }
    }

    /// Whether teardown should remove the directory.
    pub fn is_temp(&self) -> (r: bool)
        ensures
            r == self.temp(),
    {
        self.is_temp
    }

    /// Index of `cid` in the registry, if registered.
    fn find(&self, cid: ContainerId) -> (r: Option<usize>)
        requires
            self.wf(),
        ensures
            match r {
                Some(k) => k < self.entries().len() && self.entries()[k as int].0 == cid && self.has(
                    cid,
                ) && self.idx_of(cid) == k as int,
                None => !self.has(cid),
            },
    {
        let n = self.containers.len();
        let mut k: usize = 0;
        while k < n
            invariant
                self.wf(),
                n == self.entries().len(),
                k <= n,
                forall|j: int| 0 <= j < k ==> (#[trigger] self.entries()[j]).0 != cid,
            decreases n - k,
        {
            if self.containers[k].0 == cid {
                proof {
                    let w = self.idx_of(cid);
                    if w != k as int {
                        assert(self.entries()[w].0 == cid);
                    }
                }
                return Some(k);
            }
            k = k + 1;
        }
        None
    }

    /// Register a fresh, empty container under `cid`, replacing any
    /// previous registration. The backing file is the caller's to create.
    pub fn create_container(
        &mut self,
        container_id: ContainerId,
        _container_config: ContainerConfig,
        _name: Option<String>,
        _container_type: StateType,
        _dependencies: Option<Vec<ContainerId>>,
    ) -> (r: Result<(), StorageError>)
        requires
            old(self).wf(),
        ensures
            final(self).wf(),
            r is Ok,
            final(self).temp() == old(self).temp(),
            final(self).has(container_id),
            final(self).pages_of(container_id).len() == 0,
            forall|c: ContainerId|
                c != container_id ==> #[trigger] final(self).has(c) == old(self).has(c),
            forall|c: ContainerId|
                c != container_id && old(self).has(c) ==> #[trigger] final(self).pages_of(c)
                    == old(self).pages_of(c),
    {
        self.attach_container(container_id, HeapFile::new())
    }

    /// Register an existing heap file (for example one rebuilt from its
    /// persisted image) under `cid`, replacing any previous registration.
    #[verifier::rlimit(100)]
    #[verifier::spinoff_prover]
    pub fn attach_container(&mut self, container_id: ContainerId, hf: HeapFile) -> (r: Result<
        (),
        StorageError,
    >)
        requires
            old(self).wf(),
            hf.wf(),
        ensures
            final(self).wf(),
            r is Ok,
            final(self).temp() == old(self).temp(),
            final(self).has(container_id),
            final(self).pages_of(container_id) == hf.view_pages(),
            forall|c: ContainerId|
                c != container_id ==> #[trigger] final(self).has(c) == old(self).has(c),
            forall|c: ContainerId|
                c != container_id && old(self).has(c) ==> #[trigger] final(self).pages_of(c)
                    == old(self).pages_of(c),
    {
        match self.find(container_id) {
            Some(k) => {
                let _prev = self.containers.remove(k);
                self.containers.insert(k, (container_id, hf));
                proof {
                    let at = k as int;
                    assert(self.entries() =~= old(self).entries().update(
                        at,
                        (container_id, hf),
                    ));
                    lemma_registry_update(old(self).entries(), self.entries(), at);
                    assert(self.entries()[at].0 == container_id);
                    assert(self.has(container_id));
                    assert(self.idx_of(container_id) == at) by {
                        let w = self.idx_of(container_id);
                        if w != at {
                            assert(self.entries()[w].0 == container_id);
                        }
                    }
                    lemma_attach_others(old(self).entries(), self.entries(), container_id, at);
                }
            },
            None => {
                self.containers.push((container_id, hf));
                proof {
                    let at = self.entries().len() - 1;
                    lemma_registry_push(old(self).entries(), self.entries(), container_id);
                    assert(self.entries()[at].0 == container_id);
                    assert(self.has(container_id));
                    assert(self.idx_of(container_id) == at) by {
                        let w = self.idx_of(container_id);
                        if w != at {
                            assert(self.entries()[w].0 == container_id);
                        }
                    }
                    lemma_attach_others(old(self).entries(), self.entries(), container_id, at);
                }
            },
        }
        proof {
            assert forall|c: ContainerId|
                c != container_id implies #[trigger] self.has(c) == old(self).has(c) by {
                lemma_sm_view(*old(self), *self, c);
            }
            assert forall|c: ContainerId|
                c != container_id && old(self).has(c) implies #[trigger] self.pages_of(c) == old(
                self,
            ).pages_of(c) by {
                lemma_sm_view(*old(self), *self, c);
            }
        }
        Ok(())
    }

    /// A wrapper that creates a plain table container.
    pub fn create_table(&mut self, container_id: ContainerId) -> (r: Result<(), StorageError>)
        requires
            old(self).wf(),
        ensures
            final(self).wf(),
            r is Ok,
            final(self).temp() == old(self).temp(),
            final(self).has(container_id),
            final(self).pages_of(container_id).len() == 0,
            forall|c: ContainerId|
                c != container_id ==> #[trigger] final(self).has(c) == old(self).has(c),
            forall|c: ContainerId|
                c != container_id && old(self).has(c) ==> #[trigger] final(self).pages_of(c)
                    == old(self).pages_of(c),
    {
        self.create_container(
            container_id,
            StorageManager::get_simple_config(),
            None,
            StateType::BaseTable,
            None,
        )
    }

    /// Drop the registration of `cid`; the caller removes the backing file.
    #[verifier::rlimit(100)]
    #[verifier::spinoff_prover]
    pub fn remove_container(&mut self, container_id: ContainerId) -> (r: Result<(), StorageError>)
        requires
            old(self).wf(),
        ensures
            final(self).wf(),
            final(self).temp() == old(self).temp(),
            r is Ok <==> old(self).has(container_id),
            r is Err ==> r == Err::<(), StorageError>(StorageError::ContainerNotFound)
                && final(self).pg_entries_eq(*old(self)),
            !final(self).has(container_id),
            forall|c: ContainerId|
                c != container_id ==> #[trigger] final(self).has(c) == old(self).has(c),
            forall|c: ContainerId|
                c != container_id && old(self).has(c) ==> #[trigger] final(self).pages_of(c)
                    == old(self).pages_of(c),
    {
        match self.find(container_id) {
            None => Err(StorageError::ContainerNotFound),
            Some(k) => {
                let _old = self.containers.remove(k);
                proof {
                    assert(!self.has(container_id)) by {
                        if self.has(container_id) {
                            let w = self.idx_of(container_id);
                            if w < k as int {
                                assert(old(self).entries()[w].0 == container_id);
                            } else {
                                assert(old(self).entries()[w + 1].0 == container_id);
                            }
                        }
                    }
                    assert forall|c: ContainerId|
                        c != container_id implies #[trigger] self.has(c) == old(self).has(c) by {
                        lemma_removed_view(old(self).entries(), self.entries(), k as int, c);
                    }
                    assert forall|c: ContainerId|
                        c != container_id && old(self).has(c) implies #[trigger] self.pages_of(c)
                        == old(self).pages_of(c) by {
                        lemma_removed_view(old(self).entries(), self.entries(), k as int, c);
                        if old(self).has(c) && self.has(c) {
                            let wo = old(self).idx_of(c);
                            let wn = self.idx_of(c);
                            assert(old(self).entries()[wo].0 == c && self.entries()[wn].0 == c);
                            let back = if wn < k as int {
                                wn
                            } else {
                                wn + 1
                            };
                            assert(self.entries()[wn] == old(self).entries()[back]);
                            assert(back == wo) by {
                                if back != wo {
                                    assert(old(self).entries()[back].0 == c);
                                }
                            }
                        }
                    }
                }
                Ok(())
            },
        }
    }

    /// Observable equality of two registries.
    pub open spec fn pg_entries_eq(self, other: StorageManager) -> bool {
        self.entries() =~= other.entries()
    }

    /// The number of pages a container holds; zero for an unknown one.
    pub fn get_num_pages(&self, container_id: ContainerId) -> (r: u16)
        requires
            self.wf(),
        ensures
            self.has(container_id) ==> r as int == self.pages_of(container_id).len(),
            !self.has(container_id) ==> r == 0,
    {
        match self.find(container_id) {
            None => 0,
            Some(k) => {
                let n = self.containers[k].1.num_pages();
                n
            },
        }
    }

    /// The read and write counters of a container's heap file; zeroes for
    /// an unknown container.
    pub fn get_hf_read_write_count(&self, container_id: ContainerId) -> (r: (u16, u16))
        requires
            self.wf(),
        ensures
            self.has(container_id) ==> r.0 == self.entries()[self.idx_of(container_id)].1.reads()
                && r.1 == self.entries()[self.idx_of(container_id)].1.writes(),
            !self.has(container_id) ==> r == (0u16, 0u16),
    {
        match self.find(container_id) {
            None => (0, 0),
            Some(k) => self.containers[k].1.counters(),
        }
    }
}

impl StorageManager {
    /// Swap the heap file of a registered container out for mutation.
    fn take_container(&mut self, k: usize) -> (r: (ContainerId, HeapFile))
        requires
            old(self).wf(),
            k < old(self).entries().len(),
        ensures
            final(self).wf() || true,
            r == old(self).entries()[k as int],
            final(self).entries() =~= old(self).entries().remove(k as int),
            final(self).temp() == old(self).temp(),
    {
        self.containers.remove(k)
    }

    /// Put a mutated heap file back where it was taken from.
    fn put_container(&mut self, k: usize, cid: ContainerId, hf: HeapFile)
        requires
            k <= old(self).entries().len(),
        ensures
            final(self).entries() =~= old(self).entries().insert(k as int, (cid, hf)),
            final(self).temp() == old(self).temp(),
    {
        self.containers.insert(k, (cid, hf));
    }

    /// Insert a record into the container, first-fit over its pages in
    /// ascending page order, growing the file when no page accepts it.
    /// A record too large for even an empty page is not stored: the returned
    /// address then has no slot.
    #[verifier::rlimit(100)]
    #[verifier::spinoff_prover]
    pub fn insert_value(
        &mut self,
        container_id: ContainerId,
        value: Vec<u8>,
        _tid: TransactionId,
    ) -> (r: ValueId)
        requires
            old(self).wf(),
            old(self).has(container_id),
            value@.len() <= PAGE_SIZE,
            old(self).pages_of(container_id).len() < 0xFFFF,
        ensures
            final(self).wf(),
            final(self).temp() == old(self).temp(),
            final(self).has(container_id),
            r.container_id == container_id,
            r.segment_id is None,
            forall|c: ContainerId|
                c != container_id ==> #[trigger] final(self).has(c) == old(self).has(c),
            forall|c: ContainerId|
                c != container_id && old(self).has(c) ==> #[trigger] final(self).pages_of(c)
                    == old(self).pages_of(c),
            insert_step_post(
                old(self).pages_of(container_id),
                final(self).pages_of(container_id),
                value@,
                r,
                container_id,
            ),
    {
        let k = match self.find(container_id) {
            Some(k) => k,
            None => {
                proof {
                    assert(false);
                }
                0
            },
        };
        let (cid, mut hf) = self.take_container(k);
        let num = hf.num_pages();
        let mut vid = ValueId {
            container_id,
            segment_id: None,
            page_id: Some(num),
            slot_id: None,
        };
        if value.len() + HEADER_PER_SLOT + HEADER_FIXED < PAGE_SIZE {
            let (pid, sid) = first_fit_insert(&mut hf, &value);
            vid.page_id = Some(pid);
            vid.slot_id = Some(sid);
        }
        self.put_container(k, cid, hf);
        proof {
            assert(self.entries() =~= old(self).entries().update(k as int, (cid, hf)));
            lemma_registry_update(old(self).entries(), self.entries(), k as int);
            assert(self.has(container_id)) by {
                assert(self.entries()[k as int].0 == container_id);
            }
            assert(self.idx_of(container_id) == k as int) by {
                let w = self.idx_of(container_id);
                if w != k as int {
                    assert(self.entries()[w].0 == container_id);
                }
            }
            lemma_attach_others(old(self).entries(), self.entries(), container_id, k as int);
            assert forall|c: ContainerId|
                c != container_id implies #[trigger] self.has(c) == old(self).has(c) by {
                lemma_sm_view(*old(self), *self, c);
            }
            assert forall|c: ContainerId|
                c != container_id && old(self).has(c) implies #[trigger] self.pages_of(c) == old(
                self,
            ).pages_of(c) by {
                lemma_sm_view(*old(self), *self, c);
            }
        }
        vid
    }

    /// Insert several records in order: the sequential composition of
    /// `insert_value`, one address per record, order preserved.
    #[verifier::rlimit(100)]
    #[verifier::spinoff_prover]
    pub fn insert_values(
        &mut self,
        container_id: ContainerId,
        values: Vec<Vec<u8>>,
        tid: TransactionId,
    ) -> (r: Vec<ValueId>)
        requires
            old(self).wf(),
            old(self).has(container_id),
            forall|i: int| 0 <= i < values@.len() ==> (#[trigger] values@[i])@.len() <= PAGE_SIZE,
            old(self).pages_of(container_id).len() + values@.len() < 0xFFFF,
        ensures
            final(self).wf(),
            final(self).temp() == old(self).temp(),
            final(self).has(container_id),
            r@.len() == values@.len(),
            forall|c: ContainerId|
                c != container_id ==> #[trigger] final(self).has(c) == old(self).has(c),
            forall|c: ContainerId|
                c != container_id && old(self).has(c) ==> #[trigger] final(self).pages_of(c)
                    == old(self).pages_of(c),
            exists|states: Seq<Seq<Page>>|
                #[trigger] inserts_trace(states, views_of(values@), r@, container_id)
                    && states.first() == old(self).pages_of(container_id) && states.last()
                    == final(self).pages_of(container_id),
    {
        let mut out: Vec<ValueId> = Vec::new();
        let ghost mut states: Seq<Seq<Page>> = seq![self.pages_of(container_id)];
        let mut i: usize = 0;
        while i < values.len()
            invariant
                self.wf(),
                self.has(container_id),
                self.temp() == old(self).temp(),
                i <= values@.len(),
                forall|j: int| 0 <= j < values@.len() ==> (#[trigger] values@[j])@.len() <= PAGE_SIZE,
                self.pages_of(container_id).len() <= old(self).pages_of(container_id).len() + i,
                old(self).pages_of(container_id).len() + values@.len() < 0xFFFF,
                out@.len() == i as int,
                forall|c: ContainerId|
                    c != container_id ==> #[trigger] self.has(c) == old(self).has(c),
                forall|c: ContainerId|
                    c != container_id && old(self).has(c) ==> #[trigger] self.pages_of(c) == old(
                        self,
                    ).pages_of(c),
                states.len() == i as int + 1,
                states.first() == old(self).pages_of(container_id),
                states.last() == self.pages_of(container_id),
                forall|j: int|
                    0 <= j < i ==> insert_step_post(
                        #[trigger] states[j],
                        states[j + 1],
                        values@[j]@,
                        out@[j],
                        container_id,
                    ),
            decreases values@.len() - i,
        {
            let mut one: Vec<u8> = Vec::new();
            let src = &values[i];
            let mut z: usize = 0;
            while z < src.len()
                invariant
                    i < values@.len(),
                    src == values@[i as int],
                    z <= src@.len(),
                    one@ =~= src@.subrange(0, z as int),
                decreases src@.len() - z,
            {
                one.push(src[z]);
                z = z + 1;
            }
            proof {
                assert(one@ =~= values@[i as int]@);
            }
            let vid = self.insert_value(container_id, one, tid);
            out.push(vid);
            proof {
                states = states.push(self.pages_of(container_id));
                assert(insert_step_post(
                    states[i as int],
                    states[i as int + 1],
                    values@[i as int]@,
                    vid,
                    container_id,
                ));
                assert forall|j: int|
                    0 <= j < i + 1 implies insert_step_post(
                    #[trigger] states[j],
                    states[j + 1],
                    values@[j]@,
                    out@[j],
                    container_id,
                ) by {
                    if j < i as int {
                        assert(states[j] == states.drop_last()[j]);
                        assert(states[j + 1] == states.drop_last()[j + 1] || j + 1 == i as int);
                    }
                }
            }
            i = i + 1;
        }
        proof {
            assert(inserts_trace(states, views_of(values@), out@, container_id)) by {
                assert(views_of(values@).len() == values@.len());
                assert forall|j: int|
                    0 <= j < values@.len() implies insert_step_post(
                    #[trigger] states[j],
                    states[j + 1],
                    views_of(values@)[j],
                    out@[j],
                    container_id,
                ) by {
                    assert(views_of(values@)[j] == values@[j]@);
                }
            }
        }
        out
    }

    /// Read one record's bytes by its address.
    pub fn get_value(
        &mut self,
        id: ValueId,
        _tid: TransactionId,
        _perm: Permissions,
    ) -> (r: Result<Vec<u8>, StorageError>)
        requires
            old(self).wf(),
            old(self).has(id.container_id),
            id.page_id is Some,
            id.slot_id is Some,
        ensures
            final(self).wf(),
            final(self).temp() == old(self).temp(),
            forall|c: ContainerId| #[trigger] final(self).has(c) == old(self).has(c),
            forall|c: ContainerId|
                old(self).has(c) ==> #[trigger] final(self).pages_of(c) == old(self).pages_of(c),
            ({
                let pgs = old(self).pages_of(id.container_id);
                let pid = id.page_id->Some_0 as int;
                let sid = id.slot_id->Some_0;
                if pid >= pgs.len() {
                    r == Err::<Vec<u8>, StorageError>(StorageError::InvalidPage)
                } else if !pgs[pid].slot_map().dom().contains(sid) {
                    r == Err::<Vec<u8>, StorageError>(StorageError::SlotNotFound)
                } else {
                    r is Ok && r->Ok_0@ =~= pgs[pid].slot_map()[sid]
                }
            }),
    {
        let k = match self.find(id.container_id) {
            Some(k) => k,
            None => {
                proof {
                    assert(false);
                }
                0
            },
        };
        let (cid, mut hf) = self.take_container(k);
        let pid = match id.page_id {
            Some(p) => p,
            None => 0,
        };
        let sid = match id.slot_id {
            Some(s) => s,
            None => 0,
        };
        let out = match hf.read_page_from_file(pid) {
            Err(_) => Err(StorageError::InvalidPage),
            Ok(pg) => match pg.get_value(sid) {
                None => Err(StorageError::SlotNotFound),
                Some(v) => Ok(v),
            },
        };
        self.put_container(k, cid, hf);
        proof {
            self.lemma_after_put(*old(self), k as int, id.container_id, hf);
        }
        out
    }

    /// Remove one record by its address, compacting its page. An unknown
    /// container, an out-of-range page or a dead slot is a recoverable
    /// error, leaving every container unchanged.
    #[verifier::rlimit(100)]
    #[verifier::spinoff_prover]
    pub fn delete_value(&mut self, id: ValueId, _tid: TransactionId) -> (r: Result<
        (),
        StorageError,
    >)
        requires
            old(self).wf(),
            id.page_id is Some,
            id.slot_id is Some,
        ensures
            final(self).wf(),
            final(self).temp() == old(self).temp(),
            forall|c: ContainerId| #[trigger] final(self).has(c) == old(self).has(c),
            forall|c: ContainerId|
                c != id.container_id && old(self).has(c) ==> #[trigger] final(self).pages_of(c)
                    == old(self).pages_of(c),
            !old(self).has(id.container_id) ==> r == Err::<(), StorageError>(
                StorageError::ContainerNotFound,
            ) && final(self).pg_entries_eq(*old(self)),
            old(self).has(id.container_id) ==> ({
                let pgs = old(self).pages_of(id.container_id);
                let new_pgs = final(self).pages_of(id.container_id);
                let pid = id.page_id->Some_0 as int;
                let sid = id.slot_id->Some_0;
                if pid >= pgs.len() {
                    r == Err::<(), StorageError>(StorageError::InvalidPage) && new_pgs == pgs
                } else if !pgs[pid].slot_map().dom().contains(sid) {
                    r == Err::<(), StorageError>(StorageError::SlotNotFound) && new_pgs == pgs
                } else {
                    r is Ok && delete_step_post(pgs, new_pgs, pid, sid)
                }
            }),
    {
        let k = match self.find(id.container_id) {
            Some(k) => k,
            None => {
                return Err(StorageError::ContainerNotFound);
            },
        };
        let (cid, mut hf) = self.take_container(k);
        let pid = match id.page_id {
            Some(p) => p,
            None => 0,
        };
        let sid = match id.slot_id {
            Some(s) => s,
            None => 0,
        };
        let out = match hf.read_page_from_file(pid) {
            Err(_) => Err(StorageError::InvalidPage),
            Ok(mut pg) => match pg.delete_value(sid) {
                None => Err(StorageError::SlotNotFound),
                Some(()) => {
                    match hf.write_page_to_file(pg) {
                        Ok(()) => {},
                        Err(_) => {},
                    }
                    Ok(())
                },
            },
        };
        self.put_container(k, cid, hf);
        proof {
            self.lemma_after_put(*old(self), k as int, id.container_id, hf);
        }
        out
    }

    /// Replace one record: delete it, then reinsert the new bytes first-fit
    /// into the compacted state. The returned address may differ from the
    /// old one. A failed delete is a recoverable error and then nothing is
    /// inserted.
    #[verifier::rlimit(100)]
    #[verifier::spinoff_prover]
    pub fn update_value(&mut self, value: Vec<u8>, id: ValueId, tid: TransactionId) -> (r: Result<
        ValueId,
        StorageError,
    >)
        requires
            old(self).wf(),
            id.page_id is Some,
            id.slot_id is Some,
            value@.len() <= PAGE_SIZE,
            old(self).has(id.container_id) ==> old(self).pages_of(id.container_id).len() < 0xFFFF,
        ensures
            final(self).wf(),
            final(self).temp() == old(self).temp(),
            forall|c: ContainerId| #[trigger] final(self).has(c) == old(self).has(c),
            forall|c: ContainerId|
                c != id.container_id && old(self).has(c) ==> #[trigger] final(self).pages_of(c)
                    == old(self).pages_of(c),
            !old(self).has(id.container_id) ==> r == Err::<ValueId, StorageError>(
                StorageError::ContainerNotFound,
            ) && final(self).pg_entries_eq(*old(self)),
            old(self).has(id.container_id) ==> ({
                let pgs = old(self).pages_of(id.container_id);
                let new_pgs = final(self).pages_of(id.container_id);
                let pid = id.page_id->Some_0 as int;
                let sid = id.slot_id->Some_0;
                if pid >= pgs.len() {
                    r == Err::<ValueId, StorageError>(StorageError::InvalidPage) && new_pgs == pgs
                } else if !pgs[pid].slot_map().dom().contains(sid) {
                    r == Err::<ValueId, StorageError>(StorageError::SlotNotFound) && new_pgs == pgs
                } else {
                    &&& r is Ok
                    &&& exists|mid: Seq<Page>|
                        #[trigger] delete_step_post(pgs, mid, pid, sid) && insert_step_post(
                            mid,
                            new_pgs,
                            value@,
                            r->Ok_0,
                            id.container_id,
                        )
                }
            }),
    {
        let deleted = self.delete_value(id, tid);
        match deleted {
            Err(e) => Err(e),
            Ok(()) => {
                let ghost mid_pages = self.pages_of(id.container_id);
                let vid = self.insert_value(id.container_id, value, tid);
                proof {
                    let pgs = old(self).pages_of(id.container_id);
                    let pid = id.page_id->Some_0 as int;
                    let sid = id.slot_id->Some_0;
                    assert(delete_step_post(pgs, mid_pages, pid, sid) && insert_step_post(
                        mid_pages,
                        self.pages_of(id.container_id),
                        value@,
                        vid,
                        id.container_id,
                    ));
                }
                Ok(vid)
            },
        }
    }

    /// A copy of one page of a container, absent when the page identifier
    /// is at or past the page count.
    pub fn get_page(
        &mut self,
        container_id: ContainerId,
        page_id: u16,
        _tid: TransactionId,
        _perm: Permissions,
        _pin: bool,
    ) -> (r: Option<Page>)
        requires
            old(self).wf(),
            old(self).has(container_id),
        ensures
            final(self).wf(),
            final(self).temp() == old(self).temp(),
            forall|c: ContainerId| #[trigger] final(self).has(c) == old(self).has(c),
            forall|c: ContainerId|
                old(self).has(c) ==> #[trigger] final(self).pages_of(c) == old(self).pages_of(c),
            r is Some <==> (page_id as int) < old(self).pages_of(container_id).len(),
            r is Some ==> r->Some_0.wf() && r->Some_0.pg_eq(
                old(self).pages_of(container_id)[page_id as int],
            ),
    {
        let k = match self.find(container_id) {
            Some(k) => k,
            None => {
                proof {
                    assert(false);
                }
                0
            },
        };
        let (cid, mut hf) = self.take_container(k);
        let out = match hf.read_page_from_file(page_id) {
            Ok(pg) => Some(pg),
            Err(_) => None,
        };
        self.put_container(k, cid, hf);
        proof {
            self.lemma_after_put(*old(self), k as int, container_id, hf);
        }
        out
    }

    /// An iterator over all records of a container, in (page, slot) order.
    pub fn get_iterator(
        &self,
        container_id: ContainerId,
        _tid: TransactionId,
        _perm: Permissions,
    ) -> (it: HeapFileIterator)
        requires
            self.wf(),
            self.has(container_id),
        ensures
            it.inv(),
            it.remaining() =~= pages_recs(self.pages_of(container_id)),
    {
        let k = match self.find(container_id) {
            Some(k) => k,
            None => {
                proof {
                    assert(false);
                }
                0
            },
        };
        HeapFileIterator::new(container_id, &self.containers[k].1)
    }

    /// Forget every container; the caller wipes and recreates the directory.
    pub fn reset(&mut self) -> (r: Result<(), StorageError>)
        ensures
            final(self).wf(),
            r is Ok,
            final(self).temp() == old(self).temp(),
            final(self).entries().len() == 0,
    {
        self.containers.clear();
        Ok(())
    }

    /// The registered container identifiers in registration order, for the
    /// caller to serialize at shutdown.
    pub fn container_ids(&self) -> (r: Vec<ContainerId>)
        requires
            self.wf(),
        ensures
            r@.len() == self.entries().len(),
            forall|i: int| 0 <= i < r@.len() ==> #[trigger] r@[i] == self.entries()[i].0,
            forall|i: int| 0 <= i < r@.len() ==> self.has(#[trigger] r@[i]),
    {
        let mut out: Vec<ContainerId> = Vec::new();
        let mut i: usize = 0;
        while i < self.containers.len()
            invariant
                self.wf(),
                i <= self.entries().len(),
                out@.len() == i as int,
                forall|j: int| 0 <= j < out@.len() ==> #[trigger] out@[j] == self.entries()[j].0,
            decreases self.entries().len() - i,
        {
            out.push(self.containers[i].0);
            i = i + 1;
        }
        proof {
            assert forall|i2: int| 0 <= i2 < out@.len() implies self.has(#[trigger] out@[i2]) by {
                assert(self.entries()[i2].0 == out@[i2]);
            }
        }
        out
    }

    /// The image of one container's heap file, for the caller to persist.
    pub fn container_image(&self, container_id: ContainerId) -> (r: Option<Vec<u8>>)
        requires
            self.wf(),
        ensures
            r is Some <==> self.has(container_id),
            r is Some ==> r->Some_0@ =~= crate::heapfile::hf_image(self.pages_of(container_id)),
    {
        match self.find(container_id) {
            Some(k) => Some(self.containers[k].1.to_image()),
            None => None,
        }
    }

    /// What a mutation of the container at position `k` left unchanged.
    proof fn lemma_after_put(
        &self,
        prev: StorageManager,
        k: int,
        cid: ContainerId,
        hf: HeapFile,
    )
        requires
            prev.wf(),
            0 <= k < prev.entries().len(),
            prev.entries()[k].0 == cid,
            hf.wf(),
            self.entries() =~= prev.entries().update(k, (cid, hf)),
            self.temp() == prev.temp(),
        ensures
            self.wf(),
            self.has(cid),
            self.idx_of(cid) == k,
            self.pages_of(cid) == hf.view_pages(),
            forall|c: ContainerId| #[trigger] self.has(c) == prev.has(c),
            forall|c: ContainerId|
                c != cid && prev.has(c) ==> #[trigger] self.pages_of(c) == prev.pages_of(c),
    {
        lemma_registry_update(prev.entries(), self.entries(), k);
        assert(self.entries()[k].0 == cid);
        assert(self.has(cid));
        assert(self.idx_of(cid) == k) by {
            let w = self.idx_of(cid);
            if w != k {
                assert(self.entries()[w].0 == cid);
            }
        }
        lemma_attach_others(prev.entries(), self.entries(), cid, k);
        assert forall|c: ContainerId| #[trigger] self.has(c) == prev.has(c) by {
            if c != cid {
                lemma_sm_view(prev, *self, c);
            }
        }
        assert forall|c: ContainerId|
            c != cid && prev.has(c) implies #[trigger] self.pages_of(c) == prev.pages_of(c) by {
            lemma_sm_view(prev, *self, c);
        }
    }
}

/// Registries that agree at every position carrying a given key, with that
/// key present in neither or in both at the same entry, look the same to
/// that key.
pub open spec fn same_for_key(
    before: Seq<(ContainerId, HeapFile)>,
    after: Seq<(ContainerId, HeapFile)>,
    c: ContainerId,
) -> bool {
    &&& (forall|i: int|
        0 <= i < before.len() && (#[trigger] before[i]).0 == c ==> i < after.len() && after[i]
            == before[i])
    &&& (forall|i: int|
        0 <= i < after.len() && (#[trigger] after[i]).0 == c ==> i < before.len() && before[i]
            == after[i])
}

/// Replacing or appending the entry of one key leaves every other key's
/// entry where it was.
proof fn lemma_attach_others(
    before: Seq<(ContainerId, HeapFile)>,
    after: Seq<(ContainerId, HeapFile)>,
    cid: ContainerId,
    at: int,
)
    requires
        0 <= at < after.len(),
        after.len() == before.len() || after.len() == before.len() + 1,
        at == after.len() - 1 || at < before.len(),
        forall|i: int| 0 <= i < before.len() && i != at ==> #[trigger] after[i] == before[i],
        at < before.len() ==> before[at].0 == cid,
        after[at].0 == cid,
        after.len() == before.len() + 1 ==> at == before.len(),
    ensures
        forall|c: ContainerId| c != cid ==> #[trigger] same_for_key(before, after, c),
{
    assert forall|c: ContainerId| c != cid implies #[trigger] same_for_key(before, after, c) by {
        assert forall|i: int|
            0 <= i < before.len() && (#[trigger] before[i]).0 == c implies i < after.len()
            && after[i] == before[i] by {
            assert(i != at || before[at].0 == cid);
        }
        assert forall|i: int|
            0 <= i < after.len() && (#[trigger] after[i]).0 == c implies i < before.len()
            && before[i] == after[i] by {
            assert(i != at);
        }
    }
}

/// Removing position `k` of a unique-keyed registry: every other key is
/// registered afterwards exactly when it was before.
proof fn lemma_removed_view(
    before: Seq<(ContainerId, HeapFile)>,
    after: Seq<(ContainerId, HeapFile)>,
    k: int,
    c: ContainerId,
)
    requires
        forall|i: int, j: int|
            0 <= i < j < before.len() ==> (#[trigger] before[i]).0 != (#[trigger] before[j]).0,
        0 <= k < before.len(),
        after =~= before.remove(k),
        c != before[k].0,
    ensures
        (exists|i: int| 0 <= i < after.len() && (#[trigger] after[i]).0 == c) == (exists|i: int|
            0 <= i < before.len() && (#[trigger] before[i]).0 == c),
        forall|i: int|
            0 <= i < after.len() ==> #[trigger] after[i] == (if i < k {
                before[i]
            } else {
                before[i + 1]
            }),
{
    if exists|i: int| 0 <= i < before.len() && (#[trigger] before[i]).0 == c {
        let wo = choose|i: int| 0 <= i < before.len() && (#[trigger] before[i]).0 == c;
        assert(wo != k);
        if wo < k {
            assert(after[wo].0 == c);
        } else {
            assert(after[wo - 1].0 == c);
        }
    }
    if exists|i: int| 0 <= i < after.len() && (#[trigger] after[i]).0 == c {
        let wn = choose|i: int| 0 <= i < after.len() && (#[trigger] after[i]).0 == c;
        if wn < k {
            assert(before[wn].0 == c);
        } else {
            assert(before[wn + 1].0 == c);
        }
    }
}

/// `same_for_key` carries lookups across: the key is registered in one
/// registry exactly when in the other, with the same heap file.
proof fn lemma_sm_view(a: StorageManager, b: StorageManager, c: ContainerId)
    requires
        same_for_key(a.entries(), b.entries(), c),
        forall|i: int, j: int|
            0 <= i < j < a.entries().len() ==> (#[trigger] a.entries()[i]).0 != (
            #[trigger] a.entries()[j]).0,
        forall|i: int, j: int|
            0 <= i < j < b.entries().len() ==> (#[trigger] b.entries()[i]).0 != (
            #[trigger] b.entries()[j]).0,
    ensures
        a.has(c) == b.has(c),
        a.has(c) ==> b.pages_of(c) == a.pages_of(c),
{
    if a.has(c) {
        let wa = a.idx_of(c);
        assert(a.entries()[wa].0 == c);
        assert(b.entries()[wa] == a.entries()[wa]);
        assert(b.has(c));
    }
    if b.has(c) {
        let wb = b.idx_of(c);
        assert(b.entries()[wb].0 == c);
        assert(a.entries()[wb] == b.entries()[wb]);
        assert(a.has(c));
    }
    if a.has(c) && b.has(c) {
        let wa = a.idx_of(c);
        let wb = b.idx_of(c);
        assert(a.entries()[wa].0 == c && b.entries()[wb].0 == c);
        assert(b.entries()[wa] == a.entries()[wa]);
        assert(wb == wa) by {
            if wb != wa {
                assert(b.entries()[wa].0 == c);
            }
        }
    }
}

/// After replacing position `k` of a unique-keyed registry with an entry
/// carrying the key that stood there, the registry is unique again, holds
/// that key at `k`, and every other key maps to its old entry.
proof fn lemma_registry_update(
    before: Seq<(ContainerId, HeapFile)>,
    after: Seq<(ContainerId, HeapFile)>,
    k: int,
)
    requires
        forall|i: int, j: int|
            0 <= i < j < before.len() ==> (#[trigger] before[i]).0 != (#[trigger] before[j]).0,
        0 <= k < before.len(),
        after.len() == before.len(),
        after[k].0 == before[k].0,
        forall|i: int| 0 <= i < before.len() && i != k ==> #[trigger] after[i] == before[i],
    ensures
        forall|i: int, j: int|
            0 <= i < j < after.len() ==> (#[trigger] after[i]).0 != (#[trigger] after[j]).0,
        forall|i: int|
            0 <= i < before.len() && (#[trigger] before[i]).0 != before[k].0 ==> after[i]
                == before[i],
{
}

/// After appending an entry with a fresh key to a unique-keyed registry,
/// the registry is unique again and every old entry is untouched.
proof fn lemma_registry_push(
    before: Seq<(ContainerId, HeapFile)>,
    after: Seq<(ContainerId, HeapFile)>,
    cid: ContainerId,
)
    requires
        forall|i: int, j: int|
            0 <= i < j < before.len() ==> (#[trigger] before[i]).0 != (#[trigger] before[j]).0,
        forall|i: int| 0 <= i < before.len() ==> (#[trigger] before[i]).0 != cid,
        after =~= before.push(after.last()),
        after.len() == before.len() + 1,
        after.last().0 == cid,
    ensures
        forall|i: int, j: int|
            0 <= i < j < after.len() ==> (#[trigger] after[i]).0 != (#[trigger] after[j]).0,
{
    assert forall|i: int, j: int|
        0 <= i < j < after.len() implies (#[trigger] after[i]).0 != (#[trigger] after[j]).0 by {
        if j == after.len() - 1 {
            assert(after[i] == before[i]);
        } else {
            assert(after[i] == before[i] && after[j] == before[j]);
        }
    }
}

} // verus!
