//! A slotted page: variable-length records packed into a fixed-size byte
//! buffer, addressed by stable slot identifiers through an in-page directory.
//!
//! Live records always occupy one contiguous prefix of the data region; a
//! delete compacts the region by shifting every later record down. The
//! well-formedness predicate carries a witness sequence (`chain_ok`) listing
//! the live slots in layout order, which pins down the tiling exactly.

use crate::codec::{copy_bytes, zero_bytes};
use crate::PAGE_SIZE;
use vstd::prelude::*;

verus! {

/// Fixed per-page header budget in bytes.
pub const HEADER_FIXED: usize = 8;

/// Per-slot header budget in bytes.
pub const HEADER_PER_SLOT: usize = 6;

/// Largest number of slots any page can hold: each live slot costs at least
/// its six header bytes out of `PAGE_SIZE - HEADER_FIXED`.
pub const MAX_SLOTS: usize = 681;

/// True when `s` names a live slot of the directory.
pub open spec fn live(slots: Seq<Option<(u16, u16)>>, s: int) -> bool {
    0 <= s < slots.len() && slots[s] is Some
}

/// Offset of the record held by live slot `s`.
pub open spec fn slot_off(slots: Seq<Option<(u16, u16)>>, s: int) -> int {
    slots[s]->Some_0.0 as int
}

/// Length of the record held by live slot `s`.
pub open spec fn slot_len(slots: Seq<Option<(u16, u16)>>, s: int) -> int {
    slots[s]->Some_0.1 as int
}

/// One past the last byte of the record held by live slot `s`.
pub open spec fn slot_end(slots: Seq<Option<(u16, u16)>>, s: int) -> int {
    slot_off(slots, s) + slot_len(slots, s)
}

/// Number of live slots in the directory.
pub open spec fn count_live(s: Seq<Option<(u16, u16)>>) -> nat
    decreases s.len(),
{
    if s.len() == 0 {
        0
    } else {
        count_live(s.drop_last()) + if s.last() is Some {
            1nat
        } else {
            0nat
        }
    }
}

/// `ord` lists exactly the live slots, in layout order: their records tile
/// the data region gaplessly from offset zero.
pub open spec fn chain_ok(slots: Seq<Option<(u16, u16)>>, ord: Seq<u16>) -> bool {
    &&& ord.no_duplicates()
    &&& ord.len() == count_live(slots)
    &&& forall|i: int| 0 <= i < ord.len() ==> live(slots, #[trigger] ord[i] as int)
    &&& forall|s: int| live(slots, s) ==> ord.contains(s as u16)
    &&& (ord.len() > 0 ==> slot_off(slots, ord[0] as int) == 0)
    &&& forall|i: int|
        1 <= i < ord.len() ==> slot_off(slots, #[trigger] ord[i] as int) == slot_end(
            slots,
            ord[i - 1] as int,
        )
}

/// The position the next inserted record receives: the lowest free slot
/// identifier below the current maximum if one exists, else the live count.
pub open spec fn first_gap(s: Seq<Option<(u16, u16)>>) -> Option<int>
    decreases s.len(),
{
    if s.len() == 0 {
        None
    } else if s[0] is None {
        Some(0)
    } else {
        match first_gap(s.drop_first()) {
            None => None,
            Some(k) => Some(k + 1),
        }
    }
}

/// Slot identifier allocated by the next successful insertion.
pub open spec fn spec_alloc(s: Seq<Option<(u16, u16)>>) -> int {
    match first_gap(s) {
        Some(k) => k,
        None => s.len() as int,
    }
}

pub struct Page {
    pub page_id: u16,
    pub slots: Vec<Option<(u16, u16)>>,
    pub data: Vec<u8>,
    pub num_live: u16,
    pub packed_end: u16,
    pub furthest: Option<u16>,
}

impl Page {
    /// Identifier of this page.
    pub open spec fn id(self) -> u16 {
        self.page_id
    }

    /// Count of live slots.
    pub open spec fn num_slots(self) -> nat {
        self.num_live as nat
    }

    /// One past the last byte of live record data.
    pub open spec fn packed(self) -> int {
        self.packed_end as int
    }

    /// Directory view.
    pub open spec fn dir(self) -> Seq<Option<(u16, u16)>> {
        self.slots@
    }

    /// The full data region.
    pub open spec fn mem(self) -> Seq<u8> {
        self.data@
    }

    /// The furthest-slot field: the slot whose record ends last.
    pub open spec fn furthest_of(self) -> Option<u16> {
        self.furthest
    }

    /// Bytes of the record held by live slot `s`.
    pub open spec fn rec_bytes(self, s: int) -> Seq<u8> {
        self.mem().subrange(slot_off(self.dir(), s), slot_end(self.dir(), s))
    }

    /// The observable content: each live slot mapped to its record bytes.
    pub open spec fn slot_map(self) -> Map<u16, Seq<u8>> {
        Map::new(|s: u16| live(self.dir(), s as int), |s: u16| self.rec_bytes(s as int))
    }

    /// Size of the header once serialized.
    pub open spec fn header_size(self) -> int {
        HEADER_FIXED + HEADER_PER_SLOT * self.num_slots() as int
    }

    /// Free contiguous space between the packed records and the header.
    pub open spec fn free_space(self) -> int {
        PAGE_SIZE - self.header_size() - self.packed()
    }

    /// `ord` witnesses the layout of this page and ends at `packed_end`.
    pub open spec fn chain(self, ord: Seq<u16>) -> bool {
        &&& chain_ok(self.dir(), ord)
        &&& (if ord.len() == 0 {
            self.packed() == 0
        } else {
            slot_end(self.dir(), ord.last() as int) == self.packed()
        })
    }

    /// Well-formedness: the invariant every public operation preserves.
    pub open spec fn wf(self) -> bool {
        &&& self.mem().len() == PAGE_SIZE
        &&& self.dir().len() <= MAX_SLOTS
        &&& (self.dir().len() > 0 ==> self.dir().last() is Some)
        &&& self.num_slots() == count_live(self.dir())
        &&& self.packed() + self.header_size() <= PAGE_SIZE
        &&& forall|s: int| live(self.dir(), s) ==> slot_end(self.dir(), s) <= self.packed()
        &&& (match self.furthest_of() {
            None => self.num_slots() == 0,
            Some(f) => {
                &&& self.num_slots() > 0
                &&& live(self.dir(), f as int)
                &&& slot_end(self.dir(), f as int) == self.packed()
            },
        })
        &&& forall|i: int| self.packed() <= i < PAGE_SIZE ==> self.mem()[i] == 0
        &&& exists|ord: Seq<u16>| self.chain(ord)
    }

    /// Observable equality of two pages.
    pub open spec fn pg_eq(self, other: Page) -> bool {
        &&& self.id() == other.id()
        &&& self.dir() =~= other.dir()
        &&& self.mem() =~= other.mem()
        &&& self.num_slots() == other.num_slots()
        &&& self.packed() == other.packed()
        &&& self.furthest_of() == other.furthest_of()
    }

    /// Create an empty page with the given identifier.
    pub fn new(page_id: u16) -> (p: Page)
        ensures
            p.wf(),
            p.id() == page_id,
            p.num_slots() == 0,
            p.slot_map() =~= Map::<u16, Seq<u8>>::empty(),
            p.packed() == 0,
            p.dir().len() == 0,
    {
        let p = Page {
            page_id,
            slots: Vec::new(),
            data: zero_bytes(PAGE_SIZE),
            num_live: 0,
            packed_end: 0,
            furthest: None,
        };
        proof {
            assert(p.chain(Seq::<u16>::empty()));
        }
        p
    }

    /// Identifier of this page.
    pub fn get_page_id(&self) -> (r: u16)
        ensures
            r == self.id(),
    {
        self.page_id
    }

    /// The slot whose record ends last in the page, absent when empty.
    pub fn find_furthest_slot(&self) -> (r: Option<u16>)
        requires
            self.wf(),
        ensures
            r is None <==> self.num_slots() == 0,
            match r {
                None => true,
                Some(f) => live(self.dir(), f as int) && slot_end(self.dir(), f as int)
                    == self.packed(),
            },
    {
        self.furthest
    }

    /// Size in bytes of the serialized header.
    pub fn get_header_size(&self) -> (r: usize)
        requires
            self.wf(),
        ensures
            r == self.header_size(),
    {
        HEADER_FIXED + HEADER_PER_SLOT * (self.num_live as usize)
    }

    /// The single free block between the packed records and the header.
    pub fn get_largest_free_contiguous_space(&self) -> (r: usize)
        requires
            self.wf(),
        ensures
            r == self.free_space(),
    {
        PAGE_SIZE - self.get_header_size() - self.packed_end as usize
    }

    /// Lowest freed slot identifier below the current maximum, if any.
    pub fn get_first_free_space(&self) -> (r: Option<u16>)
        requires
            self.wf(),
        ensures
            r == match first_gap(self.dir()) {
                None => None::<u16>,
                Some(k) => Some(k as u16),
            },
    {
        let n = self.slots.len();
        let mut k: usize = 0;
        while k < n
            invariant
                n == self.slots@.len(),
                n <= MAX_SLOTS,
                k <= n,
                forall|j: int| 0 <= j < k ==> self.slots@[j] is Some,
            decreases n - k,
        {
            if self.slots[k].is_none() {
                proof {
                    lemma_first_gap_at(self.slots@, k as int);
                }
                return Some(k as u16);
            }
            k = k + 1;
        }
        proof {
            lemma_first_gap_none(self.slots@);
        }
        None
    }

    /// A copy of the record bytes held by the slot, absent for a dead slot.
    #[verifier::rlimit(100)]
    #[verifier::spinoff_prover]
    pub fn get_value(&self, slot_id: u16) -> (r: Option<Vec<u8>>)
        requires
            self.wf(),
        ensures
            r is Some <==> self.slot_map().dom().contains(slot_id),
            match r {
                None => true,
                Some(v) => v@ =~= self.slot_map()[slot_id],
            },
    {
        let s = slot_id as usize;
        if s >= self.slots.len() {
            return None;
        }
        match self.slots[s] {
            None => None,
            Some((o, l)) => {
                proof {
                    assert(live(self.dir(), slot_id as int));
                    assert(slot_end(self.dir(), slot_id as int) <= self.packed());
                    assert(self.header_size() >= HEADER_FIXED);
                }
                let mut out: Vec<u8> = Vec::new();
                let mut j: usize = 0;
                let off = o as usize;
                let len = l as usize;
                while j < len
                    invariant
                        self.wf(),
                        live(self.slots@, slot_id as int),
                        off == slot_off(self.slots@, slot_id as int),
                        len == slot_len(self.slots@, slot_id as int),
                        off + len <= PAGE_SIZE,
                        self.data@.len() == PAGE_SIZE,
                        j <= len,
                        out@ =~= self.data@.subrange(off as int, off + j),
                    decreases len - j,
                {
                    out.push(self.data[off + j]);
                    j = j + 1;
                }
                Some(out)
            },
        }
    }
}

impl Page {
    /// Attempt to insert a record. Returns the allocated slot identifier, or
    /// absent when the record plus its slot header does not fit into the free
    /// block; a rejected insert leaves the page untouched. The identifier is
    /// the lowest freed one below the current maximum if a hole exists, else
    /// the live count; no existing slot or its bytes move.
    #[verifier::rlimit(60)]
    pub fn add_value(&mut self, bytes: &Vec<u8>) -> (r: Option<u16>)
        requires
            old(self).wf(),
        ensures
            final(self).wf(),
            bytes@.len() + HEADER_PER_SLOT >= old(self).free_space() ==> r is None
                && final(self).pg_eq(*old(self)),
            bytes@.len() + HEADER_PER_SLOT < old(self).free_space() ==> {
                &&& r == Some(spec_alloc(old(self).dir()) as u16)
                &&& final(self).id() == old(self).id()
                &&& final(self).num_slots() == old(self).num_slots() + 1
                &&& final(self).packed() == old(self).packed() + bytes@.len()
                &&& final(self).slot_map() =~= old(self).slot_map().insert(
                    spec_alloc(old(self).dir()) as u16,
                    bytes@,
                )
                &&& final(self).free_space() == old(self).free_space() - bytes@.len()
                    - HEADER_PER_SLOT
                &&& add_shape(*old(self), *final(self), bytes@, spec_alloc(old(self).dir()) as u16)
            },
    {
        let len_b = bytes.len();
        let free = self.get_largest_free_contiguous_space();
        if len_b >= PAGE_SIZE || len_b + HEADER_PER_SLOT >= free {
            proof {
                assert(bytes@.len() + HEADER_PER_SLOT >= old(self).free_space());
            }
            return None;
        }
        let ghost old_dir = self.slots@;
        let ghost old_ord = choose|ord: Seq<u16>| old(self).chain(ord);
        let gap = self.get_first_free_space();
        let e = self.packed_end as usize;
        proof {
            assert(e + len_b + HEADER_FIXED + HEADER_PER_SLOT * (self.num_slots() as int)
                + HEADER_PER_SLOT < PAGE_SIZE);
        }
        // Copy the record to the start of the free block.
        let mut j: usize = 0;
        while j < len_b
            invariant
                j <= len_b,
                e + len_b <= PAGE_SIZE,
                len_b == bytes@.len(),
                self.data@.len() == PAGE_SIZE,
                self.slots == old(self).slots,
                self.page_id == old(self).page_id,
                self.num_live == old(self).num_live,
                self.packed_end == old(self).packed_end,
                self.furthest == old(self).furthest,
                forall|i: int|
                    0 <= i < PAGE_SIZE ==> self.data@[i] == if e <= i < e + j {
                        bytes@[i - e]
                    } else {
                        old(self).data@[i]
                    },
            decreases len_b - j,
        {
            self.data.set(e + j, bytes[j]);
            j = j + 1;
        }
        // Fill a freed slot if one exists, else append a fresh one.
        let entry = Some((self.packed_end, len_b as u16));
        let id: u16;
        proof {
            lemma_first_gap_char(old_dir);
        }
        match gap {
            Some(k16) => {
                id = k16;
                self.slots.set(k16 as usize, entry);
                proof {
                    lemma_count_live_fill(old_dir, k16 as int, (self.packed_end, len_b as u16));
                }
            },
            None => {
                proof {
                    lemma_count_live_all_some(old_dir);
                }
                id = self.num_live;
                self.slots.push(entry);
                proof {
                    lemma_count_live_push(old_dir, (self.packed_end, len_b as u16));
                }
            },
        }
        self.num_live = self.num_live + 1;
        self.packed_end = self.packed_end + len_b as u16;
        self.furthest = Some(id);
        proof {
            assert(add_shape(*old(self), *self, bytes@, id));
            lemma_add_wf(*old(self), *self, bytes@, id, old_ord);
            lemma_add_map(*old(self), *self, bytes@, id);
        }
        Some(id)
    }

    /// Number of directory entries, live or dead.
    pub fn slot_directory_len(&self) -> (r: usize)
        ensures
            r == self.dir().len(),
    {
        self.slots.len()
    }

    /// Whether directory position `t` holds a live slot.
    pub fn slot_is_live(&self, t: usize) -> (r: bool)
        requires
            t < self.dir().len(),
        ensures
            r == (self.dir()[t as int] is Some),
    {
        self.slots[t].is_some()
    }

    /// An observably equal copy of this page.
    pub fn duplicate(&self) -> (r: Page)
        requires
            self.wf(),
        ensures
            r.wf(),
            r.pg_eq(*self),
    {
        let mut slots2: Vec<Option<(u16, u16)>> = Vec::new();
        let mut t: usize = 0;
        while t < self.slots.len()
            invariant
                t <= self.slots@.len(),
                slots2@ =~= self.slots@.subrange(0, t as int),
            decreases self.slots@.len() - t,
        {
            slots2.push(self.slots[t]);
            t = t + 1;
        }
        let r = Page {
            page_id: self.page_id,
            slots: slots2,
            data: copy_bytes(&self.data),
            num_live: self.num_live,
            packed_end: self.packed_end,
            furthest: self.furthest,
        };
        proof {
            assert(r.dir() =~= self.dir());
            assert(r.mem() =~= self.mem());
            let ord = choose|ord: Seq<u16>| self.chain(ord);
            assert(r.chain(ord));
        }
        r
    }

    /// All records of the page in ascending slot order, as fresh vectors.
    pub fn records(&self) -> (r: Vec<Vec<u8>>)
        requires
            self.wf(),
        ensures
            views_of(r@) =~= page_recs(*self),
    {
        let mut out: Vec<Vec<u8>> = Vec::new();
        let n = self.slots.len();
        let mut t: usize = 0;
        while t < n
            invariant
                self.wf(),
                n == self.dir().len(),
                t <= n,
                page_recs(*self) =~= views_of(out@) + recs_from(*self, t as int),
            decreases n - t,
        {
            let ghost before = out@;
            if self.slot_is_live(t) {
                let v = match self.get_value(t as u16) {
                    Some(v) => v,
                    None => {
                        proof {
                            assert(false);
                        }
                        Vec::new()
                    },
                };
                out.push(v);
                proof {
                    assert(views_of(out@) =~= views_of(before).push(out@.last()@));
                }
            }
            t = t + 1;
        }
        out
    }

    /// Turn the page into its record iterator.
    pub fn into_iter(self) -> (it: PageIter)
        requires
            self.wf(),
        ensures
            it.inv(),
            it.remaining() =~= page_recs(self),
    {
        PageIter { page: self, pos: 0 }
    }

    /// Compacts the deleted record out of the data region and directory;
    /// counters and the furthest slot are untouched.
    #[verifier::rlimit(100)]
    #[verifier::spinoff_prover]
    fn compact_remove(&mut self, slot_id: u16) -> (r: (u16, u16))
        requires
            old(self).wf(),
            live(old(self).dir(), slot_id as int),
        ensures
            ({
                let o = slot_off(old(self).dir(), slot_id as int);
                let l = slot_len(old(self).dir(), slot_id as int);
                let adj = deleted_dir(old(self).dir(), slot_id as int, o, l);
                &&& r.0 as int == o
                &&& r.1 as int == l
                &&& final(self).id() == old(self).id()
                &&& final(self).num_slots() == old(self).num_slots()
                &&& final(self).packed() == old(self).packed()
                &&& final(self).furthest_of() == old(self).furthest_of()
                &&& final(self).mem().len() == PAGE_SIZE
                &&& forall|i: int|
                    0 <= i < PAGE_SIZE ==> final(self).mem()[i] == (if o <= i < old(self).packed()
                        - l {
                        old(self).mem()[i + l]
                    } else if old(self).packed() - l <= i < old(self).packed() {
                        0
                    } else {
                        old(self).mem()[i]
                    })
                &&& final(self).dir() =~= adj.subrange(0, final(self).dir().len() as int)
                &&& final(self).dir().len() <= old(self).dir().len()
                &&& forall|j: int|
                    final(self).dir().len() <= j < old(self).dir().len() ==> adj[j] is None
                &&& (final(self).dir().len() > 0 ==> final(self).dir().last() is Some)
            }),
    {
        let su = slot_id as usize;
        let (o16, l16) = match self.slots[su] {
            None => {
                proof {
                    assert(false);
                }
                (0u16, 0u16)
            },
            Some(p) => p,
        };
        let ghost old_dir = self.slots@;
        let ghost old_ord = choose|ord: Seq<u16>| old(self).chain(ord);
        let o = o16 as usize;
        let l = l16 as usize;
        let e = self.packed_end as usize;
        proof {
            assert(slot_end(old_dir, slot_id as int) <= old(self).packed());
            assert(old(self).header_size() >= HEADER_FIXED);
            lemma_delete_sides(old_dir, old_ord, slot_id as int);
        }
        // Shift the bytes above the deleted record down by its length.
        let mut x = o;
        while x + l < e
            invariant
                o + l <= e <= PAGE_SIZE,
                o <= x,
                x <= e - l,
                self.data@.len() == PAGE_SIZE,
                self.slots == old(self).slots,
                self.page_id == old(self).page_id,
                self.num_live == old(self).num_live,
                self.packed_end == old(self).packed_end,
                self.furthest == old(self).furthest,
                forall|i: int|
                    0 <= i < PAGE_SIZE ==> self.data@[i] == (if o <= i < x {
                        old(self).mem()[i + l]
                    } else {
                        old(self).mem()[i]
                    }),
            decreases e - l - x,
        {
            let b = self.data[x + l];
            self.data.set(x, b);
            x = x + 1;
        }
        // Zero the vacated tail of the data region.
        let mut y = e - l;
        while y < e
            invariant
                o + l <= e <= PAGE_SIZE,
                e - l <= y <= e,
                self.data@.len() == PAGE_SIZE,
                self.slots == old(self).slots,
                self.page_id == old(self).page_id,
                self.num_live == old(self).num_live,
                self.packed_end == old(self).packed_end,
                self.furthest == old(self).furthest,
                forall|i: int|
                    0 <= i < PAGE_SIZE ==> self.data@[i] == (if o <= i < e - l {
                        old(self).mem()[i + l]
                    } else if e - l <= i < y {
                        0
                    } else {
                        old(self).mem()[i]
                    }),
            decreases e - y,
        {
            self.data.set(y, 0);
            y = y + 1;
        }
        let ghost shifted = self.data@;
        // Drop the slot and pull every later record's offset down.
        self.slots.set(su, None);
        let n = self.slots.len();
        let mut k: usize = 0;
        while k < n
            invariant
                n == self.slots@.len(),
                n == old_dir.len(),
                n <= MAX_SLOTS,
                k <= n,
                su == slot_id as usize,
                su < n,
                o == o16 as usize,
                l == l16 as usize,
                old_dir[su as int] == Some((o16, l16)),
                forall|t: int|
                    live(old_dir, t) && t != su as int ==> slot_end(old_dir, t) <= o as int
                        || slot_off(old_dir, t) >= o + l,
                forall|j: int|
                    0 <= j < k ==> self.slots@[j] == deleted_dir(
                        old_dir,
                        su as int,
                        o as int,
                        l as int,
                    )[j],
                forall|j: int| k <= j < n ==> self.slots@[j] == old_dir.update(su as int, None)[j],
                self.data@ =~= shifted,
                self.page_id == old(self).page_id,
                self.num_live == old(self).num_live,
                self.packed_end == old(self).packed_end,
                self.furthest == old(self).furthest,
            decreases n - k,
        {
            match self.slots[k] {
                Some((ok_, lk)) => {
                    if ok_ > o16 {
                        proof {
                            assert(self.slots@[k as int] == old_dir.update(su as int, None)[k as int]);
                            assert(live(old_dir, k as int) && k as int != su as int);
                            assert(slot_off(old_dir, k as int) >= o + l);
                        }
                        self.slots.set(k, Some((ok_ - l16, lk)));
                    }
                },
                None => {},
            }
            k = k + 1;
        }
        proof {
            assert(self.slots@ =~= deleted_dir(old_dir, su as int, o as int, l as int));
        }
        let ghost adj = deleted_dir(old_dir, su as int, o as int, l as int);
        // Cut the dead tail so the directory again ends in a live slot.
        while self.slots.len() > 0 && self.slots[self.slots.len() - 1].is_none()
            invariant
                self.slots@.len() <= adj.len(),
                adj.len() == old_dir.len(),
                self.slots@ =~= adj.subrange(0, self.slots@.len() as int),
                forall|j: int| self.slots@.len() <= j < adj.len() ==> adj[j] is None,
                self.data@ =~= shifted,
                self.page_id == old(self).page_id,
                self.num_live == old(self).num_live,
                self.packed_end == old(self).packed_end,
                self.furthest == old(self).furthest,
            decreases self.slots.len(),
        {
            self.slots.pop();
            proof {
                assert(self.slots@ =~= adj.subrange(0, self.slots@.len() as int));
            }
        }
        (o16, l16)
    }

    /// Remove the record of a slot, compacting the data region: every byte
    /// above the deleted record shifts down by its length, and every later
    /// slot's offset drops by the same amount. Absent when the slot is
    /// unknown, and then the page is untouched.
    #[verifier::rlimit(100)]
    pub fn delete_value(&mut self, slot_id: u16) -> (r: Option<()>)
        requires
            old(self).wf(),
        ensures
            final(self).wf(),
            !old(self).slot_map().dom().contains(slot_id) ==> r is None
                && final(self).pg_eq(*old(self)),
            old(self).slot_map().dom().contains(slot_id) ==> {
                &&& r == Some(())
                &&& final(self).id() == old(self).id()
                &&& final(self).num_slots() == old(self).num_slots() - 1
                &&& final(self).packed() == old(self).packed() - slot_len(
                    old(self).dir(),
                    slot_id as int,
                )
                &&& final(self).slot_map() =~= old(self).slot_map().remove(slot_id)
                &&& final(self).free_space() == old(self).free_space() + slot_len(
                    old(self).dir(),
                    slot_id as int,
                ) + HEADER_PER_SLOT
                &&& delete_shape(*old(self), *final(self), slot_id)
            },
    {
        let su = slot_id as usize;
        if su >= self.slots.len() {
            return None;
        }
        if self.slots[su].is_none() {
            return None;
        }
        let ghost old_dir = self.slots@;
        let ghost old_ord = choose|ord: Seq<u16>| old(self).chain(ord);
        let e = self.packed_end as usize;
        let (o16, l16) = self.compact_remove(slot_id);
        let l = l16 as usize;
        let ghost cut = self.slots@.len() as int;
        proof {
            lemma_count_live_pos(old_dir, slot_id as int);
            lemma_delete_chain(old_dir, old_ord, slot_id as int, self.slots@, cut, e as int);
        }
        self.num_live = self.num_live - 1;
        self.packed_end = self.packed_end - l16;
        // Recompute the furthest slot: some survivor ends at the new packed
        // end whenever any survives.
        if self.num_live == 0 {
            self.furthest = None;
        } else {
            let m = self.slots.len();
            let target = self.packed_end as usize;
            let mut kk: usize = 0;
            let mut found: Option<u16> = None;
            while kk < m
                invariant
                    m == self.slots@.len(),
                    m <= MAX_SLOTS,
                    kk <= m,
                    target == self.packed_end as usize,
                    match found {
                        Some(fv) => live(self.slots@, fv as int) && slot_end(self.slots@, fv as int)
                            == target as int,
                        None => forall|j: int|
                            0 <= j < kk ==> !(live(self.slots@, j) && slot_end(self.slots@, j)
                                == target as int),
                    },
                decreases m - kk,
            {
                match self.slots[kk] {
                    Some((oj, lj)) => {
                        if oj as usize + lj as usize == target {
                            found = Some(kk as u16);
                        }
                    },
                    None => {},
                }
                kk = kk + 1;
            }
            proof {
                let ord2 = choose|ord2: Seq<u16>|
                    chain_ok(self.slots@, ord2) && (if ord2.len() == 0 {
                        e - l == 0
                    } else {
                        slot_end(self.slots@, ord2.last() as int) == e - l
                    });
                assert(ord2.len() == count_live(self.slots@));
                assert(ord2.len() > 0);
                assert(live(self.slots@, ord2.last() as int));
                assert(found is Some);
            }
            self.furthest = found;
        }
        proof {
            assert(delete_shape(*old(self), *self, slot_id));
            lemma_delete_finalize(*old(self), *self, slot_id);
        }
        Some(())
    }
}


/// Premises shared by the insertion lemmas: how the page after a successful
/// insertion relates to the page before it.
pub open spec fn add_shape(old_p: Page, new_p: Page, bytes: Seq<u8>, id: u16) -> bool {
    &&& new_p.id() == old_p.id()
    &&& new_p.num_slots() == old_p.num_slots() + 1
    &&& new_p.packed() == old_p.packed() + bytes.len()
    &&& new_p.furthest_of() == Some(id)
    &&& new_p.mem().len() == PAGE_SIZE
    &&& forall|i: int|
        0 <= i < PAGE_SIZE ==> new_p.mem()[i] == (if old_p.packed() <= i < old_p.packed()
            + bytes.len() {
            bytes[i - old_p.packed()]
        } else {
            old_p.mem()[i]
        })
    &&& id as int == spec_alloc(old_p.dir())
    &&& match first_gap(old_p.dir()) {
        Some(k) => new_p.dir() =~= old_p.dir().update(
            k,
            Some((old_p.packed() as u16, bytes.len() as u16)),
        ),
        None => new_p.dir() =~= old_p.dir().push(
            Some((old_p.packed() as u16, bytes.len() as u16)),
        ),
    }
}

/// After a successful insertion the page is well formed again.
#[verifier::rlimit(100)]
proof fn lemma_add_wf(old_p: Page, new_p: Page, bytes: Seq<u8>, id: u16, old_ord: Seq<u16>)
    requires
        old_p.wf(),
        old_p.chain(old_ord),
        bytes.len() + HEADER_PER_SLOT < old_p.free_space(),
        add_shape(old_p, new_p, bytes, id),
    ensures
        new_p.wf(),
        new_p.free_space() == old_p.free_space() - bytes.len() - HEADER_PER_SLOT,
{
    let old_dir = old_p.dir();
    let dir = new_p.dir();
    lemma_first_gap_char(old_dir);
    match first_gap(old_dir) {
        Some(k) => {
            lemma_count_live_fill(old_dir, k, (old_p.packed() as u16, bytes.len() as u16));
            assert(dir.last() is Some);
        },
        None => {
            lemma_count_live_all_some(old_dir);
            lemma_count_live_push(old_dir, (old_p.packed() as u16, bytes.len() as u16));
        },
    }
    assert(!live(old_dir, id as int));
    let ord = old_ord.push(id);
    assert(!old_ord.contains(id));
    assert forall|i: int| 0 <= i < ord.len() implies live(dir, #[trigger] ord[i] as int) by {
        if i < old_ord.len() {
            assert(live(old_dir, old_ord[i] as int));
        }
    }
    assert forall|s: int| live(dir, s) implies ord.contains(s as u16) by {
        if s != id {
            assert(live(old_dir, s));
            assert(old_ord.contains(s as u16));
            let w = choose|w: int| 0 <= w < old_ord.len() && old_ord[w] == s as u16;
            assert(ord[w] == s as u16);
        } else {
            assert(ord[ord.len() - 1] == s as u16);
        }
    }
    assert forall|i: int|
        1 <= i < ord.len() implies slot_off(dir, #[trigger] ord[i] as int) == slot_end(
        dir,
        ord[i - 1] as int,
    ) by {
        if i < old_ord.len() {
            assert(old_ord[i] == ord[i] && old_ord[i - 1] == ord[i - 1]);
            assert(slot_off(old_dir, old_ord[i] as int) == slot_end(old_dir, old_ord[i - 1] as int));
        } else {
            assert(ord[i] == id);
            assert(slot_off(dir, id as int) == old_p.packed());
            assert(slot_end(dir, ord[i - 1] as int) == slot_end(old_dir, old_ord[i - 1] as int));
        }
    }
    assert(new_p.chain(ord));
    assert forall|s: int| live(dir, s) implies slot_end(dir, s) <= new_p.packed() by {
        if s != id {
            assert(live(old_dir, s));
            assert(slot_end(old_dir, s) <= old_p.packed());
        }
    }
    assert(new_p.wf());
}

/// After a successful insertion the observable content is the old one
/// extended by the new record under the allocated identifier.
#[verifier::rlimit(100)]
proof fn lemma_add_map(old_p: Page, new_p: Page, bytes: Seq<u8>, id: u16)
    requires
        old_p.wf(),
        bytes.len() + HEADER_PER_SLOT < old_p.free_space(),
        add_shape(old_p, new_p, bytes, id),
    ensures
        new_p.slot_map() =~= old_p.slot_map().insert(id, bytes),
{
    let old_dir = old_p.dir();
    let dir = new_p.dir();
    lemma_first_gap_char(old_dir);
    assert(!live(old_dir, id as int));
    assert(live(dir, id as int));
    assert forall|s: int| live(old_dir, s) implies s != id && live(dir, s) && slot_off(dir, s)
        == slot_off(old_dir, s) && slot_len(dir, s) == slot_len(old_dir, s) by {}
    assert forall|s: int| live(dir, s) && s != id implies live(old_dir, s) by {}
    assert forall|s: u16| live(old_dir, s as int) implies new_p.rec_bytes(s as int) =~= old_p.rec_bytes(
        s as int,
    ) by {
        assert(slot_end(old_dir, s as int) <= old_p.packed());
    }
    assert(slot_off(dir, id as int) == old_p.packed() && slot_len(dir, id as int) == bytes.len());
    assert(new_p.rec_bytes(id as int) =~= bytes);
    assert(new_p.slot_map() =~= old_p.slot_map().insert(id, bytes));
}

/// The directory after deleting slot `s`, whose record occupied
/// `[o, o + l)`: the slot dies and every record that sat above the deleted
/// one moves down by `l` bytes.
pub open spec fn deleted_dir(dir: Seq<Option<(u16, u16)>>, s: int, o: int, l: int) -> Seq<
    Option<(u16, u16)>,
> {
    Seq::new(
        dir.len(),
        |j: int|
            if j == s {
                None
            } else {
                match dir[j] {
                    None => None,
                    Some(p) => if p.0 > o {
                        Some(((p.0 - l) as u16, p.1))
                    } else {
                        Some(p)
                    },
                }
            },
    )
}

/// Any live slot holds the count above zero.
pub proof fn lemma_count_live_pos(s: Seq<Option<(u16, u16)>>, j: int)
    requires
        live(s, j),
    ensures
        count_live(s) >= 1,
    decreases s.len(),
{
    if j == s.len() - 1 {
    } else {
        lemma_count_live_pos(s.drop_last(), j);
    }
}

/// Directories that are live at the same positions have the same live count.
pub proof fn lemma_count_live_congruent(a: Seq<Option<(u16, u16)>>, b: Seq<Option<(u16, u16)>>)
    requires
        a.len() == b.len(),
        forall|j: int| 0 <= j < a.len() ==> (a[j] is Some <==> b[j] is Some),
    ensures
        count_live(a) == count_live(b),
    decreases a.len(),
{
    if a.len() > 0 {
        lemma_count_live_congruent(a.drop_last(), b.drop_last());
    }
}

/// Cutting a dead tail off a directory keeps the live count.
pub proof fn lemma_count_live_dead_tail(s: Seq<Option<(u16, u16)>>, cut: int)
    requires
        0 <= cut <= s.len(),
        forall|j: int| cut <= j < s.len() ==> s[j] is None,
    ensures
        count_live(s.subrange(0, cut)) == count_live(s),
    decreases s.len() - cut,
{
    if cut == s.len() {
        assert(s.subrange(0, cut) =~= s);
    } else {
        assert(s.drop_last() =~= s.subrange(0, s.len() - 1));
        lemma_count_live_dead_tail(s.subrange(0, s.len() - 1), cut);
        assert(s.subrange(0, s.len() - 1).subrange(0, cut) =~= s.subrange(0, cut));
    }
}

/// Around a deleted record every other record lies wholly below it or wholly
/// above it.
pub proof fn lemma_delete_sides(dir: Seq<Option<(u16, u16)>>, ord: Seq<u16>, s: int)
    requires
        dir.len() <= 0x10000,
        chain_ok(dir, ord),
        live(dir, s),
    ensures
        forall|t: int|
            live(dir, t) && t != s ==> slot_end(dir, t) <= slot_off(dir, s) || slot_off(dir, t)
                >= slot_end(dir, s),
{
    assert(ord.contains(s as u16));
    let kd = choose|kd: int| 0 <= kd < ord.len() && ord[kd] == s as u16;
    assert forall|t: int|
        live(dir, t) && t != s implies slot_end(dir, t) <= slot_off(dir, s) || slot_off(dir, t)
        >= slot_end(dir, s) by {
        assert(ord.contains(t as u16));
        let w = choose|w: int| 0 <= w < ord.len() && ord[w] == t as u16;
        if w < kd {
            lemma_chain_mono(dir, ord, w, kd);
        } else {
            assert(w != kd);
            lemma_chain_mono(dir, ord, kd, w);
        }
    }
}

/// How each surviving chain position relates to the old directory after the
/// delete of the slot at chain position `kd`.
pub open spec fn delete_offsets_ok(
    old_dir: Seq<Option<(u16, u16)>>,
    dir_t: Seq<Option<(u16, u16)>>,
    ord2: Seq<u16>,
    kd: int,
    l: int,
) -> bool {
    forall|i: int|
        0 <= i < ord2.len() ==> live(dir_t, #[trigger] ord2[i] as int) && (if i < kd {
            slot_off(dir_t, ord2[i] as int) == slot_off(old_dir, ord2[i] as int) && slot_len(
                dir_t,
                ord2[i] as int,
            ) == slot_len(old_dir, ord2[i] as int)
        } else {
            slot_off(dir_t, ord2[i] as int) == slot_off(old_dir, ord2[i] as int) - l && slot_len(
                dir_t,
                ord2[i] as int,
            ) == slot_len(old_dir, ord2[i] as int)
        })
}

/// Liveness and counts after a delete: the deleted slot dies, the others
/// survive with the count one lower.
#[verifier::rlimit(60)]
proof fn lemma_delete_live(
    old_dir: Seq<Option<(u16, u16)>>,
    s: int,
    dir_t: Seq<Option<(u16, u16)>>,
    cut: int,
)
    requires
        live(old_dir, s),
        0 <= cut <= old_dir.len(),
        dir_t =~= deleted_dir(old_dir, s, slot_off(old_dir, s), slot_len(old_dir, s)).subrange(
            0,
            cut,
        ),
        forall|j: int|
            cut <= j < old_dir.len() ==> deleted_dir(
                old_dir,
                s,
                slot_off(old_dir, s),
                slot_len(old_dir, s),
            )[j] is None,
    ensures
        count_live(dir_t) == count_live(old_dir) - 1,
        forall|t: int| live(dir_t, t) <==> (live(old_dir, t) && t != s),
{
    let o = slot_off(old_dir, s);
    let l = slot_len(old_dir, s);
    let adj = deleted_dir(old_dir, s, o, l);
    lemma_count_live_clear(old_dir, s);
    lemma_count_live_congruent(old_dir.update(s, None), adj);
    lemma_count_live_dead_tail(adj, cut);
    assert forall|t: int| live(old_dir, t) && t != s implies live(dir_t, t) by {
        assert(adj[t] is Some);
        assert(t < cut);
    }
}

/// The surviving slots, at their old chain positions, carry their old
/// entries, shifted down by `l` for those above the deleted record.
#[verifier::rlimit(100)]
proof fn lemma_delete_ord2(
    old_dir: Seq<Option<(u16, u16)>>,
    ord: Seq<u16>,
    s: int,
    dir_t: Seq<Option<(u16, u16)>>,
    kd: int,
    cut: int,
)
    requires
        old_dir.len() <= 0x10000,
        chain_ok(old_dir, ord),
        live(old_dir, s),
        0 <= kd < ord.len(),
        ord[kd] == s as u16,
        forall|t: int| live(dir_t, t) <==> (live(old_dir, t) && t != s),
        0 <= cut <= old_dir.len(),
        dir_t =~= deleted_dir(old_dir, s, slot_off(old_dir, s), slot_len(old_dir, s)).subrange(
            0,
            cut,
        ),
    ensures
        delete_offsets_ok(old_dir, dir_t, ord.remove(kd), kd, slot_len(old_dir, s)),
{
    let o = slot_off(old_dir, s);
    let l = slot_len(old_dir, s);
    let ord2 = ord.remove(kd);
    assert forall|i: int| 0 <= i < ord2.len() implies live(dir_t, #[trigger] ord2[i] as int) by {
        if i < kd {
            assert(ord2[i] == ord[i]);
            assert(live(old_dir, ord[i] as int));
            if ord[i] as int == s {
                assert(ord[i] == ord[kd]);
            }
        } else {
            assert(ord2[i] == ord[i + 1]);
            assert(live(old_dir, ord[i + 1] as int));
            if ord[i + 1] as int == s {
                assert(ord[i + 1] == ord[kd]);
            }
        }
    }
    assert forall|i: int| 0 <= i < ord2.len() implies (if i < kd {
        slot_off(dir_t, #[trigger] ord2[i] as int) == slot_off(old_dir, ord2[i] as int) && slot_len(
            dir_t,
            ord2[i] as int,
        ) == slot_len(old_dir, ord2[i] as int)
    } else {
        slot_off(dir_t, ord2[i] as int) == slot_off(old_dir, ord2[i] as int) - l && slot_len(
            dir_t,
            ord2[i] as int,
        ) == slot_len(old_dir, ord2[i] as int)
    }) by {
        let t = ord2[i] as int;
        assert(live(dir_t, t));
        assert(t < cut);
        assert(dir_t[t] == deleted_dir(old_dir, s, o, l)[t]);
        if i < kd {
            assert(ord2[i] == ord[i]);
            lemma_chain_mono(old_dir, ord, i, kd);
            assert(slot_end(old_dir, t) <= o);
            assert(!(slot_off(old_dir, t) > o));
        } else {
            assert(ord2[i] == ord[i + 1]);
            lemma_chain_mono(old_dir, ord, kd, i + 1);
            assert(slot_off(old_dir, t) >= o + l);
            if l == 0 {
                assert(slot_off(dir_t, t) == slot_off(old_dir, t) - l);
            } else {
                assert(slot_off(old_dir, t) > o);
                assert(0 <= slot_off(old_dir, t) - l < 0x10000);
            }
        }
    }
}

/// With the offsets in place, the survivors form a gapless chain again.
#[verifier::rlimit(100)]
proof fn lemma_delete_links(
    old_dir: Seq<Option<(u16, u16)>>,
    ord: Seq<u16>,
    s: int,
    dir_t: Seq<Option<(u16, u16)>>,
    kd: int,
)
    requires
        old_dir.len() <= 0x10000,
        chain_ok(old_dir, ord),
        live(old_dir, s),
        0 <= kd < ord.len(),
        ord[kd] == s as u16,
        count_live(dir_t) == count_live(old_dir) - 1,
        forall|t: int| live(dir_t, t) <==> (live(old_dir, t) && t != s),
        delete_offsets_ok(old_dir, dir_t, ord.remove(kd), kd, slot_len(old_dir, s)),
    ensures
        chain_ok(dir_t, ord.remove(kd)),
{
    let o = slot_off(old_dir, s);
    let l = slot_len(old_dir, s);
    let ord2 = ord.remove(kd);
    assert forall|t: int| live(dir_t, t) implies ord2.contains(t as u16) by {
        assert(live(old_dir, t) && t != s);
        assert(ord.contains(t as u16));
        let w = choose|w: int| 0 <= w < ord.len() && ord[w] == t as u16;
        assert(w != kd);
        if w < kd {
            assert(ord2[w] == t as u16);
        } else {
            assert(ord2[w - 1] == t as u16);
        }
    }
    assert forall|i: int|
        1 <= i < ord2.len() implies slot_off(dir_t, #[trigger] ord2[i] as int) == slot_end(
        dir_t,
        ord2[i - 1] as int,
    ) by {
        if i < kd {
            assert(ord2[i] == ord[i] && ord2[i - 1] == ord[i - 1]);
        } else if i == kd {
            assert(ord2[i] == ord[i + 1] && ord2[i - 1] == ord[i - 1]);
            assert(slot_off(old_dir, ord[i + 1] as int) == slot_end(old_dir, ord[i] as int));
            assert(slot_off(old_dir, ord[i] as int) == slot_end(old_dir, ord[i - 1] as int));
        } else {
            assert(ord2[i] == ord[i + 1] && ord2[i - 1] == ord[i]);
            assert(slot_off(old_dir, ord[i + 1] as int) == slot_end(old_dir, ord[i] as int));
        }
    }
    if ord2.len() > 0 {
        if kd == 0 {
            assert(ord2[0] == ord[1]);
            assert(slot_off(old_dir, ord[1] as int) == slot_end(old_dir, ord[0] as int));
            assert(slot_off(old_dir, ord[0] as int) == 0);
        } else {
            assert(ord2[0] == ord[0]);
        }
    }
    assert(chain_ok(dir_t, ord2));
}

/// After a delete the remaining slots again form a gapless layout chain that
/// ends `l` bytes lower.
#[verifier::rlimit(100)]
pub proof fn lemma_delete_chain(
    old_dir: Seq<Option<(u16, u16)>>,
    ord: Seq<u16>,
    s: int,
    dir_t: Seq<Option<(u16, u16)>>,
    cut: int,
    e: int,
)
    requires
        old_dir.len() <= 0x10000,
        chain_ok(old_dir, ord),
        live(old_dir, s),
        forall|t: int| live(old_dir, t) ==> slot_end(old_dir, t) <= e,
        (if ord.len() == 0 {
            e == 0
        } else {
            slot_end(old_dir, ord.last() as int) == e
        }),
        0 <= cut <= old_dir.len(),
        dir_t =~= deleted_dir(old_dir, s, slot_off(old_dir, s), slot_len(old_dir, s)).subrange(
            0,
            cut,
        ),
        forall|j: int|
            cut <= j < old_dir.len() ==> deleted_dir(
                old_dir,
                s,
                slot_off(old_dir, s),
                slot_len(old_dir, s),
            )[j] is None,
    ensures
        count_live(dir_t) == count_live(old_dir) - 1,
        forall|t: int| live(dir_t, t) <==> (live(old_dir, t) && t != s),
        forall|t: int| live(dir_t, t) ==> slot_end(dir_t, t) <= e - slot_len(old_dir, s),
        exists|ord2: Seq<u16>|
            chain_ok(dir_t, ord2) && (if ord2.len() == 0 {
                e - slot_len(old_dir, s) == 0
            } else {
                slot_end(dir_t, ord2.last() as int) == e - slot_len(old_dir, s)
            }),
{
    let o = slot_off(old_dir, s);
    let l = slot_len(old_dir, s);
    lemma_delete_live(old_dir, s, dir_t, cut);
    assert(ord.contains(s as u16));
    let kd = choose|kd: int| 0 <= kd < ord.len() && ord[kd] == s as u16;
    lemma_delete_ord2(old_dir, ord, s, dir_t, kd, cut);
    lemma_delete_links(old_dir, ord, s, dir_t, kd);
    let ord2 = ord.remove(kd);
    if ord2.len() == 0 {
        assert(ord.len() == 1);
        assert(ord[0] == s as u16);
        assert(slot_end(old_dir, s) == e);
        assert(slot_off(old_dir, s) == 0);
        assert forall|t: int| live(dir_t, t) implies slot_end(dir_t, t) <= e - l by {
            assert(ord2.contains(t as u16));
        }
        assert(chain_ok(dir_t, ord2) && (if ord2.len() == 0 {
            e - slot_len(old_dir, s) == 0
        } else {
            slot_end(dir_t, ord2.last() as int) == e - slot_len(old_dir, s)
        }));
    } else {
        lemma_delete_chain_end(old_dir, ord, s, dir_t, ord2, kd, e);
        assert forall|t: int| live(dir_t, t) implies slot_end(dir_t, t) <= e - l by {
            assert(ord2.contains(t as u16));
            let w = choose|w: int| 0 <= w < ord2.len() && ord2[w] == t as u16;
            lemma_chain_mono_le(dir_t, ord2, w, ord2.len() - 1);
        }
        assert(chain_ok(dir_t, ord2) && (if ord2.len() == 0 {
            e - slot_len(old_dir, s) == 0
        } else {
            slot_end(dir_t, ord2.last() as int) == e - slot_len(old_dir, s)
        }));
    }
}

/// The last slot of the post-delete chain ends exactly at the new packed end.
proof fn lemma_delete_chain_end(
    old_dir: Seq<Option<(u16, u16)>>,
    ord: Seq<u16>,
    s: int,
    dir_t: Seq<Option<(u16, u16)>>,
    ord2: Seq<u16>,
    kd: int,
    e: int,
)
    requires
        old_dir.len() <= 0x10000,
        chain_ok(old_dir, ord),
        live(old_dir, s),
        0 <= kd < ord.len(),
        ord[kd] == s as u16,
        ord2 == ord.remove(kd),
        ord2.len() > 0,
        ord.len() > 0 ==> slot_end(old_dir, ord.last() as int) == e,
        delete_offsets_ok(old_dir, dir_t, ord2, kd, slot_len(old_dir, s)),
    ensures
        slot_end(dir_t, ord2.last() as int) == e - slot_len(old_dir, s),
{
    let l = slot_len(old_dir, s);
    if kd == ord.len() - 1 {
        // The deleted slot was furthest; the one before it now ends last.
        assert(ord2.last() == ord[ord.len() - 2]);
        assert(slot_off(old_dir, ord[ord.len() - 1] as int) == slot_end(
            old_dir,
            ord[ord.len() - 2] as int,
        ));
        assert(slot_end(old_dir, s) == e);
        assert(slot_end(dir_t, ord2.last() as int) == slot_end(old_dir, ord[ord.len() - 2] as int));
    } else {
        assert(ord2.last() == ord.last());
        assert(ord2.len() - 1 >= kd);
    }
}

/// Like `lemma_chain_mono`, allowing equal indices.
pub proof fn lemma_chain_mono_le(slots: Seq<Option<(u16, u16)>>, ord: Seq<u16>, i: int, j: int)
    requires
        chain_ok(slots, ord),
        0 <= i <= j < ord.len(),
    ensures
        i < j ==> slot_end(slots, ord[i] as int) <= slot_off(slots, ord[j] as int),
        slot_end(slots, ord[i] as int) <= slot_end(slots, ord[j] as int),
{
    if i < j {
        lemma_chain_mono(slots, ord, i, j);
    }
}

/// How the page after a delete of slot `s` relates to the page before it.
pub open spec fn delete_shape(old_p: Page, new_p: Page, s: u16) -> bool {
    let o = slot_off(old_p.dir(), s as int);
    let l = slot_len(old_p.dir(), s as int);
    &&& new_p.id() == old_p.id()
    &&& new_p.mem().len() == PAGE_SIZE
    &&& forall|i: int|
        0 <= i < PAGE_SIZE ==> new_p.mem()[i] == (if o <= i < old_p.packed() - l {
            old_p.mem()[i + l]
        } else if old_p.packed() - l <= i < old_p.packed() {
            0
        } else {
            old_p.mem()[i]
        })
    &&& new_p.num_slots() == old_p.num_slots() - 1
    &&& new_p.packed() == old_p.packed() - l
    &&& new_p.dir() =~= deleted_dir(old_p.dir(), s as int, o, l).subrange(
        0,
        new_p.dir().len() as int,
    )
    &&& new_p.dir().len() <= old_p.dir().len()
    &&& forall|j: int|
        new_p.dir().len() <= j < old_p.dir().len() ==> deleted_dir(old_p.dir(), s as int, o, l)[j]
            is None
    &&& (new_p.dir().len() > 0 ==> new_p.dir().last() is Some)
    &&& match new_p.furthest_of() {
        None => new_p.num_slots() == 0,
        Some(f) => live(new_p.dir(), f as int) && slot_end(new_p.dir(), f as int) == new_p.packed(),
    }
}

/// A byte window that sat wholly below or wholly above a compacted-out
/// region reads the same bytes at its (possibly shifted) position.
#[verifier::rlimit(60)]
proof fn lemma_shift_window(
    old_mem: Seq<u8>,
    new_mem: Seq<u8>,
    o: int,
    l: int,
    e: int,
    a: int,
    n: int,
)
    requires
        old_mem.len() == PAGE_SIZE,
        new_mem.len() == PAGE_SIZE,
        0 <= o,
        0 <= l,
        o + l <= e <= PAGE_SIZE,
        forall|i: int|
            0 <= i < PAGE_SIZE ==> new_mem[i] == (if o <= i < e - l {
                old_mem[i + l]
            } else if e - l <= i < e {
                0
            } else {
                old_mem[i]
            }),
        0 <= a,
        0 <= n,
        a + n <= PAGE_SIZE,
    ensures
        a + n <= o ==> new_mem.subrange(a, a + n) =~= old_mem.subrange(a, a + n),
        a >= o + l && a + n <= e ==> new_mem.subrange(a - l, a - l + n) =~= old_mem.subrange(
            a,
            a + n,
        ),
{
    if a + n <= o {
        assert forall|j: int| 0 <= j < n implies #[trigger] new_mem.subrange(a, a + n)[j]
            == old_mem.subrange(a, a + n)[j] by {
            assert(new_mem[a + j] == old_mem[a + j]);
        }
    }
    if a >= o + l && a + n <= e {
        assert forall|j: int| 0 <= j < n implies #[trigger] new_mem.subrange(a - l, a - l + n)[j]
            == old_mem.subrange(a, a + n)[j] by {
            assert(o <= a - l + j < e - l);
            assert(new_mem[a - l + j] == old_mem[a + j]);
        }
    }
}

/// One surviving record still reads as its original bytes after the delete.
#[verifier::rlimit(60)]
proof fn lemma_delete_rec_one(
    old_mem: Seq<u8>,
    new_mem: Seq<u8>,
    old_dir: Seq<Option<(u16, u16)>>,
    new_dir: Seq<Option<(u16, u16)>>,
    o: int,
    l: int,
    e: int,
    t: int,
)
    requires
        old_mem.len() == PAGE_SIZE,
        new_mem.len() == PAGE_SIZE,
        0 <= o,
        0 <= l,
        o + l <= e <= PAGE_SIZE,
        forall|i: int|
            0 <= i < PAGE_SIZE ==> new_mem[i] == (if o <= i < e - l {
                old_mem[i + l]
            } else if e - l <= i < e {
                0
            } else {
                old_mem[i]
            }),
        live(old_dir, t),
        live(new_dir, t),
        slot_end(old_dir, t) <= e,
        slot_end(old_dir, t) <= o || slot_off(old_dir, t) >= o + l,
        slot_len(new_dir, t) == slot_len(old_dir, t),
        slot_off(new_dir, t) == (if slot_off(old_dir, t) > o {
            slot_off(old_dir, t) - l
        } else {
            slot_off(old_dir, t)
        }),
    ensures
        new_mem.subrange(slot_off(new_dir, t), slot_end(new_dir, t)) =~= old_mem.subrange(
            slot_off(old_dir, t),
            slot_end(old_dir, t),
        ),
{
    let off_t = slot_off(old_dir, t);
    let len_t = slot_len(old_dir, t);
    lemma_shift_window(old_mem, new_mem, o, l, e, off_t, len_t);
    if off_t > o {
        assert(off_t >= o + l);
    } else if slot_end(old_dir, t) <= o {
    } else {
        // Only a zero-length deleted record allows a survivor at its offset.
        assert(off_t >= o + l);
        assert(l == 0 && off_t == o);
    }
}

/// After a delete the page is well formed again.
#[verifier::rlimit(100)]
proof fn lemma_delete_wf(old_p: Page, new_p: Page, s: u16)
    requires
        old_p.wf(),
        live(old_p.dir(), s as int),
        delete_shape(old_p, new_p, s),
    ensures
        new_p.wf(),
        new_p.free_space() == old_p.free_space() + slot_len(old_p.dir(), s as int)
            + HEADER_PER_SLOT,
        forall|t: int| live(new_p.dir(), t) <==> (live(old_p.dir(), t) && t != s as int),
{
    let o = slot_off(old_p.dir(), s as int);
    let l = slot_len(old_p.dir(), s as int);
    let e = old_p.packed();
    let cut = new_p.dir().len() as int;
    let old_ord = choose|ord: Seq<u16>| old_p.chain(ord);
    lemma_delete_chain(old_p.dir(), old_ord, s as int, new_p.dir(), cut, e);
    assert forall|i: int| new_p.packed() <= i < PAGE_SIZE implies new_p.mem()[i] == 0 by {
        if i >= e {
            assert(old_p.mem()[i] == 0);
        }
    }
    let ord2 = choose|ord2: Seq<u16>|
        chain_ok(new_p.dir(), ord2) && (if ord2.len() == 0 {
            e - l == 0
        } else {
            slot_end(new_p.dir(), ord2.last() as int) == e - l
        });
    assert(new_p.chain(ord2));
    assert(new_p.wf());
}

/// After a delete the observable content is the old one with the deleted
/// slot removed.
#[verifier::rlimit(100)]
#[verifier::spinoff_prover]
proof fn lemma_delete_map(old_p: Page, new_p: Page, s: u16)
    requires
        old_p.wf(),
        live(old_p.dir(), s as int),
        delete_shape(old_p, new_p, s),
        forall|t: int| live(new_p.dir(), t) <==> (live(old_p.dir(), t) && t != s as int),
    ensures
        new_p.slot_map() =~= old_p.slot_map().remove(s),
{
    let o = slot_off(old_p.dir(), s as int);
    let l = slot_len(old_p.dir(), s as int);
    let e = old_p.packed();
    let old_ord = choose|ord: Seq<u16>| old_p.chain(ord);
    lemma_delete_sides(old_p.dir(), old_ord, s as int);
    let adj = deleted_dir(old_p.dir(), s as int, o, l);
    assert forall|t: u16| live(new_p.dir(), t as int) implies new_p.rec_bytes(t as int)
        =~= old_p.rec_bytes(t as int) by {
        let ti = t as int;
        assert(new_p.dir()[ti] == adj[ti]);
        assert(live(old_p.dir(), ti) && ti != s as int);
        assert(slot_end(old_p.dir(), ti) <= e);
        if slot_off(old_p.dir(), ti) > o {
            assert(slot_off(old_p.dir(), ti) >= o + l);
        }
        lemma_delete_rec_one(old_p.mem(), new_p.mem(), old_p.dir(), new_p.dir(), o, l, e, ti);
    }
    assert(new_p.slot_map() =~= old_p.slot_map().remove(s));
}

/// After a delete the page is well formed again and shows the old content
/// with the deleted slot removed.
proof fn lemma_delete_finalize(old_p: Page, new_p: Page, s: u16)
    requires
        old_p.wf(),
        live(old_p.dir(), s as int),
        delete_shape(old_p, new_p, s),
    ensures
        new_p.wf(),
        new_p.slot_map() =~= old_p.slot_map().remove(s),
        new_p.free_space() == old_p.free_space() + slot_len(old_p.dir(), s as int)
            + HEADER_PER_SLOT,
{
    lemma_delete_wf(old_p, new_p, s);
    lemma_delete_map(old_p, new_p, s);
}

/// The record byte strings of the live slots at or above `pos`, in
/// ascending slot order.
pub open spec fn recs_from(p: Page, pos: int) -> Seq<Seq<u8>>
    decreases p.dir().len() - pos,
{
    if pos < 0 || pos >= p.dir().len() {
        Seq::empty()
    } else if p.dir()[pos] is Some {
        seq![p.rec_bytes(pos)] + recs_from(p, pos + 1)
    } else {
        recs_from(p, pos + 1)
    }
}

/// All records of the page, in ascending slot order.
pub open spec fn page_recs(p: Page) -> Seq<Seq<u8>> {
    recs_from(p, 0)
}

/// Views of a sequence of byte vectors.
pub open spec fn views_of(v: Seq<Vec<u8>>) -> Seq<Seq<u8>> {
    v.map_values(|x: Vec<u8>| x@)
}

/// Between two live slots nothing contributes to the record sequence.
pub proof fn lemma_recs_skip(p: Page, a: int, b: int)
    requires
        0 <= a <= b <= p.dir().len(),
        forall|j: int| a <= j < b ==> !(p.dir()[j] is Some),
    ensures
        recs_from(p, a) =~= recs_from(p, b),
    decreases b - a,
{
    if a < b {
        lemma_recs_skip(p, a + 1, b);
    }
}

/// The (consuming) record iterator of a page: yields each live record's
/// bytes in ascending slot order.
pub struct PageIter {
    page: Page,
    pos: usize,
}

impl PageIter {
    /// The page being consumed.
    pub closed spec fn pg(self) -> Page {
        self.page
    }

    /// The scan position.
    pub closed spec fn at(self) -> int {
        self.pos as int
    }

    /// Iterator well-formedness.
    pub open spec fn inv(self) -> bool {
        &&& self.pg().wf()
        &&& self.at() <= self.pg().dir().len()
    }

    /// The records not yet yielded.
    pub open spec fn remaining(self) -> Seq<Seq<u8>> {
        recs_from(self.pg(), self.at())
    }

    /// The next record in ascending slot order, absent once exhausted.
    pub fn next(&mut self) -> (r: Option<Vec<u8>>)
        requires
            old(self).inv(),
        ensures
            final(self).inv(),
            old(self).remaining().len() == 0 ==> r is None && final(self).remaining().len() == 0,
            old(self).remaining().len() > 0 ==> {
                &&& r is Some
                &&& r->Some_0@ =~= old(self).remaining()[0]
                &&& final(self).remaining() =~= old(self).remaining().drop_first()
            },
    {
        let n = self.page.slot_directory_len();
        let mut t = self.pos;
        while t < n
            invariant
                self.page.wf(),
                n == self.page.dir().len(),
                self.pos <= t <= n,
                forall|j: int| self.pos as int <= j < t ==> !(self.page.dir()[j] is Some),
                self == old(self),
            decreases n - t,
        {
            if self.page.slot_is_live(t) {
                proof {
                    lemma_recs_skip(self.page, self.pos as int, t as int);
                }
                let v = match self.page.get_value(t as u16) {
                    Some(v) => v,
                    None => {
                        proof {
                            assert(false);
                        }
                        Vec::new()
                    },
                };
                self.pos = t + 1;
                return Some(v);
            }
            t = t + 1;
        }
        proof {
            lemma_recs_skip(self.page, self.pos as int, n as int);
        }
        self.pos = n;
        None
    }
}

/// If positions `0..k` of the directory are live and `k` is not, the first
/// gap is exactly `k`.
pub proof fn lemma_first_gap_at(s: Seq<Option<(u16, u16)>>, k: int)
    requires
        0 <= k < s.len(),
        s[k] is None,
        forall|j: int| 0 <= j < k ==> s[j] is Some,
    ensures
        first_gap(s) == Some(k),
    decreases s.len(),
{
    if k == 0 {
    } else {
        lemma_first_gap_at(s.drop_first(), k - 1);
    }
}

/// A directory with no dead slot has no gap.
pub proof fn lemma_first_gap_none(s: Seq<Option<(u16, u16)>>)
    requires
        forall|j: int| 0 <= j < s.len() ==> s[j] is Some,
    ensures
        first_gap(s) is None,
    decreases s.len(),
{
    if s.len() > 0 {
        lemma_first_gap_none(s.drop_first());
    }
}

/// A gap reported by `first_gap` is a dead slot with only live ones below it.
pub proof fn lemma_first_gap_char(s: Seq<Option<(u16, u16)>>)
    ensures
        match first_gap(s) {
            None => forall|j: int| 0 <= j < s.len() ==> s[j] is Some,
            Some(k) => 0 <= k < s.len() && s[k] is None && forall|j: int| 0 <= j < k ==> s[j]
                is Some,
        },
    decreases s.len(),
{
    if s.len() > 0 && s[0] is Some {
        lemma_first_gap_char(s.drop_first());
        let t = s.drop_first();
        match first_gap(t) {
            None => {
                assert forall|j: int| 0 <= j < s.len() implies s[j] is Some by {
                    if j > 0 {
                        assert(s[j] == t[j - 1]);
                    }
                }
            },
            Some(k) => {
                assert(s[k + 1] == t[k]);
                assert forall|j: int| 0 <= j < k + 1 implies s[j] is Some by {
                    if j > 0 {
                        assert(s[j] == t[j - 1]);
                    }
                }
            },
        }
    }
}

/// Filling a dead slot raises the live count by one.
pub proof fn lemma_count_live_fill(s: Seq<Option<(u16, u16)>>, k: int, v: (u16, u16))
    requires
        0 <= k < s.len(),
        s[k] is None,
    ensures
        count_live(s.update(k, Some(v))) == count_live(s) + 1,
    decreases s.len(),
{
    let t = s.update(k, Some(v));
    if k == s.len() - 1 {
        assert(t.drop_last() =~= s.drop_last());
    } else {
        lemma_count_live_fill(s.drop_last(), k, v);
        assert(t.drop_last() =~= s.drop_last().update(k, Some(v)));
        assert(t.last() == s.last());
    }
}

/// Emptying a live slot lowers the live count by one.
pub proof fn lemma_count_live_clear(s: Seq<Option<(u16, u16)>>, k: int)
    requires
        0 <= k < s.len(),
        s[k] is Some,
    ensures
        count_live(s) == count_live(s.update(k, None)) + 1,
    decreases s.len(),
{
    let t = s.update(k, None);
    if k == s.len() - 1 {
        assert(t.drop_last() =~= s.drop_last());
    } else {
        lemma_count_live_clear(s.drop_last(), k);
        assert(t.drop_last() =~= s.drop_last().update(k, None));
        assert(t.last() == s.last());
    }
}

/// Appending a live slot raises the live count by one.
pub proof fn lemma_count_live_push(s: Seq<Option<(u16, u16)>>, v: (u16, u16))
    ensures
        count_live(s.push(Some(v))) == count_live(s) + 1,
{
    assert(s.push(Some(v)).drop_last() =~= s);
}

/// A directory without holes holds as many live slots as entries.
pub proof fn lemma_count_live_all_some(s: Seq<Option<(u16, u16)>>)
    requires
        forall|j: int| 0 <= j < s.len() ==> s[j] is Some,
    ensures
        count_live(s) == s.len(),
    decreases s.len(),
{
    if s.len() > 0 {
        lemma_count_live_all_some(s.drop_last());
    }
}

/// In layout order, every earlier record ends no later than a later one begins.
pub proof fn lemma_chain_mono(slots: Seq<Option<(u16, u16)>>, ord: Seq<u16>, i: int, j: int)
    requires
        chain_ok(slots, ord),
        0 <= i < j < ord.len(),
    ensures
        slot_end(slots, ord[i] as int) <= slot_off(slots, ord[j] as int),
    decreases j - i,
{
    if j == i + 1 {
    } else {
        lemma_chain_mono(slots, ord, i, j - 1);
    }
}


/// One page operation, as its contract describes it on the observable slot
/// map: a successful insertion binds a fresh identifier, a deletion removes
/// a live one.
pub enum PageOp {
    Add(u16, Seq<u8>),
    Del(u16),
}

/// Whether a history of operations is admissible from `m`: insertions only
/// under identifiers not live at that point (as `add_value` guarantees),
/// deletions only of live ones (as a successful `delete_value` requires).
pub open spec fn ops_valid(m: Map<u16, Seq<u8>>, ops: Seq<PageOp>) -> bool
    decreases ops.len(),
{
    if ops.len() == 0 {
        true
    } else {
        match ops[0] {
            PageOp::Add(id, b) => !m.dom().contains(id) && ops_valid(
                m.insert(id, b),
                ops.drop_first(),
            ),
            PageOp::Del(id) => m.dom().contains(id) && ops_valid(m.remove(id), ops.drop_first()),
        }
    }
}

/// The slot map after a history of operations.
pub open spec fn apply_ops(m: Map<u16, Seq<u8>>, ops: Seq<PageOp>) -> Map<u16, Seq<u8>>
    decreases ops.len(),
{
    if ops.len() == 0 {
        m
    } else {
        match ops[0] {
            PageOp::Add(id, b) => apply_ops(m.insert(id, b), ops.drop_first()),
            PageOp::Del(id) => apply_ops(m.remove(id), ops.drop_first()),
        }
    }
}

/// Slot stability: once a successful insertion has bound `sid` to `bytes`,
/// any admissible history of further insertions and deletions that never
/// deletes `sid` leaves `sid` resolving to exactly `bytes`. The per-call
/// contracts of `add_value` and `delete_value` describe each step by the
/// same map insertion and removal this history folds up.
pub proof fn lemma_slot_stability(
    m: Map<u16, Seq<u8>>,
    sid: u16,
    bytes: Seq<u8>,
    ops: Seq<PageOp>,
)
    requires
        m.dom().contains(sid),
        m[sid] == bytes,
        ops_valid(m, ops),
        forall|j: int| 0 <= j < ops.len() ==> #[trigger] ops[j] != PageOp::Del(sid),
    ensures
        apply_ops(m, ops).dom().contains(sid),
        apply_ops(m, ops)[sid] == bytes,
    decreases ops.len(),
{
    if ops.len() > 0 {
        assert forall|j: int|
            0 <= j < ops.drop_first().len() implies #[trigger] ops.drop_first()[j] != PageOp::Del(
            sid,
        ) by {
            assert(ops.drop_first()[j] == ops[j + 1]);
        }
        match ops[0] {
            PageOp::Add(id, b) => {
                assert(id != sid);
                lemma_slot_stability(m.insert(id, b), sid, bytes, ops.drop_first());
            },
            PageOp::Del(id) => {
                assert(ops[0] != PageOp::Del(sid));
                assert(id != sid);
                lemma_slot_stability(m.remove(id), sid, bytes, ops.drop_first());
            },
        }
    }
}

} // verus!
