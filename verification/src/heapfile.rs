//! A heap file: an append-growable, random-access sequence of pages with a
//! byte-exact on-disk image (an 8-byte little-endian page count followed by
//! one `PAGE_SIZE` image per page). The state lives in memory here; the
//! caller persists and reloads the image.

use crate::codec::{le16, lemma_le16_parts, push_u16, read_u16_at};
use crate::errors::StorageError;
use crate::page::{page_recs, views_of, Page};
use crate::pageimage::image_of;
use crate::PAGE_SIZE;
use vstd::prelude::*;

verus! {

/// The images of the pages, concatenated in page order.
pub open spec fn pages_image(pgs: Seq<Page>) -> Seq<u8>
    decreases pgs.len(),
{
    if pgs.len() == 0 {
        Seq::empty()
    } else {
        pages_image(pgs.drop_last()) + image_of(pgs.last())
    }
}

/// The on-disk image of a heap file: the page count as a little-endian
/// 64-bit integer (only the low 16 bits are ever used), then the pages.
pub open spec fn hf_image(pgs: Seq<Page>) -> Seq<u8> {
    seq![
        crate::codec::lo16(pgs.len() as u16),
        crate::codec::hi16(pgs.len() as u16),
        0u8,
        0u8,
        0u8,
        0u8,
        0u8,
        0u8,
    ] + pages_image(pgs)
}

/// All records of a page sequence, in (page, slot) order.
pub open spec fn pages_recs(pgs: Seq<Page>) -> Seq<Seq<u8>>
    decreases pgs.len(),
{
    if pgs.len() == 0 {
        Seq::empty()
    } else {
        pages_recs(pgs.drop_last()) + page_recs(pgs.last())
    }
}

pub struct HeapFile {
    pages: Vec<Page>,
    read_count: u16,
    write_count: u16,
}

impl HeapFile {
    /// The pages in page-identifier order.
    pub closed spec fn view_pages(self) -> Seq<Page> {
        self.pages@
    }

    /// Reads served so far.
    pub closed spec fn reads(self) -> u16 {
        self.read_count
    }

    /// Writes served so far.
    pub closed spec fn writes(self) -> u16 {
        self.write_count
    }

    /// Well-formedness: every page is well formed and sits at the index its
    /// identifier names.
    pub open spec fn wf(self) -> bool {
        &&& self.view_pages().len() <= 0xFFFF
        &&& forall|k: int|
            0 <= k < self.view_pages().len() ==> (#[trigger] self.view_pages()[k]).wf()
                && self.view_pages()[k].id() == k as u16
    }

    /// A fresh, empty heap file.
    pub fn new() -> (r: HeapFile)
        ensures
            r.wf(),
            r.view_pages().len() == 0,
            r.reads() == 0,
            r.writes() == 0,
    {
        HeapFile { pages: Vec::new(), read_count: 0, write_count: 0 }
    }

    /// The number of pages held.
    pub fn num_pages(&self) -> (r: u16)
        requires
            self.wf(),
        ensures
            r as int == self.view_pages().len(),
    {
        self.pages.len() as u16
    }

    /// Read one page: a copy of the page at `pid`, or an invalid-page error
    /// when `pid` is at or past the page count. Counts the read.
    pub fn read_page_from_file(&mut self, pid: u16) -> (r: Result<Page, StorageError>)
        requires
            old(self).wf(),
        ensures
            final(self).wf(),
            final(self).view_pages() == old(self).view_pages(),
            final(self).writes() == old(self).writes(),
            final(self).reads() as int == (old(self).reads() + 1) % 0x10000,
            (pid as int) >= old(self).view_pages().len() <==> r == Err::<Page, StorageError>(
                StorageError::InvalidPage,
            ),
            (pid as int) < old(self).view_pages().len() ==> r is Ok
                && r->Ok_0.pg_eq(old(self).view_pages()[pid as int]) && r->Ok_0.wf(),
    {
        self.read_count = if self.read_count == 0xFFFF {
            0
        } else {
            self.read_count + 1
        };
        if pid as usize >= self.pages.len() {
            return Err(StorageError::InvalidPage);
        }
        Ok(self.pages[pid as usize].duplicate())
    }

    /// Write one page at the index its identifier names: an overwrite below
    /// the page count, an append exactly at it. Counts the write.
    pub fn write_page_to_file(&mut self, page: Page) -> (r: Result<(), StorageError>)
        requires
            old(self).wf(),
            page.wf(),
            (page.id() as int) <= old(self).view_pages().len(),
            old(self).view_pages().len() < 0xFFFF || (page.id() as int) < old(
                self,
            ).view_pages().len(),
        ensures
            final(self).wf(),
            r is Ok,
            final(self).reads() == old(self).reads(),
            final(self).writes() as int == (old(self).writes() + 1) % 0x10000,
            (page.id() as int) < old(self).view_pages().len() ==> final(self).view_pages()
                =~= old(self).view_pages().update(page.id() as int, page),
            page.id() as int == old(self).view_pages().len() ==> final(self).view_pages()
                =~= old(self).view_pages().push(page),
    {
        self.write_count = if self.write_count == 0xFFFF {
            0
        } else {
            self.write_count + 1
        };
        let pid = page.get_page_id();
        if (pid as usize) < self.pages.len() {
            self.pages.set(pid as usize, page);
        } else {
            self.pages.push(page);
        }
        proof {
            assert forall|k: int|
                0 <= k < self.pages@.len() implies (#[trigger] self.pages@[k]).wf()
                && self.pages@[k].id() == k as u16 by {
                if k != pid as int {
                    assert(self.pages@[k] == old(self).view_pages()[k]);
                }
            }
        }
        Ok(())
    }

    /// The read and write counters, for profiling.
    pub fn counters(&self) -> (r: (u16, u16))
        ensures
            r.0 == self.reads(),
            r.1 == self.writes(),
    {
        (self.read_count, self.write_count)
    }

    /// Serialize the whole file to its on-disk image.
    pub fn to_image(&self) -> (r: Vec<u8>)
        requires
            self.wf(),
        ensures
            r@ =~= hf_image(self.view_pages()),
    {
        let count = self.pages.len() as u16;
        let mut out: Vec<u8> = Vec::new();
        push_u16(&mut out, count);
        out.push(0);
        out.push(0);
        out.push(0);
        out.push(0);
        out.push(0);
        out.push(0);
        let mut k: usize = 0;
        while k < self.pages.len()
            invariant
                self.wf(),
                k <= self.view_pages().len(),
                out@ =~= seq![
                    crate::codec::lo16(self.view_pages().len() as u16),
                    crate::codec::hi16(self.view_pages().len() as u16),
                    0u8,
                    0u8,
                    0u8,
                    0u8,
                    0u8,
                    0u8,
                ] + pages_image(self.view_pages().subrange(0, k as int)),
            decreases self.view_pages().len() - k,
        {
            let mut img = self.pages[k].get_bytes();
            out.append(&mut img);
            proof {
                assert(self.view_pages().subrange(0, k as int + 1).drop_last()
                    =~= self.view_pages().subrange(0, k as int));
                assert(pages_image(self.view_pages().subrange(0, k as int + 1)) =~= pages_image(
                    self.view_pages().subrange(0, k as int),
                ) + image_of(self.view_pages()[k as int]));
            }
            k = k + 1;
        }
        proof {
            assert(self.view_pages().subrange(0, self.view_pages().len() as int)
                =~= self.view_pages());
        }
        out
    }

    /// All records of the file, in (page, slot) order, as fresh vectors.
    pub fn all_records(&self) -> (r: Vec<Vec<u8>>)
        requires
            self.wf(),
        ensures
            views_of(r@) =~= pages_recs(self.view_pages()),
    {
        let mut out: Vec<Vec<u8>> = Vec::new();
        let mut k: usize = 0;
        while k < self.pages.len()
            invariant
                self.wf(),
                k <= self.view_pages().len(),
                views_of(out@) =~= pages_recs(self.view_pages().subrange(0, k as int)),
            decreases self.view_pages().len() - k,
        {
            let mut recs = self.pages[k].records();
            let ghost before = out@;
            let ghost recsv = recs@;
            out.append(&mut recs);
            proof {
                assert(views_of(out@) =~= views_of(before) + views_of(recsv));
                assert(self.view_pages().subrange(0, k as int + 1).drop_last()
                    =~= self.view_pages().subrange(0, k as int));
                assert(views_of(out@) =~= pages_recs(self.view_pages().subrange(0, k as int + 1)));
            }
            k = k + 1;
        }
        proof {
            assert(self.view_pages().subrange(0, self.view_pages().len() as int)
                =~= self.view_pages());
        }
        out
    }
}


/// The concatenated page images are one `PAGE_SIZE` block per page.
pub proof fn lemma_pages_image_len(pgs: Seq<Page>)
    ensures
        pages_image(pgs).len() == pgs.len() * PAGE_SIZE,
    decreases pgs.len(),
{
    if pgs.len() > 0 {
        lemma_pages_image_len(pgs.drop_last());
        assert(pgs.len() * PAGE_SIZE == (pgs.len() - 1) * PAGE_SIZE + PAGE_SIZE)
            by (nonlinear_arith);
    }
}

/// Byte `i` of page `k`'s block is byte `i` of that page's image.
pub proof fn lemma_pages_image_index(pgs: Seq<Page>, k: int, i: int)
    requires
        0 <= k < pgs.len(),
        0 <= i < PAGE_SIZE,
    ensures
        pages_image(pgs)[k * PAGE_SIZE + i] == image_of(pgs[k])[i],
    decreases pgs.len(),
{
    lemma_pages_image_len(pgs);
    lemma_pages_image_len(pgs.drop_last());
    if k == pgs.len() - 1 {
        assert(k * PAGE_SIZE + i - pages_image(pgs.drop_last()).len() == i);
    } else {
        lemma_pages_image_index(pgs.drop_last(), k, i);
        assert(k * PAGE_SIZE + i < (pgs.len() - 1) * PAGE_SIZE) by (nonlinear_arith)
            requires
                0 <= k < pgs.len() - 1,
                0 <= i < PAGE_SIZE,
        ;
    }
}

/// A sequence of pages that can stand in a heap file: each well formed, at
/// the index its identifier names, and countable in sixteen bits.
pub open spec fn wf_pages(pgs: Seq<Page>) -> bool {
    &&& pgs.len() <= 0xFFFF
    &&& forall|k: int| 0 <= k < pgs.len() ==> (#[trigger] pgs[k]).wf() && pgs[k].id() == k as u16
}

/// Page `k`'s block of a heap-file image holds exactly that page's image.
pub proof fn lemma_hf_segment(pgs: Seq<Page>, b: Seq<u8>, k: int)
    requires
        hf_image(pgs) =~= b,
        0 <= k < pgs.len(),
    ensures
        b.len() == 8 + pgs.len() * PAGE_SIZE,
        image_of(pgs[k]) =~= b.subrange(8 + k * PAGE_SIZE, 8 + k * PAGE_SIZE + PAGE_SIZE),
{
    lemma_pages_image_len(pgs);
    assert((k + 1) * PAGE_SIZE <= pgs.len() * PAGE_SIZE && 0 <= k * PAGE_SIZE) by (nonlinear_arith)
        requires
            0 <= k < pgs.len(),
    ;
    assert forall|i: int|
        0 <= i < PAGE_SIZE implies image_of(pgs[k])[i] == b.subrange(
        8 + k * PAGE_SIZE,
        8 + k * PAGE_SIZE + PAGE_SIZE,
    )[i] by {
        lemma_pages_image_index(pgs, k, i);
        assert(b[8 + k * PAGE_SIZE + i] == pages_image(pgs)[k * PAGE_SIZE + i]);
    }
}

impl HeapFile {
    /// Rebuild a heap file from its on-disk image: the inverse of
    /// `to_image`. A malformed image is an input/output failure.
    #[verifier::rlimit(100)]
    #[verifier::spinoff_prover]
    pub fn from_image(bytes: &Vec<u8>) -> (r: Result<HeapFile, StorageError>)
        ensures
            match r {
                Ok(hf) => hf.wf() && hf_image(hf.view_pages()) =~= bytes@ && hf.reads() == 0
                    && hf.writes() == 0,
                Err(e) => e == StorageError::IoFailure,
            },
            forall|pgs: Seq<Page>|
                #[trigger] wf_pages(pgs) && hf_image(pgs) =~= bytes@ ==> r is Ok
                    && r->Ok_0.view_pages().len() == pgs.len() && (forall|k: int|
                    0 <= k < pgs.len() ==> (#[trigger] r->Ok_0.view_pages()[k]).pg_eq(pgs[k])),
    {
        let blen = bytes.len();
        if blen < 8 {
            proof {
                assert forall|pgs: Seq<Page>|
                    wf_pages(pgs) && hf_image(pgs) =~= bytes@ implies false by {
                    lemma_pages_image_len(pgs);
                }
            }
            return Err(StorageError::IoFailure);
        }
        let count = read_u16_at(bytes, 0) as usize;
        let mut z: usize = 2;
        while z < 8
            invariant
                bytes@.len() >= 8,
                2 <= z <= 8,
                forall|j: int| 2 <= j < z ==> bytes@[j] == 0,
            decreases 8 - z,
        {
            if bytes[z] != 0 {
                proof {
                    assert forall|pgs: Seq<Page>|
                        wf_pages(pgs) && hf_image(pgs) =~= bytes@ implies false by {
                        assert(hf_image(pgs)[z as int] == 0);
                    }
                }
                return Err(StorageError::IoFailure);
            }
            z = z + 1;
        }
        if (blen - 8) / PAGE_SIZE != count || (blen - 8) % PAGE_SIZE != 0 {
            proof {
                assert forall|pgs: Seq<Page>|
                    wf_pages(pgs) && hf_image(pgs) =~= bytes@ implies false by {
                    lemma_pages_image_len(pgs);
                    lemma_le16_parts(pgs.len() as u16);
                    assert(bytes@[0] == crate::codec::lo16(pgs.len() as u16));
                    assert(bytes@[1] == crate::codec::hi16(pgs.len() as u16));
                    assert(pgs.len() == count as int);
                    assert(blen as int - 8 == pgs.len() * PAGE_SIZE);
                    assert((pgs.len() * PAGE_SIZE) / (PAGE_SIZE as int) == pgs.len() && (pgs.len()
                        * PAGE_SIZE) % (PAGE_SIZE as int) == 0) by (nonlinear_arith);
                }
            }
            return Err(StorageError::IoFailure);
        }
        let mut pages: Vec<Page> = Vec::new();
        let mut k: usize = 0;
        while k < count
            invariant
                blen == bytes@.len(),
                bytes@.len() == 8 + count * PAGE_SIZE,
                count <= 0xFFFF,
                k <= count,
                count as int == le16(bytes@[0], bytes@[1]),
                forall|j: int| 2 <= j < 8 ==> bytes@[j] == 0,
                pages@.len() == k as int,
                forall|j: int|
                    0 <= j < k ==> (#[trigger] pages@[j]).wf() && pages@[j].id() == j as u16
                        && image_of(pages@[j]) =~= bytes@.subrange(
                        8 + j * PAGE_SIZE,
                        8 + j * PAGE_SIZE + PAGE_SIZE,
                    ),
            decreases count - k,
        {
            proof {
                assert(8 + k * PAGE_SIZE + PAGE_SIZE <= bytes@.len()) by (nonlinear_arith)
                    requires
                        k < count,
                        bytes@.len() == 8 + count * PAGE_SIZE,
                ;
            }
            let base = 8 + k * PAGE_SIZE;
            let mut seg: Vec<u8> = Vec::new();
            let mut i: usize = 0;
            while i < PAGE_SIZE
                invariant
                    blen == bytes@.len(),
                    base + PAGE_SIZE <= blen,
                    i <= PAGE_SIZE,
                    seg@ =~= bytes@.subrange(base as int, base as int + i as int),
                decreases PAGE_SIZE - i,
            {
                seg.push(bytes[base + i]);
                i = i + 1;
            }
            let pg = match Page::try_from_bytes(&seg) {
                None => {
                    proof {
                        assert forall|pgs: Seq<Page>|
                            wf_pages(pgs) && hf_image(pgs) =~= bytes@ implies false by {
                            lemma_pages_image_len(pgs);
                            lemma_le16_parts(pgs.len() as u16);
                            assert(pgs.len() == count as int);
                            lemma_hf_segment(pgs, bytes@, k as int);
                            assert(pgs[k as int].wf() && image_of(pgs[k as int]) =~= seg@);
                        }
                    }
                    return Err(StorageError::IoFailure);
                },
                Some(pg) => pg,
            };
            if pg.get_page_id() != k as u16 {
                proof {
                    assert forall|pgs: Seq<Page>|
                        wf_pages(pgs) && hf_image(pgs) =~= bytes@ implies false by {
                        lemma_pages_image_len(pgs);
                        lemma_le16_parts(pgs.len() as u16);
                        assert(pgs.len() == count as int);
                        lemma_hf_segment(pgs, bytes@, k as int);
                        assert(pgs[k as int].wf() && image_of(pgs[k as int]) =~= seg@);
                        assert(pg.pg_eq(pgs[k as int]));
                    }
                }
                return Err(StorageError::IoFailure);
            }
            pages.push(pg);
            k = k + 1;
        }
        let hf = HeapFile { pages, read_count: 0, write_count: 0 };
        proof {
            lemma_le16_parts(hf.view_pages().len() as u16);
            lemma_pages_image_len(hf.view_pages());
            assert forall|i: int| 0 <= i < bytes@.len() implies hf_image(hf.view_pages())[i]
                == bytes@[i] by {
                if i >= 8 {
                    let d = i - 8;
                    assert(0 <= d / (PAGE_SIZE as int) && d / (PAGE_SIZE as int) < count as int && 0
                        <= d % (PAGE_SIZE as int) < PAGE_SIZE && d == (d / (PAGE_SIZE as int))
                        * PAGE_SIZE + d % (PAGE_SIZE as int)) by (nonlinear_arith)
                        requires
                            0 <= d < count * PAGE_SIZE,
                    ;
                    let kk = d / (PAGE_SIZE as int);
                    let c = d % (PAGE_SIZE as int);
                    lemma_pages_image_index(hf.view_pages(), kk, c);
                    assert(image_of(hf.view_pages()[kk])[c] == bytes@.subrange(
                        8 + kk * PAGE_SIZE,
                        8 + kk * PAGE_SIZE + PAGE_SIZE,
                    )[c]);
                }
            }
            assert(hf_image(hf.view_pages()) =~= bytes@);
            assert forall|pgs: Seq<Page>|
                wf_pages(pgs) && hf_image(pgs) =~= bytes@ implies hf.view_pages().len()
                == pgs.len() && (forall|j: int|
                0 <= j < pgs.len() ==> (#[trigger] hf.view_pages()[j]).pg_eq(pgs[j])) by {
                lemma_pages_image_len(pgs);
                lemma_le16_parts(pgs.len() as u16);
                assert(pgs.len() == count as int);
                assert forall|j: int|
                    0 <= j < pgs.len() implies (#[trigger] hf.view_pages()[j]).pg_eq(pgs[j]) by {
                    lemma_hf_segment(pgs, bytes@, j);
                    assert(image_of(hf.view_pages()[j]) =~= image_of(pgs[j]));
                    crate::pageimage::lemma_image_injective(hf.view_pages()[j], pgs[j]);
                }
            }
        }
        Ok(hf)
    }
}

/// An iterator over all records of one heap file, in (page, slot) order.
/// The records are materialized up front, so later writes to the file do
/// not disturb a running scan.
pub struct HeapFileIterator {
    records: Vec<Vec<u8>>,
    pos: usize,
    container_id: u16,
}

impl HeapFileIterator {
    /// The records not yet yielded.
    pub closed spec fn remaining(self) -> Seq<Seq<u8>> {
        views_of(self.records@).subrange(self.pos as int, self.records@.len() as int)
    }

    /// Iterator well-formedness.
    pub closed spec fn inv(self) -> bool {
        self.pos <= self.records@.len()
    }

    /// The container this iterator reads.
    pub closed spec fn container(self) -> u16 {
        self.container_id
    }

    /// Materialize all records of the heap file, in (page, slot) order.
    pub fn new(container_id: u16, hf: &HeapFile) -> (it: HeapFileIterator)
        requires
            hf.wf(),
        ensures
            it.inv(),
            it.remaining() =~= pages_recs(hf.view_pages()),
            it.container() == container_id,
    {
        let records = hf.all_records();
        proof {
            assert(views_of(records@).subrange(0, records@.len() as int) =~= views_of(records@));
        }
        HeapFileIterator { records, pos: 0, container_id }
    }

    /// The next record, absent once exhausted.
    pub fn next(&mut self) -> (r: Option<Vec<u8>>)
        requires
            old(self).inv(),
        ensures
            final(self).inv(),
            final(self).container() == old(self).container(),
            old(self).remaining().len() == 0 ==> r is None && final(self).remaining().len() == 0,
            old(self).remaining().len() > 0 ==> {
                &&& r is Some
                &&& r->Some_0@ =~= old(self).remaining()[0]
                &&& final(self).remaining() =~= old(self).remaining().drop_first()
            },
    {
        if self.pos >= self.records.len() {
            return None;
        }
        let rec = &self.records[self.pos];
        let mut out: Vec<u8> = Vec::new();
        let mut i: usize = 0;
        while i < rec.len()
            invariant
                self.pos < self.records@.len(),
                rec == self.records@[self.pos as int],
                i <= rec@.len(),
                out@ =~= rec@.subrange(0, i as int),
            decreases rec@.len() - i,
        {
            out.push(rec[i]);
            i = i + 1;
        }
        proof {
            assert(out@ =~= self.records@[self.pos as int]@);
        }
        self.pos = self.pos + 1;
        Some(out)
    }
}


/// The pages after a history of writes, each an overwrite below the page
/// count or an append exactly at it, as `write_page_to_file` ensures.
pub open spec fn apply_writes(pgs: Seq<Page>, ws: Seq<Page>) -> Seq<Page>
    decreases ws.len(),
{
    if ws.len() == 0 {
        pgs
    } else {
        let prev = apply_writes(pgs, ws.drop_last());
        if (ws.last().id() as int) < prev.len() {
            prev.update(ws.last().id() as int, ws.last())
        } else {
            prev.push(ws.last())
        }
    }
}

/// Read-back: after any history of writes, the page under `pid` is exactly
/// the last page written under that identifier, untouched by writes to
/// other pages — the state `read_page_from_file` returns a copy of.
pub proof fn lemma_read_back(pgs: Seq<Page>, ws: Seq<Page>, j: int)
    requires
        0 <= j < ws.len(),
        forall|h: int|
            j < h < ws.len() ==> (#[trigger] ws[h]).id() != ws[j].id(),
        (ws[j].id() as int) < apply_writes(pgs, ws.subrange(0, j + 1)).len(),
    ensures
        (ws[j].id() as int) < apply_writes(pgs, ws).len(),
        apply_writes(pgs, ws)[ws[j].id() as int] == ws[j],
    decreases ws.len() - j,
{
    if j == ws.len() - 1 {
        assert(ws.subrange(0, j + 1) =~= ws);
    } else {
        assert(ws.drop_last() =~= ws.subrange(0, ws.len() - 1));
        assert forall|h: int|
            j < h < ws.drop_last().len() implies (#[trigger] ws.drop_last()[h]).id()
            != ws.drop_last()[j].id() by {
            assert(ws.drop_last()[h] == ws[h]);
        }
        assert(ws.drop_last().subrange(0, j + 1) =~= ws.subrange(0, j + 1));
        lemma_read_back(pgs, ws.drop_last(), j);
        let prev = apply_writes(pgs, ws.drop_last());
        assert(ws.last().id() != ws[j].id());
    }
}

} // verus!
