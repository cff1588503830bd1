//! Serialization of a page to and from its fixed-size byte image, with the
//! proof that the two directions invert each other: any well-formed page
//! reads back observably equal, and any byte string no well-formed page
//! serializes to is rejected.

use crate::codec::{copy_bytes, hi16, le16, lemma_le16_bytes, lemma_le16_parts, lo16, put_u16_at, read_u16_at};
use crate::page::{
    chain_ok, count_live, lemma_count_live_clear, lemma_count_live_fill, lemma_count_live_pos,
    live, slot_end, slot_len, slot_off, Page, HEADER_FIXED, HEADER_PER_SLOT, MAX_SLOTS,
};
use crate::PAGE_SIZE;
use vstd::prelude::*;

verus! {

/// The live slots as `(identifier, offset, length)` triples in ascending
/// identifier order: the order in which the serialized header lists them.
pub open spec fn live_triples(s: Seq<Option<(u16, u16)>>) -> Seq<(u16, u16, u16)>
    decreases s.len(),
{
    if s.len() == 0 {
        Seq::empty()
    } else {
        live_triples(s.drop_last()) + if s.last() is Some {
            seq![(((s.len() - 1) as u16), s.last()->Some_0.0, s.last()->Some_0.1)]
        } else {
            Seq::empty()
        }
    }
}

/// Basic shape of the triple list.
pub proof fn lemma_live_triples(s: Seq<Option<(u16, u16)>>)
    requires
        s.len() <= 0x10000,
    ensures
        live_triples(s).len() == count_live(s),
        forall|j: int|
            0 <= j < live_triples(s).len() ==> {
                let tr = #[trigger] live_triples(s)[j];
                &&& live(s, tr.0 as int)
                &&& s[tr.0 as int] == Some((tr.1, tr.2))
            },
        forall|j1: int, j2: int|
            0 <= j1 < j2 < live_triples(s).len() ==> #[trigger] live_triples(s)[j1].0
                < #[trigger] live_triples(s)[j2].0,
        forall|j: int|
            0 <= j < live_triples(s).len() ==> #[trigger] live_triples(s)[j].0 < s.len(),
        forall|t: int|
            live(s, t) ==> exists|j: int|
                0 <= j < live_triples(s).len() && #[trigger] live_triples(s)[j].0 == t as u16,
    decreases s.len(),
{
    if s.len() > 0 {
        lemma_live_triples(s.drop_last());
        let pre = live_triples(s.drop_last());
        assert forall|j: int| 0 <= j < live_triples(s).len() implies {
            let tr = #[trigger] live_triples(s)[j];
            &&& live(s, tr.0 as int)
            &&& s[tr.0 as int] == Some((tr.1, tr.2))
            &&& tr.0 < s.len()
        } by {
            if j < pre.len() {
                assert(live_triples(s)[j] == pre[j]);
                assert(live(s.drop_last(), pre[j].0 as int));
                assert(s[pre[j].0 as int] == s.drop_last()[pre[j].0 as int]);
            } else {
                assert(s.last() is Some);
                assert(live_triples(s)[j] == (((s.len() - 1) as u16), s.last()->Some_0.0,
                s.last()->Some_0.1));
            }
        }
        assert forall|j1: int, j2: int|
            0 <= j1 < j2 < live_triples(s).len() implies #[trigger] live_triples(s)[j1].0
            < #[trigger] live_triples(s)[j2].0 by {
            if j2 < pre.len() {
                assert(live_triples(s)[j1] == pre[j1] && live_triples(s)[j2] == pre[j2]);
            } else {
                assert(live_triples(s)[j1] == pre[j1]);
                assert(pre[j1].0 < s.drop_last().len());
            }
        }
        assert forall|t: int| live(s, t) implies exists|j: int|
            0 <= j < live_triples(s).len() && #[trigger] live_triples(s)[j].0 == t as u16 by {
            if t < s.len() - 1 {
                assert(live(s.drop_last(), t));
                let j = choose|j: int| 0 <= j < pre.len() && pre[j] == pre[j] && pre[j].0 == t as u16;
                assert(live_triples(s)[j].0 == t as u16);
            } else {
                assert(live_triples(s)[live_triples(s).len() - 1].0 == t as u16);
            }
        }
    }
}

/// Extending the scanned prefix by one slot extends the triple list by that
/// slot when live.
pub proof fn lemma_triples_step(s: Seq<Option<(u16, u16)>>, t: int)
    requires
        0 <= t < s.len(),
    ensures
        s[t] is Some ==> live_triples(s.subrange(0, t + 1)) =~= live_triples(s.subrange(0, t)).push(
            ((t as u16), s[t]->Some_0.0, s[t]->Some_0.1),
        ),
        s[t] is None ==> live_triples(s.subrange(0, t + 1)) =~= live_triples(s.subrange(0, t)),
{
    let a = s.subrange(0, t + 1);
    assert(a.drop_last() =~= s.subrange(0, t));
    assert(a.last() == s[t]);
}

/// A strictly later scan prefix holds strictly more live slots when the next
/// slot is live, and never fewer.
pub proof fn lemma_count_take(s: Seq<Option<(u16, u16)>>, t: int)
    requires
        0 <= t <= s.len(),
    ensures
        count_live(s.subrange(0, t)) <= count_live(s),
        t < s.len() && s[t] is Some ==> count_live(s.subrange(0, t)) < count_live(s),
    decreases s.len(),
{
    if t == s.len() {
        assert(s.subrange(0, t) =~= s);
    } else {
        assert(s.drop_last() =~= s.subrange(0, s.len() - 1));
        if t == s.len() - 1 {
            assert(s.subrange(0, t) =~= s.drop_last());
        } else {
            lemma_count_take(s.drop_last(), t);
            assert(s.drop_last().subrange(0, t) =~= s.subrange(0, t));
        }
    }
}

/// Bytes of a 16-bit value in the serialized header, by position parity.
pub open spec fn word_byte(x: u16, c: int) -> u8 {
    if c % 2 == 0 {
        lo16(x)
    } else {
        hi16(x)
    }
}

/// The serialized value the page's `max_slot` header field carries.
pub open spec fn max_slot_of(p: Page) -> u16 {
    if p.dir().len() == 0 {
        0u16
    } else {
        (p.dir().len() - 1) as u16
    }
}

/// The serialized value the page's `furthest_slot` header field carries.
pub open spec fn furthest_field(p: Page) -> u16 {
    match p.furthest_of() {
        None => 0u16,
        Some(f) => f,
    }
}

/// Byte `i` of the image, for `i` inside the slot-triple region, given the
/// triple list.
pub open spec fn triple_byte_at(trs: Seq<(u16, u16, u16)>, i: int) -> u8 {
    let d = PAGE_SIZE - 9 - i;
    let k = d / 6;
    let c = 5 - (d % 6);
    let tr = trs[k];
    if c < 2 {
        word_byte(tr.2, c)
    } else if c < 4 {
        word_byte(tr.1, c - 2)
    } else {
        word_byte(tr.0, c - 4)
    }
}

/// Byte `i` of the page's serialized image: record data grows from offset
/// zero, the header grows downward from the end, listing the fixed fields
/// and one `(length, offset, identifier)` triple per live slot.
pub open spec fn image_byte(p: Page, i: int) -> u8 {
    let n = p.num_slots() as int;
    if i >= PAGE_SIZE - 2 {
        word_byte(p.id(), i - (PAGE_SIZE - 2))
    } else if i >= PAGE_SIZE - 4 {
        word_byte(p.num_slots() as u16, i - (PAGE_SIZE - 4))
    } else if i >= PAGE_SIZE - 6 {
        word_byte(furthest_field(p), i - (PAGE_SIZE - 6))
    } else if i >= PAGE_SIZE - 8 {
        word_byte(max_slot_of(p), i - (PAGE_SIZE - 8))
    } else if i >= PAGE_SIZE - 8 - 6 * n {
        triple_byte_at(live_triples(p.dir()), i)
    } else {
        p.mem()[i]
    }
}

/// The page's serialized image: exactly `PAGE_SIZE` bytes.
pub open spec fn image_of(p: Page) -> Seq<u8> {
    Seq::new(PAGE_SIZE as nat, |i: int| image_byte(p, i))
}

/// A byte string some well-formed page serializes to.
pub open spec fn valid_image(b: Seq<u8>) -> bool {
    exists|p: Page| #[trigger] p.wf() && image_of(p) =~= b
}

/// Placement of the `k`-th slot triple inside the image.
pub proof fn lemma_triple_pos(k: int, c: int)
    requires
        0 <= k,
        0 <= c < 6,
    ensures
        (PAGE_SIZE - 9 - (PAGE_SIZE - 14 - 6 * k + c)) / 6 == k,
        5 - ((PAGE_SIZE - 9 - (PAGE_SIZE - 14 - 6 * k + c)) % 6) == c,
{
    let d = PAGE_SIZE - 9 - (PAGE_SIZE - 14 - 6 * k + c);
    assert(d == 6 * k + (5 - c));
    assert(d / 6 == k && d % 6 == 5 - c) by (nonlinear_arith)
        requires
            d == 6 * k + (5 - c),
            0 <= 5 - c < 6,
            0 <= k,
    ;
}

/// The triples of a scan prefix are a prefix of the full triple list.
pub proof fn lemma_triples_prefix(s: Seq<Option<(u16, u16)>>, t: int)
    requires
        0 <= t <= s.len(),
    ensures
        count_live(s.subrange(0, t)) <= count_live(s),
        live_triples(s).subrange(0, count_live(s.subrange(0, t)) as int) =~= live_triples(
            s.subrange(0, t),
        ),
    decreases s.len() - t,
{
    if t == s.len() {
        assert(s.subrange(0, t) =~= s);
        assert(live_triples(s).subrange(0, count_live(s) as int) =~= live_triples(s)) by {
            lemma_triples_len(s);
        }
    } else {
        lemma_triples_prefix(s, t + 1);
        lemma_triples_step(s, t);
        lemma_triples_len(s.subrange(0, t));
        lemma_triples_len(s.subrange(0, t + 1));
        lemma_triples_len(s);
        let a = count_live(s.subrange(0, t)) as int;
        let b = count_live(s.subrange(0, t + 1)) as int;
        assert(a <= b <= live_triples(s).len());
        assert(live_triples(s).subrange(0, a) =~= live_triples(s).subrange(0, b).subrange(0, a));
        assert(live_triples(s).subrange(0, b) =~= live_triples(s.subrange(0, t + 1)));
        assert(live_triples(s.subrange(0, t + 1)).subrange(0, a) =~= live_triples(
            s.subrange(0, t),
        ));
    }
}

/// The triple list is as long as the live count.
pub proof fn lemma_triples_len(s: Seq<Option<(u16, u16)>>)
    ensures
        live_triples(s).len() == count_live(s),
    decreases s.len(),
{
    if s.len() > 0 {
        lemma_triples_len(s.drop_last());
    }
}

/// Division facts locating byte `i` inside the triple region.
pub proof fn lemma_triple_locate(d: int, n: int)
    requires
        0 <= d < 6 * n,
    ensures
        0 <= d / 6 < n,
        0 <= d % 6 < 6,
        d == 6 * (d / 6) + d % 6,
    decreases n,
{
    assert(0 <= d / 6 < n && 0 <= d % 6 < 6 && d == 6 * (d / 6) + d % 6) by (nonlinear_arith)
        requires
            0 <= d < 6 * n,
    ;
}

/// What any well-formed page's image determines: every header field and
/// every data byte can be read back off the image.
pub proof fn lemma_decode(p: Page, b: Seq<u8>)
    requires
        p.wf(),
        image_of(p) =~= b,
    ensures
        b.len() == PAGE_SIZE,
        le16(b[PAGE_SIZE - 2], b[PAGE_SIZE - 1]) == p.id() as int,
        le16(b[PAGE_SIZE - 4], b[PAGE_SIZE - 3]) == p.num_slots() as int,
        le16(b[PAGE_SIZE - 6], b[PAGE_SIZE - 5]) == furthest_field(p) as int,
        le16(b[PAGE_SIZE - 8], b[PAGE_SIZE - 7]) == max_slot_of(p) as int,
        forall|j: int|
            0 <= j < p.num_slots() ==> {
                let tr = #[trigger] live_triples(p.dir())[j];
                &&& le16(b[PAGE_SIZE - 14 - 6 * j], b[PAGE_SIZE - 14 - 6 * j + 1]) == tr.2 as int
                &&& le16(b[PAGE_SIZE - 14 - 6 * j + 2], b[PAGE_SIZE - 14 - 6 * j + 3]) == tr.1
                    as int
                &&& le16(b[PAGE_SIZE - 14 - 6 * j + 4], b[PAGE_SIZE - 14 - 6 * j + 5]) == tr.0
                    as int
            },
        forall|i: int| 0 <= i < PAGE_SIZE - 8 - 6 * p.num_slots() ==> b[i] == p.mem()[i],
{
    lemma_le16_parts(p.id());
    lemma_le16_parts(p.num_slots() as u16);
    lemma_le16_parts(furthest_field(p));
    lemma_le16_parts(max_slot_of(p));
    let n = p.num_slots() as int;
    assert forall|j: int| 0 <= j < p.num_slots() implies {
        let tr = #[trigger] live_triples(p.dir())[j];
        &&& le16(b[PAGE_SIZE - 14 - 6 * j], b[PAGE_SIZE - 14 - 6 * j + 1]) == tr.2 as int
        &&& le16(b[PAGE_SIZE - 14 - 6 * j + 2], b[PAGE_SIZE - 14 - 6 * j + 3]) == tr.1 as int
        &&& le16(b[PAGE_SIZE - 14 - 6 * j + 4], b[PAGE_SIZE - 14 - 6 * j + 5]) == tr.0 as int
    } by {
        let tr = live_triples(p.dir())[j];
        lemma_le16_parts(tr.0);
        lemma_le16_parts(tr.1);
        lemma_le16_parts(tr.2);
        let base = PAGE_SIZE - 14 - 6 * j;
        lemma_triple_pos(j, 0);
        lemma_triple_pos(j, 1);
        lemma_triple_pos(j, 2);
        lemma_triple_pos(j, 3);
        lemma_triple_pos(j, 4);
        lemma_triple_pos(j, 5);
        assert(base + 0 >= PAGE_SIZE - 8 - 6 * n);
        assert(b[base] == image_byte(p, base));
        assert(b[base + 1] == image_byte(p, base + 1));
        assert(b[base + 2] == image_byte(p, base + 2));
        assert(b[base + 3] == image_byte(p, base + 3));
        assert(b[base + 4] == image_byte(p, base + 4));
        assert(b[base + 5] == image_byte(p, base + 5));
    }
}

/// The remaining slots of `dir` can be laid out as one gapless chain that
/// starts at `cur` and ends at `e`.
pub open spec fn chain_from(dir: Seq<Option<(u16, u16)>>, w: Seq<u16>, cur: int, e: int) -> bool {
    &&& w.no_duplicates()
    &&& w.len() == count_live(dir)
    &&& forall|i: int| 0 <= i < w.len() ==> live(dir, #[trigger] w[i] as int)
    &&& forall|t: int| live(dir, t) ==> w.contains(t as u16)
    &&& (w.len() > 0 ==> slot_off(dir, w[0] as int) == cur)
    &&& forall|i: int|
        1 <= i < w.len() ==> slot_off(dir, #[trigger] w[i] as int) == slot_end(dir, w[i - 1] as int)
    &&& (w.len() == 0 ==> cur == e)
    &&& (w.len() > 0 ==> slot_end(dir, w.last() as int) == e)
}

/// Offsets never decrease along a chain.
pub proof fn lemma_from_mono(dir: Seq<Option<(u16, u16)>>, w: Seq<u16>, i: int, j: int)
    requires
        forall|i2: int| 0 <= i2 < w.len() ==> live(dir, #[trigger] w[i2] as int),
        forall|i2: int|
            1 <= i2 < w.len() ==> slot_off(dir, #[trigger] w[i2] as int) == slot_end(
                dir,
                w[i2 - 1] as int,
            ),
        0 <= i < j < w.len(),
    ensures
        slot_end(dir, w[i] as int) <= slot_off(dir, w[j] as int),
    decreases j - i,
{
    if j > i + 1 {
        lemma_from_mono(dir, w, i, j - 1);
    }
}

/// Before a zero-length slot at `cur`, every chain position is itself a
/// zero-length slot at `cur`.
proof fn lemma_chain_zero_prefix(
    dir: Seq<Option<(u16, u16)>>,
    w: Seq<u16>,
    cur: int,
    jg: int,
)
    requires
        forall|i: int| 0 <= i < w.len() ==> live(dir, #[trigger] w[i] as int),
        forall|i: int|
            1 <= i < w.len() ==> slot_off(dir, #[trigger] w[i] as int) == slot_end(
                dir,
                w[i - 1] as int,
            ),
        w.len() > 0 ==> slot_off(dir, w[0] as int) == cur,
        0 <= jg < w.len(),
        slot_off(dir, w[jg] as int) == cur,
        slot_len(dir, w[jg] as int) == 0,
    ensures
        forall|i: int|
            0 <= i <= jg ==> slot_off(dir, #[trigger] w[i] as int) == cur && slot_end(
                dir,
                w[i] as int,
            ) == cur,
{
    assert forall|i: int|
        0 <= i <= jg implies slot_off(dir, #[trigger] w[i] as int) == cur && slot_end(
        dir,
        w[i] as int,
    ) == cur by {
        if i < jg {
            if i > 0 {
                lemma_from_mono(dir, w, 0, i);
                assert(slot_end(dir, w[0] as int) >= cur);
            }
            lemma_from_mono(dir, w, i, jg);
            assert(slot_end(dir, w[i] as int) <= cur);
            assert(slot_off(dir, w[i] as int) >= cur || i == 0);
        }
    }
}

/// Dropping chain position `jg` keeps liveness, membership and links when
/// the dropped slot is zero-length at the current cursor.
#[verifier::rlimit(100)]
#[verifier::spinoff_prover]
proof fn lemma_chain_zero_core(
    dir: Seq<Option<(u16, u16)>>,
    w: Seq<u16>,
    cur: int,
    jg: int,
)
    requires
        dir.len() <= 0x10000,
        w.no_duplicates(),
        forall|i: int| 0 <= i < w.len() ==> live(dir, #[trigger] w[i] as int),
        forall|t: int| live(dir, t) ==> w.contains(t as u16),
        forall|i: int|
            1 <= i < w.len() ==> slot_off(dir, #[trigger] w[i] as int) == slot_end(
                dir,
                w[i - 1] as int,
            ),
        0 <= jg < w.len(),
        forall|i: int|
            0 <= i <= jg ==> slot_off(dir, #[trigger] w[i] as int) == cur && slot_end(
                dir,
                w[i] as int,
            ) == cur,
    ensures
        forall|i: int|
            0 <= i < w.remove(jg).len() ==> live(
                dir.update(w[jg] as int, None),
                #[trigger] w.remove(jg)[i] as int,
            ),
        forall|t: int|
            live(dir.update(w[jg] as int, None), t) ==> w.remove(jg).contains(t as u16),
        forall|i: int|
            1 <= i < w.remove(jg).len() ==> slot_off(
                dir.update(w[jg] as int, None),
                #[trigger] w.remove(jg)[i] as int,
            ) == slot_end(dir.update(w[jg] as int, None), w.remove(jg)[i - 1] as int),
{
    let g = w[jg];
    let dir2 = dir.update(g as int, None);
    let w2 = w.remove(jg);
    assert forall|i: int| 0 <= i < w2.len() implies live(dir2, #[trigger] w2[i] as int) by {
        if i < jg {
            assert(w2[i] == w[i]);
        } else {
            assert(w2[i] == w[i + 1]);
        }
        assert(w2[i] != g);
    }
    assert forall|t: int| live(dir2, t) implies w2.contains(t as u16) by {
        assert(live(dir, t) && t != g as int);
        let wt = choose|wt: int| 0 <= wt < w.len() && w[wt] == t as u16;
        assert(wt != jg);
        if wt < jg {
            assert(w2[wt] == t as u16);
        } else {
            assert(w2[wt - 1] == t as u16);
        }
    }
    assert forall|i: int|
        1 <= i < w2.len() implies slot_off(dir2, #[trigger] w2[i] as int) == slot_end(
        dir2,
        w2[i - 1] as int,
    ) by {
        if i < jg {
            assert(w2[i] == w[i] && w2[i - 1] == w[i - 1]);
        } else if i == jg {
            assert(w2[i] == w[i + 1] && w2[i - 1] == w[i - 1]);
            assert(slot_off(dir, w[i + 1] as int) == slot_end(dir, w[i] as int));
            assert(slot_end(dir, w[i] as int) == cur);
            assert(slot_end(dir, w[i - 1] as int) == cur);
        } else {
            assert(w2[i] == w[i + 1] && w2[i - 1] == w[i]);
        }
    }
}

/// The zero-length case of the greedy exchange: a zero-length slot at `cur`
/// can always be taken first.
#[verifier::rlimit(100)]
#[verifier::spinoff_prover]
proof fn lemma_chain_exchange_zero(
    dir: Seq<Option<(u16, u16)>>,
    w: Seq<u16>,
    cur: int,
    e: int,
    g: u16,
)
    requires
        dir.len() <= 0x10000,
        chain_from(dir, w, cur, e),
        live(dir, g as int),
        slot_off(dir, g as int) == cur,
        slot_len(dir, g as int) == 0,
    ensures
        exists|w2: Seq<u16>|
            #[trigger] chain_from(dir.update(g as int, None), w2, cur + slot_len(dir, g as int), e),
{
    let l = slot_len(dir, g as int);
    let dir2 = dir.update(g as int, None);
    lemma_count_live_clear(dir, g as int);
    assert(w.contains(g));
    let jg = choose|jg: int| 0 <= jg < w.len() && w[jg] == g;
    lemma_chain_zero_prefix(dir, w, cur, jg);
    lemma_chain_zero_core(dir, w, cur, jg);
    let w2 = w.remove(jg);
    if w2.len() > 0 {
        if jg == 0 {
            assert(w2[0] == w[1]);
            assert(slot_off(dir, w[1] as int) == slot_end(dir, w[0] as int));
        } else {
            assert(w2[0] == w[0]);
        }
        if jg == w.len() - 1 {
            assert(w2.last() == w[w.len() - 2]);
            assert(slot_off(dir, w[w.len() - 1] as int) == slot_end(dir, w[w.len() - 2] as int));
            assert(slot_end(dir, w.last() as int) == e);
            assert(slot_end(dir, w[jg] as int) == cur);
        } else {
            assert(w2.last() == w.last());
        }
    } else {
        assert(w.len() == 1 && jg == 0);
        assert(slot_end(dir, w[0] as int) == e);
    }
    assert(w2.no_duplicates());
    assert(w2.len() == count_live(dir2));
    assert(w2.len() > 0 ==> slot_off(dir2, w2[0] as int) == cur + l);
    assert(w2.len() == 0 ==> cur + l == e);
    assert(w2.len() > 0 ==> slot_end(dir2, w2.last() as int) == e);
    assert(chain_from(dir2, w2, cur + l, e));
}

/// The non-zero case of the greedy exchange: with no zero-length slot
/// waiting at `cur`, the record starting there leads every chain.
#[verifier::rlimit(100)]
#[verifier::spinoff_prover]
proof fn lemma_chain_exchange_front(
    dir: Seq<Option<(u16, u16)>>,
    w: Seq<u16>,
    cur: int,
    e: int,
    g: u16,
)
    requires
        dir.len() <= 0x10000,
        chain_from(dir, w, cur, e),
        live(dir, g as int),
        slot_off(dir, g as int) == cur,
        slot_len(dir, g as int) > 0,
        forall|t: int| live(dir, t) ==> !(slot_off(dir, t) == cur && slot_len(dir, t) == 0),
    ensures
        exists|w2: Seq<u16>|
            #[trigger] chain_from(dir.update(g as int, None), w2, cur + slot_len(dir, g as int), e),
{
    let l = slot_len(dir, g as int);
    let dir2 = dir.update(g as int, None);
    lemma_count_live_clear(dir, g as int);
    assert(w.contains(g));
    let jg = choose|jg: int| 0 <= jg < w.len() && w[jg] == g;

        // No zero-length slot waits at `cur`, so `g` must lead the chain.
        assert(w.len() > 0);
        if w[0] != g {
            assert(live(dir, w[0] as int) && slot_off(dir, w[0] as int) == cur);
            assert(slot_len(dir, w[0] as int) > 0);
            lemma_from_mono(dir, w, 0, jg);
            assert(false);
        }
        let w2 = w.drop_first();
        assert forall|i: int| 0 <= i < w2.len() implies live(dir2, #[trigger] w2[i] as int) by {
            assert(w2[i] == w[i + 1]);
            assert(w[i + 1] != g);
        }
        assert forall|t: int| live(dir2, t) implies w2.contains(t as u16) by {
            assert(live(dir, t) && t != g as int);
            let wt = choose|wt: int| 0 <= wt < w.len() && w[wt] == t as u16;
            assert(wt != 0);
            assert(w2[wt - 1] == t as u16);
        }
        assert forall|i: int|
            1 <= i < w2.len() implies slot_off(dir2, #[trigger] w2[i] as int) == slot_end(
            dir2,
            w2[i - 1] as int,
        ) by {
            assert(w2[i] == w[i + 1] && w2[i - 1] == w[i]);
        }
        if w2.len() > 0 {
            assert(w2[0] == w[1]);
            assert(slot_off(dir, w[1] as int) == slot_end(dir, w[0] as int) == cur + l);
            assert(w2.last() == w.last());
        } else {
            assert(slot_end(dir, w[0] as int) == e);
        }
        assert(chain_from(dir2, w2, cur + l, e));
}

/// Taking one fitting slot off the front region of a chainable directory
/// leaves a chainable remainder: the greedy reconstruction never dead-ends.
pub proof fn lemma_chain_exchange(
    dir: Seq<Option<(u16, u16)>>,
    w: Seq<u16>,
    cur: int,
    e: int,
    g: u16,
)
    requires
        dir.len() <= 0x10000,
        chain_from(dir, w, cur, e),
        live(dir, g as int),
        slot_off(dir, g as int) == cur,
        slot_len(dir, g as int) == 0 || (forall|t: int|
            live(dir, t) ==> !(slot_off(dir, t) == cur && slot_len(dir, t) == 0)),
    ensures
        exists|w2: Seq<u16>|
            #[trigger] chain_from(dir.update(g as int, None), w2, cur + slot_len(dir, g as int), e),
{
    if slot_len(dir, g as int) == 0 {
        lemma_chain_exchange_zero(dir, w, cur, e, g);
    } else {
        lemma_chain_exchange_front(dir, w, cur, e, g);
    }
}

/// A directory never holds more live slots than entries.
pub proof fn lemma_count_live_le(s: Seq<Option<(u16, u16)>>)
    ensures
        count_live(s) <= s.len(),
    decreases s.len(),
{
    if s.len() > 0 {
        lemma_count_live_le(s.drop_last());
    }
}

/// Filling a dead slot above every live one appends to the triple list.
pub proof fn lemma_live_triples_fill(s: Seq<Option<(u16, u16)>>, id: int, v: (u16, u16))
    requires
        0 <= id < s.len(),
        s[id] is None,
        forall|t: int| id < t < s.len() ==> s[t] is None,
    ensures
        live_triples(s.update(id, Some(v))) =~= live_triples(s).push(((id as u16), v.0, v.1)),
    decreases s.len(),
{
    let s2 = s.update(id, Some(v));
    if id == s.len() - 1 {
        assert(s2.drop_last() =~= s.drop_last());
        assert(live_triples(s) =~= live_triples(s.drop_last()));
    } else {
        lemma_live_triples_fill(s.drop_last(), id, v);
        assert(s2.drop_last() =~= s.drop_last().update(id, Some(v)));
        assert(s2.last() == s.last());
        assert(s.last() is None);
        assert(live_triples(s2) =~= live_triples(s2.drop_last()));
        assert(live_triples(s) =~= live_triples(s.drop_last()));
    }
}

/// A directory is determined by its length and its triple list.
pub proof fn lemma_dir_from_triples(a: Seq<Option<(u16, u16)>>, b: Seq<Option<(u16, u16)>>)
    requires
        a.len() == b.len(),
        a.len() <= 0x10000,
        live_triples(a) =~= live_triples(b),
    ensures
        a =~= b,
    decreases a.len(),
{
    if a.len() > 0 {
        lemma_live_triples(a.drop_last());
        lemma_live_triples(b.drop_last());
        if a.last() is Some && b.last() is Some {
            let ta = live_triples(a);
            assert(ta.last() == (((a.len() - 1) as u16), a.last()->Some_0.0, a.last()->Some_0.1));
            assert(live_triples(b).last() == (((b.len() - 1) as u16), b.last()->Some_0.0,
            b.last()->Some_0.1));
            assert(a.last() == b.last());
            assert(live_triples(a).drop_last() =~= live_triples(a.drop_last()));
            assert(live_triples(b).drop_last() =~= live_triples(b.drop_last()));
            lemma_dir_from_triples(a.drop_last(), b.drop_last());
        } else if a.last() is None && b.last() is None {
            assert(live_triples(a) =~= live_triples(a.drop_last()));
            assert(live_triples(b) =~= live_triples(b.drop_last()));
            lemma_dir_from_triples(a.drop_last(), b.drop_last());
        } else if a.last() is Some {
            assert(live_triples(a).last().0 == (a.len() - 1) as u16);
            assert(live_triples(b) =~= live_triples(b.drop_last()));
            assert(live_triples(b).len() > 0);
            assert(live_triples(b.drop_last())[live_triples(b).len() - 1].0 < b.drop_last().len());
            assert(false);
        } else {
            assert(live_triples(b).last().0 == (b.len() - 1) as u16);
            assert(live_triples(a) =~= live_triples(a.drop_last()));
            assert(live_triples(a.drop_last())[live_triples(a).len() - 1].0 < a.drop_last().len());
            assert(false);
        }
        assert(a =~= b) by {
            assert(a.drop_last() =~= b.drop_last());
            assert(a.last() == b.last());
            assert forall|i: int| 0 <= i < a.len() implies a[i] == b[i] by {
                if i < a.len() - 1 {
                    assert(a.drop_last()[i] == b.drop_last()[i]);
                }
            }
        }
    }
}

/// The first `k` parsed triples read back off the bytes.
pub open spec fn triples_match(b: Seq<u8>, trs: Seq<(u16, u16, u16)>) -> bool {
    forall|j: int|
        0 <= j < trs.len() ==> {
            let tr = #[trigger] trs[j];
            &&& tr.2 as int == le16(b[PAGE_SIZE - 14 - 6 * j], b[PAGE_SIZE - 14 - 6 * j + 1])
            &&& tr.1 as int == le16(b[PAGE_SIZE - 14 - 6 * j + 2], b[PAGE_SIZE - 14 - 6 * j + 3])
            &&& tr.0 as int == le16(b[PAGE_SIZE - 14 - 6 * j + 4], b[PAGE_SIZE - 14 - 6 * j + 5])
        }
}

/// Triples parsed off a well-formed page's image are that page's triples.
pub proof fn lemma_parsed_triples(p: Page, b: Seq<u8>, trs: Seq<(u16, u16, u16)>)
    requires
        p.wf(),
        image_of(p) =~= b,
        triples_match(b, trs),
        trs.len() <= p.num_slots(),
    ensures
        forall|j: int| 0 <= j < trs.len() ==> #[trigger] trs[j] == live_triples(p.dir())[j],
{
    lemma_decode(p, b);
    assert forall|j: int| 0 <= j < trs.len() implies #[trigger] trs[j] == live_triples(p.dir())[j] by {
        let tr = trs[j];
        let tp = live_triples(p.dir())[j];
        assert(tr.2 as int == tp.2 as int && tr.1 as int == tp.1 as int && tr.0 as int == tp.0
            as int);
    }
}

/// A byte string that is not a valid image matches no well-formed page.
pub proof fn lemma_invalid_no_match(b: Seq<u8>)
    requires
        !valid_image(b),
    ensures
        forall|p: Page| !(#[trigger] p.wf() && image_of(p) =~= b),
{
    assert forall|p: Page| !(#[trigger] p.wf() && image_of(p) =~= b) by {
        if p.wf() && image_of(p) =~= b {
            assert(valid_image(b));
        }
    }
}

/// Parse the slot directory off a page image. Rejects, among others, any
/// image whose directory region no well-formed page could have written.
#[verifier::rlimit(100)]
#[verifier::spinoff_prover]
fn parse_dir(data: &Vec<u8>) -> (r: Option<Vec<Option<(u16, u16)>>>)
    ensures
        match r {
            Some(v) => {
                &&& data@.len() == PAGE_SIZE
                &&& count_live(v@) as int == le16(data@[PAGE_SIZE - 4], data@[PAGE_SIZE - 3])
                &&& v@.len() <= MAX_SLOTS
                &&& count_live(v@) <= MAX_SLOTS
                &&& (v@.len() > 0 ==> v@.last() is Some)
                &&& (count_live(v@) == 0 ==> v@.len() == 0 && le16(
                    data@[PAGE_SIZE - 8],
                    data@[PAGE_SIZE - 7],
                ) == 0 && le16(data@[PAGE_SIZE - 6], data@[PAGE_SIZE - 5]) == 0)
                &&& (count_live(v@) > 0 ==> v@.len() as int == le16(
                    data@[PAGE_SIZE - 8],
                    data@[PAGE_SIZE - 7],
                ) + 1)
                &&& triples_match(data@, live_triples(v@))
            },
            None => forall|p: Page| !(#[trigger] p.wf() && image_of(p) =~= data@),
        },
        forall|p: Page|
            #[trigger] p.wf() && image_of(p) =~= data@ ==> r is Some && (r->Some_0)@ =~= p.dir(),
{
    if data.len() != PAGE_SIZE {
        proof {
            assert forall|p: Page| p.wf() && image_of(p) =~= data@ implies false by {
                assert(image_of(p).len() == PAGE_SIZE);
            }
            assert(!valid_image(data@));
            lemma_invalid_no_match(data@);
        }
        return None;
    }
    let n16 = read_u16_at(data, PAGE_SIZE - 4);
    let fur16 = read_u16_at(data, PAGE_SIZE - 6);
    let maxs = read_u16_at(data, PAGE_SIZE - 8);
    let n = n16 as usize;
    if n > MAX_SLOTS {
        proof {
            assert forall|p: Page| p.wf() && image_of(p) =~= data@ implies false by {
                lemma_decode(p, data@);
                lemma_count_live_le(p.dir());
            }
            assert(!valid_image(data@));
            lemma_invalid_no_match(data@);
        }
        return None;
    }
    if n == 0 && (maxs != 0 || fur16 != 0) {
        proof {
            assert forall|p: Page| p.wf() && image_of(p) =~= data@ implies false by {
                lemma_decode(p, data@);
                assert(p.num_slots() == 0);
                assert(p.dir().len() == 0);
                assert(max_slot_of(p) == 0 && furthest_field(p) == 0);
            }
            assert(!valid_image(data@));
            lemma_invalid_no_match(data@);
        }
        return None;
    }
    let slots_len: usize = if n == 0 {
        0
    } else {
        maxs as usize + 1
    };
    if slots_len > MAX_SLOTS || (n > 0 && n > slots_len) {
        proof {
            assert forall|p: Page| p.wf() && image_of(p) =~= data@ implies false by {
                lemma_decode(p, data@);
                lemma_count_live_le(p.dir());
                assert(p.num_slots() as int == n as int);
                assert(p.num_slots() > 0);
                assert(p.dir().len() > 0) by {
                    if p.dir().len() == 0 {
                        assert(count_live(p.dir()) == 0);
                    }
                }
                assert(max_slot_of(p) as int == p.dir().len() - 1);
                assert(p.dir().len() == slots_len as int);
            }
            assert(!valid_image(data@));
            lemma_invalid_no_match(data@);
        }
        return None;
    }
    let mut slots: Vec<Option<(u16, u16)>> = Vec::new();
    let mut z: usize = 0;
    while z < slots_len
        invariant
            z <= slots_len,
            slots@.len() == z as int,
            forall|j: int| 0 <= j < z ==> slots@[j] is None,
        decreases slots_len - z,
    {
        slots.push(None);
        z = z + 1;
    }
    proof {
        lemma_triples_none(slots@);
    }
    let ghost mut ptrs: Seq<(u16, u16, u16)> = Seq::empty();
    let mut prev: u16 = 0;
    let mut k: usize = 0;
    while k < n
        invariant
            data@.len() == PAGE_SIZE,
            n == n16 as usize,
            n <= MAX_SLOTS,
            k <= n,
            n > 0 ==> slots_len as int == maxs as int + 1,
            n16 as int == le16(data@[PAGE_SIZE - 4], data@[PAGE_SIZE - 3]),
            maxs as int == le16(data@[PAGE_SIZE - 8], data@[PAGE_SIZE - 7]),
            slots_len <= MAX_SLOTS,
            slots@.len() == slots_len as int,
            ptrs.len() == k as int,
            triples_match(data@, ptrs),
            forall|j: int| 0 <= j < k ==> (#[trigger] ptrs[j]).0 < slots_len,
            forall|j1: int, j2: int|
                0 <= j1 < j2 < k ==> (#[trigger] ptrs[j1]).0 < (#[trigger] ptrs[j2]).0,
            k > 0 ==> prev == ptrs[k as int - 1].0,
            live_triples(slots@) =~= ptrs,
            count_live(slots@) == k as nat,
        decreases n - k,
    {
        let base = PAGE_SIZE - 14 - 6 * k;
        let l = read_u16_at(data, base);
        let o = read_u16_at(data, base + 2);
        let id = read_u16_at(data, base + 4);
        if id as usize >= slots_len || (k > 0 && id <= prev) {
            proof {
                assert forall|p: Page| p.wf() && image_of(p) =~= data@ implies false by {
                    lemma_decode(p, data@);
                    lemma_live_triples(p.dir());
                    lemma_parsed_triples(p, data@, ptrs);
                    assert(p.num_slots() as int == n as int);
                    let tp = live_triples(p.dir())[k as int];
                    assert(tp.0 as int == id as int);
                    assert(tp.0 < p.dir().len());
                    assert(p.dir().len() > 0);
                    assert(max_slot_of(p) as int == p.dir().len() - 1);
                    assert(p.dir().len() == slots_len as int);
                    if k > 0 {
                        assert(live_triples(p.dir())[k as int - 1].0 == prev);
                        assert(live_triples(p.dir())[k as int - 1].0 < tp.0);
                    }
                }
                assert(!valid_image(data@));
                lemma_invalid_no_match(data@);
            }
            return None;
        }
        proof {
            assert forall|t: int| (id as int) <= t && t < slots@.len() implies slots@[t] is None by {
                if slots@[t] is Some {
                    assert(live(slots@, t));
                    lemma_live_triples(slots@);
                    let j = choose|j: int|
                        0 <= j < live_triples(slots@).len() && live_triples(slots@)[j].0 == t as u16;
                    assert(live_triples(slots@)[j] == ptrs[j]);
                    assert(ptrs[j].0 == t as u16);
                    assert(k > 0);
                    if j < k - 1 {
                        assert(ptrs[j].0 < ptrs[k as int - 1].0);
                    }
                    assert(ptrs[j].0 <= prev);
                    assert(t <= prev as int);
                    assert(prev < id);
                }
            }
            lemma_live_triples_fill(slots@, id as int, (o, l));
            lemma_count_live_fill(slots@, id as int, (o, l));
        }
        slots.set(id as usize, Some((o, l)));
        proof {
            ptrs = ptrs.push((id, o, l));
        }
        prev = id;
        k = k + 1;
    }
    if n > 0 && prev as usize != slots_len - 1 {
        proof {
            assert forall|p: Page| p.wf() && image_of(p) =~= data@ implies false by {
                lemma_decode(p, data@);
                lemma_live_triples(p.dir());
                lemma_parsed_triples(p, data@, ptrs);
                assert(p.num_slots() as int == n as int);
                assert(p.dir().len() > 0);
                assert(p.dir().last() is Some);
                assert(live(p.dir(), p.dir().len() - 1));
                let j = choose|j: int|
                    0 <= j < live_triples(p.dir()).len() && live_triples(p.dir())[j].0 == (p.dir().len() - 1) as u16;
                assert(live_triples(p.dir())[j].0 < p.dir().len());
                assert(j == live_triples(p.dir()).len() - 1) by {
                    if j < live_triples(p.dir()).len() - 1 {
                        assert(live_triples(p.dir())[j].0 < live_triples(p.dir())[live_triples(
                            p.dir(),
                        ).len() - 1].0);
                        assert(live_triples(p.dir())[live_triples(p.dir()).len() - 1].0 < p.dir().len());
                    }
                }
                assert(ptrs[k as int - 1].0 as int == p.dir().len() - 1);
                assert(max_slot_of(p) as int == p.dir().len() - 1);
                assert(p.dir().len() == slots_len as int);
            }
            assert(!valid_image(data@));
            lemma_invalid_no_match(data@);
        }
        return None;
    }
    proof {
        if n > 0 {
            lemma_live_triples(slots@);
            assert(live_triples(slots@)[k as int - 1] == ptrs[k as int - 1]);
            assert(live(slots@, ptrs[k as int - 1].0 as int));
            assert(ptrs[k as int - 1].0 as int == slots@.len() - 1);
            assert(slots@.last() is Some);
        }
        assert forall|p: Page|
            p.wf() && image_of(p) =~= data@ implies slots@ =~= p.dir() by {
            lemma_decode(p, data@);
            lemma_live_triples(p.dir());
            lemma_triples_len(p.dir());
            lemma_parsed_triples(p, data@, ptrs);
            assert(p.num_slots() as int == n as int);
            assert forall|j: int| 0 <= j < k implies ptrs[j] == live_triples(p.dir())[j] by {}
            assert(live_triples(slots@) =~= live_triples(p.dir()));
            if n == 0 {
                assert(p.dir().len() == 0) by {
                    if p.dir().len() > 0 {
                        assert(p.dir().last() is Some);
                        assert(live(p.dir(), p.dir().len() - 1));
                        lemma_count_live_pos(p.dir(), p.dir().len() - 1);
                    }
                }
            } else {
                assert(max_slot_of(p) as int == p.dir().len() - 1);
                assert(p.dir().len() > 0) by {
                    if p.dir().len() == 0 {
                        assert(count_live(p.dir()) == 0);
                    }
                }
                assert(p.dir().len() == slots_len as int);
            }
            lemma_dir_from_triples(slots@, p.dir());
        }
    }
    Some(slots)
}

/// A directory with live count zero is dead everywhere.
pub proof fn lemma_count_zero_none(s: Seq<Option<(u16, u16)>>)
    requires
        count_live(s) == 0,
    ensures
        forall|t: int| 0 <= t < s.len() ==> s[t] is None,
{
    assert forall|t: int| 0 <= t < s.len() implies s[t] is None by {
        if s[t] is Some {
            lemma_count_live_pos(s, t);
        }
    }
}

/// Bytes of the triple region re-encode the parsed triples.
#[verifier::rlimit(100)]
#[verifier::spinoff_prover]
proof fn lemma_triples_encode(b: Seq<u8>, trs: Seq<(u16, u16, u16)>)
    requires
        b.len() == PAGE_SIZE,
        triples_match(b, trs),
    ensures
        forall|j: int, c: int|
            0 <= j < trs.len() && 0 <= c < 6 ==> #[trigger] b[PAGE_SIZE - 14 - 6 * j + c] == ({
                let tr = trs[j];
                if c < 2 {
                    word_byte(tr.2, c)
                } else if c < 4 {
                    word_byte(tr.1, c - 2)
                } else {
                    word_byte(tr.0, c - 4)
                }
            }),
{
    assert forall|j: int, c: int|
        0 <= j < trs.len() && 0 <= c < 6 implies #[trigger] b[PAGE_SIZE - 14 - 6 * j + c] == ({
        let tr = trs[j];
        if c < 2 {
            word_byte(tr.2, c)
        } else if c < 4 {
            word_byte(tr.1, c - 2)
        } else {
            word_byte(tr.0, c - 4)
        }
    }) by {
        let tr = trs[j];
        lemma_le16_bytes(b[PAGE_SIZE - 14 - 6 * j], b[PAGE_SIZE - 14 - 6 * j + 1]);
        lemma_le16_bytes(b[PAGE_SIZE - 14 - 6 * j + 2], b[PAGE_SIZE - 14 - 6 * j + 3]);
        lemma_le16_bytes(b[PAGE_SIZE - 14 - 6 * j + 4], b[PAGE_SIZE - 14 - 6 * j + 5]);
    }
}

/// A page whose header fields and data bytes all read back off `b`
/// serializes exactly to `b`.
#[verifier::rlimit(100)]
#[verifier::spinoff_prover]
pub proof fn lemma_image_matches(q: Page, b: Seq<u8>)
    requires
        q.num_slots() <= MAX_SLOTS,
        live_triples(q.dir()).len() == q.num_slots(),
        b.len() == PAGE_SIZE,
        q.id() as int == le16(b[PAGE_SIZE - 2], b[PAGE_SIZE - 1]),
        q.num_slots() as int == le16(b[PAGE_SIZE - 4], b[PAGE_SIZE - 3]),
        furthest_field(q) as int == le16(b[PAGE_SIZE - 6], b[PAGE_SIZE - 5]),
        max_slot_of(q) as int == le16(b[PAGE_SIZE - 8], b[PAGE_SIZE - 7]),
        triples_match(b, live_triples(q.dir())),
        forall|i: int| 0 <= i < PAGE_SIZE - 8 - 6 * q.num_slots() ==> q.mem()[i] == b[i],
    ensures
        image_of(q) =~= b,
{
    lemma_le16_bytes(b[PAGE_SIZE - 2], b[PAGE_SIZE - 1]);
    lemma_le16_bytes(b[PAGE_SIZE - 4], b[PAGE_SIZE - 3]);
    lemma_le16_bytes(b[PAGE_SIZE - 6], b[PAGE_SIZE - 5]);
    lemma_le16_bytes(b[PAGE_SIZE - 8], b[PAGE_SIZE - 7]);
    lemma_triples_encode(b, live_triples(q.dir()));
    lemma_triples_len(q.dir());
    let n = q.num_slots() as int;
    assert(image_byte(q, PAGE_SIZE - 1) == b[PAGE_SIZE - 1]);
    assert(image_byte(q, PAGE_SIZE - 2) == b[PAGE_SIZE - 2]);
    assert(image_byte(q, PAGE_SIZE - 3) == b[PAGE_SIZE - 3]);
    assert(image_byte(q, PAGE_SIZE - 4) == b[PAGE_SIZE - 4]);
    assert(image_byte(q, PAGE_SIZE - 5) == b[PAGE_SIZE - 5]);
    assert(image_byte(q, PAGE_SIZE - 6) == b[PAGE_SIZE - 6]);
    assert(image_byte(q, PAGE_SIZE - 7) == b[PAGE_SIZE - 7]);
    assert(image_byte(q, PAGE_SIZE - 8) == b[PAGE_SIZE - 8]);
    assert forall|i: int| 0 <= i < PAGE_SIZE - 8 - 6 * n implies image_byte(q, i) == b[i] by {}
    assert forall|i: int|
        PAGE_SIZE - 8 - 6 * n <= i && i < PAGE_SIZE - 8 implies image_byte(q, i) == b[i] by {
        let d = PAGE_SIZE - 9 - i;
        lemma_triple_locate(d, n);
        let j = d / 6;
        let c = 5 - (d % 6);
        assert(i == PAGE_SIZE - 14 - 6 * j + c);
        assert(b[PAGE_SIZE - 14 - 6 * j + c] == ({
            let tr = live_triples(q.dir())[j];
            if c < 2 {
                word_byte(tr.2, c)
            } else if c < 4 {
                word_byte(tr.1, c - 2)
            } else {
                word_byte(tr.0, c - 4)
            }
        }));
        assert(image_byte(q, i) == triple_byte_at(live_triples(q.dir()), i));
    }
    assert forall|i: int| 0 <= i < PAGE_SIZE implies image_of(q)[i] == b[i] by {
        if i >= PAGE_SIZE - 8 {
        } else if i >= PAGE_SIZE - 8 - 6 * n {
            assert(image_byte(q, i) == b[i]);
        } else {
            assert(image_byte(q, i) == b[i]);
        }
    }
}

/// The picked slots so far form a gapless chain of the directory from
/// offset zero to `cur`, and `scratch` holds exactly the unpicked slots.
pub open spec fn picks_ok(
    slots: Seq<Option<(u16, u16)>>,
    scratch: Seq<Option<(u16, u16)>>,
    ord: Seq<u16>,
    cur: int,
) -> bool {
    &&& scratch.len() == slots.len()
    &&& forall|t: int|
        0 <= t < slots.len() ==> #[trigger] scratch[t] == (if ord.contains(t as u16) {
            None::<(u16, u16)>
        } else {
            slots[t]
        })
    &&& ord.no_duplicates()
    &&& forall|i: int| 0 <= i < ord.len() ==> live(slots, #[trigger] ord[i] as int)
    &&& (ord.len() > 0 ==> slot_off(slots, ord[0] as int) == 0)
    &&& forall|i: int|
        1 <= i < ord.len() ==> slot_off(slots, #[trigger] ord[i] as int) == slot_end(
            slots,
            ord[i - 1] as int,
        )
    &&& cur == (if ord.len() == 0 {
        0int
    } else {
        slot_end(slots, ord.last() as int)
    })
}

/// An all-dead directory has no triples.
pub proof fn lemma_triples_none(s: Seq<Option<(u16, u16)>>)
    requires
        forall|j: int| 0 <= j < s.len() ==> s[j] is None,
    ensures
        live_triples(s) =~= Seq::<(u16, u16, u16)>::empty(),
        count_live(s) == 0,
    decreases s.len(),
{
    if s.len() > 0 {
        lemma_triples_none(s.drop_last());
    }
}

impl Page {
    /// Serialize the page: exactly `PAGE_SIZE` bytes. Record data occupies
    /// the low end; the header sits at the high end, growing downward, with
    /// one `(length, offset, identifier)` triple per live slot in ascending
    /// identifier order.
    #[verifier::rlimit(100)]
    #[verifier::spinoff_prover]
    pub fn get_bytes(&self) -> (r: Vec<u8>)
        requires
            self.wf(),
        ensures
            r@ =~= image_of(*self),
            r@.len() == PAGE_SIZE,
    {
        let mut out = copy_bytes(&self.data);
        proof {
            lemma_live_triples(self.dir());
        }
        put_u16_at(&mut out, PAGE_SIZE - 2, self.page_id);
        put_u16_at(&mut out, PAGE_SIZE - 4, self.num_live);
        let fur = match self.furthest {
            None => 0u16,
            Some(f) => f,
        };
        put_u16_at(&mut out, PAGE_SIZE - 6, fur);
        let maxs: u16 = if self.slots.len() == 0 {
            0u16
        } else {
            (self.slots.len() - 1) as u16
        };
        put_u16_at(&mut out, PAGE_SIZE - 8, maxs);
        proof {
            assert(self.num_slots() <= MAX_SLOTS);
        }
        let mut t: usize = 0;
        let mut k: usize = 0;
        while t < self.slots.len()
            invariant
                self.slots@.len() <= MAX_SLOTS,
                self.num_slots() == count_live(self.dir()),
                self.num_slots() <= MAX_SLOTS,
                t <= self.slots@.len(),
                k == count_live(self.dir().subrange(0, t as int)),
                k <= self.num_slots(),
                out@.len() == PAGE_SIZE,
                out@[PAGE_SIZE - 2] == lo16(self.id()),
                out@[PAGE_SIZE - 1] == hi16(self.id()),
                out@[PAGE_SIZE - 4] == lo16(self.num_slots() as u16),
                out@[PAGE_SIZE - 3] == hi16(self.num_slots() as u16),
                out@[PAGE_SIZE - 6] == lo16(furthest_field(*self)),
                out@[PAGE_SIZE - 5] == hi16(furthest_field(*self)),
                out@[PAGE_SIZE - 8] == lo16(max_slot_of(*self)),
                out@[PAGE_SIZE - 7] == hi16(max_slot_of(*self)),
                forall|i: int|
                    PAGE_SIZE - 8 - 6 * k <= i < PAGE_SIZE - 8 ==> out@[i] == triple_byte_at(
                        live_triples(self.dir()),
                        i,
                    ),
                forall|i: int| 0 <= i < PAGE_SIZE - 8 - 6 * k ==> out@[i] == self.mem()[i],
            decreases self.slots@.len() - t,
        {
            proof {
                lemma_count_take(self.dir(), t as int);
                lemma_triples_step(self.dir(), t as int);
                lemma_triples_prefix(self.dir(), t as int + 1);
                lemma_triples_len(self.dir().subrange(0, t as int));
                lemma_triples_len(self.dir().subrange(0, t as int + 1));
            }
            match self.slots[t] {
                Some((o, l)) => {
                    proof {
                        let trs_t = live_triples(self.dir().subrange(0, t as int));
                        let trs_t1 = live_triples(self.dir().subrange(0, t as int + 1));
                        assert(trs_t1 =~= trs_t.push(((t as u16), o, l)));
                        assert(live_triples(self.dir()).subrange(
                            0,
                            count_live(self.dir().subrange(0, t as int + 1)) as int,
                        ) =~= trs_t1);
                        assert(trs_t1[k as int] == ((t as u16), o, l));
                        assert(trs_t1.len() == k + 1);
                        lemma_triples_len(self.dir());
                        assert(live_triples(self.dir()).subrange(
                            0,
                            count_live(self.dir().subrange(0, t as int + 1)) as int,
                        )[k as int] == live_triples(self.dir())[k as int]);
                        assert(live_triples(self.dir())[k as int] == trs_t1[k as int]);
                    }
                    let base = PAGE_SIZE - 14 - 6 * k;
                    let ghost before = out@;
                    put_u16_at(&mut out, base, l);
                    put_u16_at(&mut out, base + 2, o);
                    put_u16_at(&mut out, base + 4, t as u16);
                    proof {
                        let trs = live_triples(self.dir());
                        assert forall|i: int|
                            base <= i < base + 6 implies out@[i] == triple_byte_at(trs, i) by {
                            let c = i - base;
                            lemma_triple_pos(k as int, c);
                            assert((PAGE_SIZE - 9 - i) / 6 == k as int);
                            assert(5 - ((PAGE_SIZE - 9 - i) % 6) == c);
                        }
                    }
                    k = k + 1;
                },
                None => {},
            }
            t = t + 1;
        }
        proof {
            assert(self.dir().subrange(0, self.dir().len() as int) =~= self.dir());
            let n = self.num_slots() as int;
            assert forall|i: int| 0 <= i < PAGE_SIZE implies out@[i] == image_byte(*self, i) by {}
            assert(out@ =~= image_of(*self));
        }
        out
    }

    /// Verify that the live records tile `[0, e)` exactly, by greedily
    /// rebuilding the layout chain; yields the chain as a ghost witness.
    #[verifier::rlimit(100)]
    #[verifier::spinoff_prover]
    fn check_tiling(
        slots: &Vec<Option<(u16, u16)>>,
        count: u16,
        e: usize,
        Ghost(b): Ghost<Seq<u8>>,
    ) -> (r: Option<Ghost<Seq<u16>>>)
        requires
            count_live(slots@) == count as nat,
            slots@.len() <= MAX_SLOTS,
            count as nat <= MAX_SLOTS,
            e <= PAGE_SIZE,
            forall|j: int| live(slots@, j) ==> slot_end(slots@, j) <= e as int,
            forall|p: Page|
                #[trigger] p.wf() && image_of(p) =~= b ==> slots@ =~= p.dir() && p.packed()
                    == e as int,
        ensures
            match r {
                Some(g) => chain_ok(slots@, g@) && (if g@.len() == 0 {
                    e == 0
                } else {
                    slot_end(slots@, g@.last() as int) == e as int
                }),
                None => !valid_image(b),
            },
            forall|p: Page| #[trigger] p.wf() && image_of(p) =~= b ==> r is Some,
    {
        let ghost dirv = slots@;
        let n = count as usize;
        let slots_len = slots.len();
        // Greedily rebuild the layout chain; this verifies that the records
        // tile the packed region exactly, with no overlap or gap.
        let mut scratch: Vec<Option<(u16, u16)>> = Vec::new();
        let mut cz: usize = 0;
        while cz < slots_len
            invariant
                cz <= slots_len,
                slots_len == slots@.len(),
                scratch@ =~= slots@.subrange(0, cz as int),
            decreases slots_len - cz,
        {
            scratch.push(slots[cz]);
            cz = cz + 1;
        }
        proof {
            assert(scratch@ =~= slots@);
        }
        let ghost mut ord: Seq<u16> = Seq::empty();
        proof {
            if valid_image(b) {
                let p = choose|p: Page| #[trigger] p.wf() && image_of(p) =~= b;
                let ord_p = choose|o: Seq<u16>| p.chain(o);
                assert(p.dir() =~= dirv);
                assert(p.dir() == dirv);
                assert(chain_from(dirv, ord_p, 0, e as int));
                assert(chain_from(scratch@, ord_p, 0, e as int));
            }
        }
        let mut cur: usize = 0;
        let mut done: usize = 0;
        while done < n
            invariant
                dirv == slots@,
                slots_len == dirv.len(),
                slots_len <= MAX_SLOTS,
                n <= MAX_SLOTS,
                done <= n,
                e <= PAGE_SIZE,
                cur <= e,
                count_live(dirv) == n as nat,
                forall|j: int| live(dirv, j) ==> slot_end(dirv, j) <= e as int,
                picks_ok(dirv, scratch@, ord, cur as int),
                ord.len() == done as int,
                count_live(scratch@) == (n - done) as nat,
                valid_image(b) ==> exists|w: Seq<u16>|
                    #[trigger] chain_from(scratch@, w, cur as int, e as int),
            decreases n - done,
        {
            let mut zpick: Option<u16> = None;
            let mut zz: usize = 0;
            while zz < slots_len
                invariant
                    zz <= slots_len,
                    slots_len == scratch@.len(),
                    slots_len <= MAX_SLOTS,
                    match zpick {
                        Some(z) => live(scratch@, z as int) && slot_off(scratch@, z as int)
                            == cur as int && slot_len(scratch@, z as int) == 0,
                        None => forall|j: int|
                            0 <= j < zz ==> !(live(scratch@, j) && slot_off(scratch@, j)
                                == cur as int && slot_len(scratch@, j) == 0),
                    },
                decreases slots_len - zz,
            {
                match scratch[zz] {
                    Some((o2, l2)) => {
                        if o2 as usize == cur && l2 == 0 {
                            zpick = Some(zz as u16);
                        }
                    },
                    None => {},
                }
                zz = zz + 1;
            }
            let g: u16;
            match zpick {
                Some(zg) => {
                    g = zg;
                },
                None => {
                    let mut apick: Option<u16> = None;
                    let mut aa: usize = 0;
                    while aa < slots_len
                        invariant
                            aa <= slots_len,
                            slots_len == scratch@.len(),
                            slots_len <= MAX_SLOTS,
                            match apick {
                                Some(z) => live(scratch@, z as int) && slot_off(scratch@, z as int)
                                    == cur as int,
                                None => forall|j: int|
                                    0 <= j < aa ==> !(live(scratch@, j) && slot_off(scratch@, j)
                                        == cur as int),
                            },
                        decreases slots_len - aa,
                    {
                        match scratch[aa] {
                            Some((o2, _l2)) => {
                                if o2 as usize == cur {
                                    apick = Some(aa as u16);
                                }
                            },
                            None => {},
                        }
                        aa = aa + 1;
                    }
                    match apick {
                        None => {
                            proof {
                                assert(!valid_image(b)) by {
                                    if valid_image(b) {
                                        let w = choose|w: Seq<u16>|
                                            #[trigger] chain_from(scratch@, w, cur as int, e as int);
                                        assert(w.len() == count_live(scratch@));
                                        assert(w.len() > 0);
                                        assert(live(scratch@, w[0] as int));
                                        assert(slot_off(scratch@, w[0] as int) == cur as int);
                                    }
                                }
                                lemma_invalid_no_match(b);
                            }
                            return None;
                        },
                        Some(ag) => {
                            g = ag;
                        },
                    }
                },
            }
            let (go, gl) = match scratch[g as usize] {
                Some(pr) => pr,
                None => {
                    proof {
                        assert(false);
                    }
                    (0u16, 0u16)
                },
            };
            let ghost old_scratch = scratch@;
            scratch.set(g as usize, None);
            proof {
                lemma_count_live_clear(old_scratch, g as int);
                assert(!ord.contains(g)) by {
                    if ord.contains(g) {
                        assert(old_scratch[g as int] is None);
                    }
                }
                assert(old_scratch[g as int] == dirv[g as int]);
                assert(live(dirv, g as int));
                if valid_image(b) {
                    let w = choose|w: Seq<u16>|
                        #[trigger] chain_from(old_scratch, w, cur as int, e as int);
                    lemma_chain_exchange(old_scratch, w, cur as int, e as int, g);
                }
                let ghost ord0 = ord;
                ord = ord0.push(g);
                assert forall|t2: int|
                    0 <= t2 < dirv.len() implies #[trigger] scratch@[t2] == (if ord.contains(
                    t2 as u16,
                ) {
                    None::<(u16, u16)>
                } else {
                    dirv[t2]
                }) by {
                    if t2 == g as int {
                        assert(ord[ord.len() - 1] == g);
                        assert(ord.contains(t2 as u16));
                    } else {
                        assert(ord.contains(t2 as u16) <==> ord0.contains(t2 as u16)) by {
                            if ord.contains(t2 as u16) {
                                let wi = choose|wi: int|
                                    0 <= wi < ord.len() && ord[wi] == t2 as u16;
                                if wi == ord.len() - 1 {
                                    assert(ord[wi] == g);
                                } else {
                                    assert(ord0[wi] == t2 as u16);
                                }
                            }
                            if ord0.contains(t2 as u16) {
                                let wi = choose|wi: int|
                                    0 <= wi < ord0.len() && ord0[wi] == t2 as u16;
                                assert(ord[wi] == t2 as u16);
                            }
                        }
                    }
                }
            }
            cur = cur + gl as usize;
            done = done + 1;
        }
        if cur != e {
            proof {
                assert(!valid_image(b)) by {
                    if valid_image(b) {
                        let w = choose|w: Seq<u16>|
                            #[trigger] chain_from(scratch@, w, cur as int, e as int);
                        assert(w.len() == count_live(scratch@));
                    }
                }
                lemma_invalid_no_match(b);
            }
            return None;
        }
        proof {
            lemma_count_zero_none(scratch@);
            assert forall|t2: int| live(dirv, t2) implies ord.contains(t2 as u16) by {
                assert(scratch@[t2] is None);
            }
            assert(chain_ok(dirv, ord));
            if valid_image(b) {
                let p = choose|p: Page| #[trigger] p.wf() && image_of(p) =~= b;
            }
        }
        Some(Ghost(ord))
    }

    /// Copy the record bytes and zero the rest of the data region, checking
    /// that the image holds nothing but zeroes between the packed end and
    /// the header.
    #[verifier::rlimit(100)]
    #[verifier::spinoff_prover]
    fn build_data(data: &Vec<u8>, e: usize, count: u16) -> (r: Option<Vec<u8>>)
        requires
            data@.len() == PAGE_SIZE,
            count as nat <= MAX_SLOTS,
            e as int + HEADER_FIXED + HEADER_PER_SLOT * (count as int) <= PAGE_SIZE,
            forall|p: Page|
                #[trigger] p.wf() && image_of(p) =~= data@ ==> p.packed() == e as int
                    && p.num_slots() == count as nat,
        ensures
            match r {
                Some(v) => {
                    &&& v@.len() == PAGE_SIZE
                    &&& forall|j: int|
                        0 <= j < PAGE_SIZE ==> v@[j] == (if j < e as int {
                            data@[j]
                        } else {
                            0u8
                        })
                    &&& forall|j: int|
                        e as int <= j < PAGE_SIZE - 8 - 6 * (count as int) ==> data@[j] == 0
                },
                None => !valid_image(data@),
            },
            forall|p: Page| #[trigger] p.wf() && image_of(p) =~= data@ ==> r is Some,
    {
        let n = count as usize;
        // The data region: record bytes up to the packed end, zeroes beyond.
        let hdr_start = PAGE_SIZE - HEADER_FIXED - HEADER_PER_SLOT * n;
        let mut newdata: Vec<u8> = Vec::new();
        let mut i: usize = 0;
        while i < PAGE_SIZE
            invariant
                data@.len() == PAGE_SIZE,
                i <= PAGE_SIZE,
                e <= hdr_start <= PAGE_SIZE,
                n <= MAX_SLOTS,
                hdr_start == PAGE_SIZE - HEADER_FIXED - HEADER_PER_SLOT * n,
                newdata@.len() == i as int,
                forall|p: Page|
                    #[trigger] p.wf() && image_of(p) =~= data@ ==> p.packed() == e as int
                        && p.num_slots() == n as nat,
                forall|j: int|
                    0 <= j < i ==> newdata@[j] == (if j < e as int {
                        data@[j]
                    } else {
                        0u8
                    }),
                forall|j: int| e as int <= j < i && j < hdr_start as int ==> data@[j] == 0,
            decreases PAGE_SIZE - i,
        {
            if i < e {
                newdata.push(data[i]);
            } else {
                if i < hdr_start && data[i] != 0 {
                    proof {
                        assert forall|p: Page| p.wf() && image_of(p) =~= data@ implies false by {
                            lemma_decode(p, data@);
                            assert((i as int) < PAGE_SIZE - 8 - 6 * (p.num_slots() as int));
                            assert(data@[i as int] == p.mem()[i as int]);
                            assert(e as int <= i as int);
                            assert(p.mem()[i as int] == 0);
                        }
                        assert(!valid_image(data@));
                        lemma_invalid_no_match(data@);
                    }
                    return None;
                }
                newdata.push(0u8);
            }
            i = i + 1;
        }
        proof {
            if valid_image(data@) {
                let p = choose|p: Page| #[trigger] p.wf() && image_of(p) =~= data@;
            }
        }
        Some(newdata)
    }

    /// Rebuild a page from its serialized image: the inverse of
    /// `get_bytes`. Absent exactly when no well-formed page serializes to
    /// the given bytes; a malformed image is thereby detected.
    #[verifier::rlimit(100)]
    #[verifier::spinoff_prover]
    /// Parse the fixed header, directory, furthest slot and packed end off
    /// an image, with every check short of the tiling itself.
    #[verifier::rlimit(100)]
    #[verifier::spinoff_prover]
    fn parse_frame(data: &Vec<u8>) -> (r: Option<(Vec<Option<(u16, u16)>>, u16, u16, Option<
        u16,
    >, usize)>)
        ensures
            match r {
                Some(fr) => {
                    &&& data@.len() == PAGE_SIZE
                    &&& fr.0@.len() <= MAX_SLOTS
                    &&& count_live(fr.0@) == fr.2 as nat
                    &&& fr.2 as nat <= MAX_SLOTS
                    &&& (fr.0@.len() > 0 ==> fr.0@.last() is Some)
                    &&& fr.4 <= PAGE_SIZE
                    &&& fr.4 as int + HEADER_FIXED + HEADER_PER_SLOT * (fr.2 as int) <= PAGE_SIZE
                    &&& forall|j: int| live(fr.0@, j) ==> slot_end(fr.0@, j) <= fr.4 as int
                    &&& match fr.3 {
                        None => fr.2 == 0 && fr.4 == 0,
                        Some(fv) => fr.2 > 0 && live(fr.0@, fv as int) && slot_end(
                            fr.0@,
                            fv as int,
                        ) == fr.4 as int,
                    }
                    &&& fr.1 as int == le16(data@[PAGE_SIZE - 2], data@[PAGE_SIZE - 1])
                    &&& fr.2 as int == le16(data@[PAGE_SIZE - 4], data@[PAGE_SIZE - 3])
                    &&& (match fr.3 {
                        None => 0int,
                        Some(fv) => fv as int,
                    }) == le16(data@[PAGE_SIZE - 6], data@[PAGE_SIZE - 5])
                    &&& (if fr.0@.len() == 0 {
                        0int
                    } else {
                        fr.0@.len() - 1
                    }) == le16(data@[PAGE_SIZE - 8], data@[PAGE_SIZE - 7])
                    &&& triples_match(data@, live_triples(fr.0@))
                },
                None => forall|p: Page| !(#[trigger] p.wf() && image_of(p) =~= data@),
            },
            forall|p: Page|
                #[trigger] p.wf() && image_of(p) =~= data@ ==> r is Some && (r->Some_0).0@
                    =~= p.dir() && p.packed() == (r->Some_0).4 as int,
    {

        let slots = match parse_dir(data) {
            None => {
                proof {
                    assert(!valid_image(data@)) by {
                        if valid_image(data@) {
                            let p = choose|p: Page| #[trigger] p.wf() && image_of(p) =~= data@;
                        }
                    }
                }
                return None;
            },
            Some(v) => v,
        };
        let ghost dirv = slots@;
        let pid = read_u16_at(data, PAGE_SIZE - 2);
        let n16 = read_u16_at(data, PAGE_SIZE - 4);
        let fur16 = read_u16_at(data, PAGE_SIZE - 6);
        let n = n16 as usize;
        proof {
            assert(count_live(dirv) == n as nat);
        }
        let slots_len = slots.len();
        // Locate the furthest record: it fixes the packed end.
        let mut e: usize = 0;
        let mut fur_opt: Option<u16> = None;
        if n > 0 {
            if fur16 as usize >= slots_len {
                proof {
                    assert forall|p: Page| p.wf() && image_of(p) =~= data@ implies false by {
                        lemma_decode(p, data@);
                        assert(dirv =~= p.dir());
                        assert(p.furthest_of() == Some(fur16));
                        assert(live(p.dir(), fur16 as int));
                    }
                    assert(!valid_image(data@));
                    lemma_invalid_no_match(data@);
                }
                return None;
            }
            match slots[fur16 as usize] {
                None => {
                    proof {
                        assert forall|p: Page| p.wf() && image_of(p) =~= data@ implies false by {
                            lemma_decode(p, data@);
                            assert(dirv =~= p.dir());
                            assert(p.furthest_of() == Some(fur16));
                            assert(live(p.dir(), fur16 as int));
                        }
                        assert(!valid_image(data@));
                        lemma_invalid_no_match(data@);
                    }
                    return None;
                },
                Some((fo, fl)) => {
                    e = fo as usize + fl as usize;
                },
            }
            fur_opt = Some(fur16);
        }
        proof {
            assert forall|p: Page|
                p.wf() && image_of(p) =~= data@ implies p.packed() == e as int && p.num_slots()
                == n as nat && p.furthest_of() == fur_opt && p.id() == pid by {
                lemma_decode(p, data@);
                assert(dirv =~= p.dir());
                if n > 0 {
                    assert(p.furthest_of() == Some(fur16));
                    assert(slot_end(p.dir(), fur16 as int) == p.packed());
                } else {
                    assert(p.num_slots() == 0);
                    assert(p.furthest_of() is None);
                    let ord = choose|ord: Seq<u16>| p.chain(ord);
                    assert(ord.len() == 0);
                }
            }
        }
        // Header budget.
        if e + HEADER_FIXED + HEADER_PER_SLOT * n > PAGE_SIZE {
            proof {
                assert forall|p: Page| p.wf() && image_of(p) =~= data@ implies false by {}
                assert(!valid_image(data@));
                lemma_invalid_no_match(data@);
            }
            return None;
        }
        // Every record must end inside the packed region.
        let mut t: usize = 0;
        while t < slots_len
            invariant
                slots_len == dirv.len(),
                dirv == slots@,
                t <= slots_len,
                slots_len <= MAX_SLOTS,
                e <= PAGE_SIZE,
                forall|j: int| 0 <= j < t ==> live(dirv, j) ==> slot_end(dirv, j) <= e as int,
                forall|p: Page|
                    #[trigger] p.wf() && image_of(p) =~= data@ ==> dirv =~= p.dir() && p.packed()
                        == e as int,
            decreases slots_len - t,
        {
            match slots[t] {
                Some((o2, l2)) => {
                    if o2 as usize + l2 as usize > e {
                        proof {
                            assert forall|p: Page| p.wf() && image_of(p) =~= data@ implies false by {
                                lemma_decode(p, data@);
                                assert(dirv =~= p.dir());
                                assert(live(p.dir(), t as int));
                                assert(slot_end(p.dir(), t as int) <= p.packed());
                            }
                            assert(!valid_image(data@));
                            lemma_invalid_no_match(data@);
                        }
                        return None;
                    }
                },
                None => {},
            }
            t = t + 1;
        }
        proof {
            lemma_triples_len(dirv);
            if n > 0 {
                assert((if dirv.len() == 0 { 0int } else { dirv.len() - 1 }) == le16(
                    data@[PAGE_SIZE - 8],
                    data@[PAGE_SIZE - 7],
                )) by {
                    assert forall|p: Page|
                        p.wf() && image_of(p) =~= data@ implies dirv.len() == p.dir().len() by {
                        lemma_decode(p, data@);
                    }
                    if !valid_image(data@) {
                    }
                }
            }
        }
        Some((slots, pid, n16, fur_opt, e))
    }

    #[verifier::rlimit(100)]
    #[verifier::spinoff_prover]
    pub fn try_from_bytes(data: &Vec<u8>) -> (r: Option<Page>)
        ensures
            match r {
                Some(q) => q.wf() && image_of(q) =~= data@,
                None => !valid_image(data@),
            },
            forall|p: Page|
                #[trigger] p.wf() && image_of(p) =~= data@ ==> r is Some && r->Some_0.pg_eq(p),
    {
        let (slots, pid, n16, fur_opt, e) = match Page::parse_frame(data) {
            None => {
                proof {
                    assert(!valid_image(data@)) by {
                        if valid_image(data@) {
                            let p = choose|p: Page| #[trigger] p.wf() && image_of(p) =~= data@;
                        }
                    }
                }
                return None;
            },
            Some(fr) => fr,
        };
        let ghost dirv = slots@;
        let n = n16 as usize;
        let slots_len = slots.len();
        let ord_g = match Page::check_tiling(&slots, n16, e, Ghost(data@)) {
            None => {
                proof {
                    assert(!valid_image(data@));
                    lemma_invalid_no_match(data@);
                }
                return None;
            },
            Some(g) => g,
        };
        let ghost ord: Seq<u16> = ord_g@;
        let newdata = match Page::build_data(data, e, n16) {
            None => {
                proof {
                    assert(!valid_image(data@));
                    lemma_invalid_no_match(data@);
                }
                return None;
            },
            Some(v) => v,
        };
        let page = Page {
            page_id: pid,
            slots,
            data: newdata,
            num_live: n16,
            packed_end: e as u16,
            furthest: fur_opt,
        };
        proof {
            lemma_parse_finish(page, data@, ord, e as int);
        }
        Some(page)
    }

    /// Rebuild a page from an image produced by `get_bytes`: observably the
    /// same page that was serialized.
    pub fn from_bytes(data: &Vec<u8>) -> (r: Page)
        requires
            valid_image(data@),
        ensures
            r.wf(),
            image_of(r) =~= data@,
            forall|p: Page| #[trigger] p.wf() && image_of(p) =~= data@ ==> r.pg_eq(p),
    {
        match Page::try_from_bytes(data) {
            Some(p) => p,
            None => {
                proof {
                    assert(false);
                }
                Page::new(0)
            },
        }
    }
}

/// Once the greedy chain walk has consumed every live slot, the
/// reconstructed page is well formed, serializes back to the input bytes,
/// and is observably equal to any well-formed page those bytes came from.
#[verifier::rlimit(100)]
#[verifier::spinoff_prover]
proof fn lemma_parse_finish(page: Page, b: Seq<u8>, ord: Seq<u16>, e: int)
    requires
        b.len() == PAGE_SIZE,
        page.dir().len() <= MAX_SLOTS,
        page.num_slots() == count_live(page.dir()),
        page.num_slots() <= MAX_SLOTS,
        page.packed() == e,
        e + HEADER_FIXED + HEADER_PER_SLOT * page.num_slots() <= PAGE_SIZE,
        page.dir().len() > 0 ==> page.dir().last() is Some,
        forall|j: int| live(page.dir(), j) ==> slot_end(page.dir(), j) <= e,
        match page.furthest_of() {
            None => page.num_slots() == 0,
            Some(f) => live(page.dir(), f as int) && slot_end(page.dir(), f as int) == e,
        },
        page.mem().len() == PAGE_SIZE,
        forall|j: int|
            0 <= j < PAGE_SIZE ==> page.mem()[j] == (if j < e {
                b[j]
            } else {
                0u8
            }),
        forall|j: int| e <= j < PAGE_SIZE - 8 - 6 * page.num_slots() ==> b[j] == 0,
        chain_ok(page.dir(), ord),
        (if ord.len() == 0 {
            e == 0
        } else {
            slot_end(page.dir(), ord.last() as int) == e
        }),
        page.id() as int == le16(b[PAGE_SIZE - 2], b[PAGE_SIZE - 1]),
        page.num_slots() as int == le16(b[PAGE_SIZE - 4], b[PAGE_SIZE - 3]),
        furthest_field(page) as int == le16(b[PAGE_SIZE - 6], b[PAGE_SIZE - 5]),
        max_slot_of(page) as int == le16(b[PAGE_SIZE - 8], b[PAGE_SIZE - 7]),
        triples_match(b, live_triples(page.dir())),
        forall|p: Page|
            #[trigger] p.wf() && image_of(p) =~= b ==> page.dir() =~= p.dir() && p.packed() == e
                && p.num_slots() == page.num_slots() && p.furthest_of() == page.furthest_of()
                && p.id() == page.id(),
    ensures
        page.wf(),
        image_of(page) =~= b,
        forall|p: Page| #[trigger] p.wf() && image_of(p) =~= b ==> page.pg_eq(p),
{
    assert(page.chain(ord));
    assert(page.wf());
    lemma_triples_len(page.dir());
    lemma_image_matches(page, b);
    assert forall|p: Page| p.wf() && image_of(p) =~= b implies page.pg_eq(p) by {
        lemma_decode(p, b);
        assert forall|j: int| 0 <= j < PAGE_SIZE implies page.mem()[j] == p.mem()[j] by {
            if j < e {
                assert(b[j] == p.mem()[j]);
            } else {
                assert(p.mem()[j] == 0);
            }
        }
    }
}


/// Two well-formed pages with the same image are observably equal.
#[verifier::rlimit(100)]
#[verifier::spinoff_prover]
pub proof fn lemma_image_injective(a: Page, b: Page)
    requires
        a.wf(),
        b.wf(),
        image_of(a) =~= image_of(b),
    ensures
        a.pg_eq(b),
{
    let img = image_of(a);
    lemma_decode(a, img);
    lemma_decode(b, img);
    lemma_triples_len(a.dir());
    lemma_triples_len(b.dir());
    assert(a.num_slots() == b.num_slots());
    assert forall|j: int|
        0 <= j < live_triples(a.dir()).len() implies #[trigger] live_triples(a.dir())[j]
        == live_triples(b.dir())[j] by {
        let ta = live_triples(a.dir())[j];
        let tb = live_triples(b.dir())[j];
        assert(ta.0 as int == tb.0 as int && ta.1 as int == tb.1 as int && ta.2 as int == tb.2
            as int);
    }
    assert(a.dir().len() == b.dir().len()) by {
        if a.num_slots() == 0 {
            if a.dir().len() > 0 {
                assert(a.dir().last() is Some);
                assert(live(a.dir(), a.dir().len() - 1));
                lemma_count_live_pos(a.dir(), a.dir().len() - 1);
            }
            if b.dir().len() > 0 {
                assert(b.dir().last() is Some);
                assert(live(b.dir(), b.dir().len() - 1));
                lemma_count_live_pos(b.dir(), b.dir().len() - 1);
            }
        } else {
            assert(max_slot_of(a) as int == max_slot_of(b) as int);
            assert(a.dir().len() > 0) by {
                if a.dir().len() == 0 {
                    assert(count_live(a.dir()) == 0);
                }
            }
            assert(b.dir().len() > 0) by {
                if b.dir().len() == 0 {
                    assert(count_live(b.dir()) == 0);
                }
            }
        }
    }
    lemma_dir_from_triples(a.dir(), b.dir());
    assert(a.packed() == b.packed()) by {
        if a.num_slots() == 0 {
            let orda = choose|o: Seq<u16>| a.chain(o);
            let ordb = choose|o: Seq<u16>| b.chain(o);
            assert(orda.len() == 0 && ordb.len() == 0);
        } else {
            assert(furthest_field(a) as int == furthest_field(b) as int);
            assert(a.furthest_of() is Some && b.furthest_of() is Some);
            let fa = a.furthest_of()->Some_0;
            assert(slot_end(a.dir(), fa as int) == a.packed());
            assert(slot_end(b.dir(), fa as int) == b.packed());
        }
    }
    assert(a.furthest_of() == b.furthest_of()) by {
        if a.num_slots() == 0 {
        } else {
            assert(furthest_field(a) as int == furthest_field(b) as int);
        }
    }
    assert forall|i: int| 0 <= i < PAGE_SIZE implies a.mem()[i] == b.mem()[i] by {
        if i < PAGE_SIZE - 8 - 6 * a.num_slots() {
            assert(a.mem()[i] == img[i] && b.mem()[i] == img[i]);
        } else {
            assert(a.packed() + HEADER_FIXED + HEADER_PER_SLOT * a.num_slots() <= PAGE_SIZE);
            assert(a.mem()[i] == 0 && b.mem()[i] == 0);
        }
    }
    assert(a.mem() =~= b.mem());
}

} // verus!
