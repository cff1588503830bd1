//! The registry document: the container identifiers and heap-file paths the
//! storage manager persists at shutdown and reads back at startup. The
//! format is a 16-bit little-endian entry count, then per entry the
//! identifier, a 16-bit path length, and the path bytes.

use crate::codec::{hi16, le16, lemma_le16_bytes, lemma_le16_parts, lo16, push_u16, read_u16_at};
use vstd::prelude::*;

verus! {

/// One serialized registry entry.
pub open spec fn entry_image(cid: u16, p: Seq<u8>) -> Seq<u8> {
    seq![lo16(cid), hi16(cid), lo16(p.len() as u16), hi16(p.len() as u16)] + p
}

/// The serialized entries, in order.
pub open spec fn entries_image(es: Seq<(u16, Seq<u8>)>) -> Seq<u8>
    decreases es.len(),
{
    if es.len() == 0 {
        Seq::empty()
    } else {
        entry_image(es[0].0, es[0].1) + entries_image(es.drop_first())
    }
}

/// The whole registry document.
pub open spec fn registry_image(es: Seq<(u16, Seq<u8>)>) -> Seq<u8> {
    seq![lo16(es.len() as u16), hi16(es.len() as u16)] + entries_image(es)
}

/// Entries a registry document can carry: a 16-bit count and 16-bit path
/// lengths.
pub open spec fn wf_entries(es: Seq<(u16, Seq<u8>)>) -> bool {
    &&& es.len() <= 0xFFFF
    &&& forall|i: int| 0 <= i < es.len() ==> (#[trigger] es[i]).1.len() <= 0xFFFF
}

/// A byte string some well-formed entry list serializes to.
pub open spec fn valid_registry(b: Seq<u8>) -> bool {
    exists|es: Seq<(u16, Seq<u8>)>| #[trigger] wf_entries(es) && registry_image(es) =~= b
}

/// View of an executable entry list.
pub open spec fn entries_view(v: Seq<(u16, Vec<u8>)>) -> Seq<(u16, Seq<u8>)> {
    v.map_values(|e: (u16, Vec<u8>)| (e.0, e.1@))
}

/// Serialize the registry document.
pub fn encode_registry(entries: &Vec<(u16, Vec<u8>)>) -> (r: Vec<u8>)
    requires
        wf_entries(entries_view(entries@)),
    ensures
        r@ =~= registry_image(entries_view(entries@)),
{
    let mut out: Vec<u8> = Vec::new();
    push_u16(&mut out, entries.len() as u16);
    let mut i: usize = 0;
    while i < entries.len()
        invariant
            wf_entries(entries_view(entries@)),
            i <= entries@.len(),
            out@ =~= seq![
                lo16(entries@.len() as u16),
                hi16(entries@.len() as u16),
            ] + entries_image(entries_view(entries@).subrange(0, i as int)),
        decreases entries@.len() - i,
    {
        let e = &entries[i];
        push_u16(&mut out, e.0);
        push_u16(&mut out, e.1.len() as u16);
        let mut z: usize = 0;
        let ghost mid = out@;
        while z < e.1.len()
            invariant
                i < entries@.len(),
                e == entries@[i as int],
                z <= e.1@.len(),
                out@ =~= mid + e.1@.subrange(0, z as int),
            decreases e.1@.len() - z,
        {
            out.push(e.1[z]);
            z = z + 1;
        }
        proof {
            assert(e.1@.subrange(0, e.1@.len() as int) =~= e.1@);
            lemma_entries_image_step(entries_view(entries@), i as int);
        }
        i = i + 1;
    }
    proof {
        assert(entries_view(entries@).subrange(0, entries@.len() as int) =~= entries_view(
            entries@,
        ));
    }
    out
}

/// Extending the serialized prefix by one entry appends its image.
pub proof fn lemma_entries_image_step(es: Seq<(u16, Seq<u8>)>, i: int)
    requires
        0 <= i < es.len(),
    ensures
        entries_image(es.subrange(0, i + 1)) =~= entries_image(es.subrange(0, i)) + entry_image(
            es[i].0,
            es[i].1,
        ),
    decreases i,
{
    if i == 0 {
        assert(es.subrange(0, 1).drop_first() =~= es.subrange(0, 0));
        assert(entries_image(es.subrange(0, 1)) =~= entry_image(es[0].0, es[0].1));
    } else {
        lemma_entries_image_step(es.drop_first(), i - 1);
        assert(es.subrange(0, i + 1).drop_first() =~= es.drop_first().subrange(0, i));
        assert(es.subrange(0, i).drop_first() =~= es.drop_first().subrange(0, i - 1));
        assert(es.subrange(0, i + 1)[0] == es[0]);
        assert(es.subrange(0, i)[0] == es[0]);
        assert(entries_image(es.subrange(0, i + 1)) =~= entry_image(es[0].0, es[0].1)
            + entries_image(es.drop_first().subrange(0, i)));
        assert(entries_image(es.subrange(0, i)) =~= entry_image(es[0].0, es[0].1) + entries_image(
            es.drop_first().subrange(0, i - 1),
        ));
        assert(es.drop_first()[i - 1] == es[i]);
    }
}

/// The serialized suffix from entry `i` on: the whole document is the count,
/// the first `i` entries, and this suffix.
pub proof fn lemma_entries_image_split(es: Seq<(u16, Seq<u8>)>, i: int)
    requires
        0 <= i <= es.len(),
    ensures
        entries_image(es) =~= entries_image(es.subrange(0, i)) + entries_image(
            es.subrange(i, es.len() as int),
        ),
    decreases i,
{
    if i == 0 {
        assert(es.subrange(0, es.len() as int) =~= es);
    } else {
        lemma_entries_image_step(es, i - 1);
        lemma_entries_image_split(es, i - 1);
        let tailm1 = es.subrange(i - 1, es.len() as int);
        assert(tailm1[0] == es[i - 1]);
        assert(tailm1.drop_first() =~= es.subrange(i, es.len() as int));
        assert(entries_image(tailm1) =~= entry_image(es[i - 1].0, es[i - 1].1) + entries_image(
            es.subrange(i, es.len() as int),
        ));
    }
}

/// Parse a registry document: the inverse of `encode_registry`. Rejects any
/// byte string no well-formed entry list serializes to.
#[verifier::rlimit(100)]
#[verifier::spinoff_prover]
pub fn decode_registry(b: &Vec<u8>) -> (r: Option<Vec<(u16, Vec<u8>)>>)
    ensures
        match r {
            Some(v) => wf_entries(entries_view(v@)) && registry_image(entries_view(v@)) =~= b@,
            None => !valid_registry(b@),
        },
        forall|es: Seq<(u16, Seq<u8>)>|
            #[trigger] wf_entries(es) && registry_image(es) =~= b@ ==> r is Some && entries_view(
                r->Some_0@,
            ) =~= es,
{
    let blen = b.len();
    if blen < 2 {
        proof {
            assert forall|es: Seq<(u16, Seq<u8>)>|
                wf_entries(es) && registry_image(es) =~= b@ implies false by {}
            assert(!valid_registry(b@));
        }
        return None;
    }
    let count = read_u16_at(b, 0) as usize;
    let mut out: Vec<(u16, Vec<u8>)> = Vec::new();
    let mut off: usize = 2;
    let mut i: usize = 0;
    while i < count
        invariant
            blen == b@.len(),
            blen >= 2,
            count as int == le16(b@[0], b@[1]),
            count <= 0xFFFF,
            i <= count,
            2 <= off <= blen,
            out@.len() == i as int,
            wf_entries(entries_view(out@)),
            b@.subrange(2, off as int) =~= entries_image(entries_view(out@)),
            forall|es: Seq<(u16, Seq<u8>)>|
                #[trigger] wf_entries(es) && registry_image(es) =~= b@ ==> es.len() == count as int
                    && i as int <= es.len() && entries_view(out@) =~= es.subrange(0, i as int)
                    && off as int == 2 + entries_image(es.subrange(0, i as int)).len(),
        decreases count - i,
    {
        if blen - off < 4 {
            proof {
                assert forall|es: Seq<(u16, Seq<u8>)>|
                    wf_entries(es) && registry_image(es) =~= b@ implies false by {
                    lemma_entries_image_split(es, i as int);
                    let tail = es.subrange(i as int, es.len() as int);
                    assert(tail.len() > 0);
                    assert(entries_image(tail) =~= entry_image(tail[0].0, tail[0].1)
                        + entries_image(tail.drop_first()));
                    assert(entries_image(tail).len() >= 4);
                    assert(b@.len() >= off as int + 4);
                }
                assert(!valid_registry(b@));
            }
            return None;
        }
        let cid = read_u16_at(b, off);
        let plen = read_u16_at(b, off + 2) as usize;
        if blen - off - 4 < plen {
            proof {
                assert forall|es: Seq<(u16, Seq<u8>)>|
                    wf_entries(es) && registry_image(es) =~= b@ implies false by {
                    lemma_entries_image_split(es, i as int);
                    let tail = es.subrange(i as int, es.len() as int);
                    assert(tail.len() > 0);
                    assert(entries_image(tail) =~= entry_image(tail[0].0, tail[0].1)
                        + entries_image(tail.drop_first()));
                    lemma_le16_parts(tail[0].1.len() as u16);
                    assert(b@[off as int + 2] == lo16(tail[0].1.len() as u16));
                    assert(b@[off as int + 3] == hi16(tail[0].1.len() as u16));
                    assert(tail[0].1.len() == plen as int);
                    assert(entries_image(tail).len() >= 4 + plen as int);
                    assert(b@.len() >= off as int + 4 + plen as int);
                }
                assert(!valid_registry(b@));
            }
            return None;
        }
        let mut path: Vec<u8> = Vec::new();
        let mut z: usize = 0;
        while z < plen
            invariant
                blen == b@.len(),
                off + 4 + plen <= blen,
                z <= plen,
                path@ =~= b@.subrange(off as int + 4, off as int + 4 + z as int),
            decreases plen - z,
        {
            path.push(b[off + 4 + z]);
            z = z + 1;
        }
        let ghost prev_out = out@;
        let ghost prev_off = off as int;
        out.push((cid, path));
        off = off + 4 + plen;
        proof {
            lemma_le16_parts(cid);
            lemma_le16_parts(plen as u16);
            lemma_le16_bytes(b@[prev_off], b@[prev_off + 1]);
            lemma_le16_bytes(b@[prev_off + 2], b@[prev_off + 3]);
            assert(entries_view(out@) =~= entries_view(prev_out).push((cid, path@)));
            lemma_entries_image_step(entries_view(out@), i as int);
            assert(entries_view(out@).subrange(0, i as int) =~= entries_view(prev_out));
            assert(entries_view(out@).subrange(0, i as int + 1) =~= entries_view(out@));
            assert(entries_view(out@)[i as int] == (cid, path@));
            assert(entries_image(entries_view(out@)) =~= entries_image(entries_view(prev_out))
                + entry_image(cid, path@));
            assert(entry_image(cid, path@) =~= b@.subrange(prev_off, off as int)) by {
                assert(b@[prev_off] == lo16(cid) && b@[prev_off + 1] == hi16(cid));
                assert(b@[prev_off + 2] == lo16(plen as u16) && b@[prev_off + 3] == hi16(
                    plen as u16,
                ));
                assert(path@ =~= b@.subrange(prev_off + 4, off as int));
            }
            assert(b@.subrange(2, off as int) =~= b@.subrange(2, prev_off) + b@.subrange(
                prev_off,
                off as int,
            ));
            assert(b@.subrange(2, off as int) =~= entries_image(entries_view(out@)));
            assert forall|es: Seq<(u16, Seq<u8>)>|
                #[trigger] wf_entries(es) && registry_image(es) =~= b@ implies es.len()
                == count as int && i as int + 1 <= es.len() && entries_view(out@) =~= es.subrange(
                0,
                i as int + 1,
            ) && off as int == 2 + entries_image(es.subrange(0, i as int + 1)).len() by {
                lemma_entries_image_split(es, i as int);
                let tail = es.subrange(i as int, es.len() as int);
                assert(tail.len() > 0);
                assert(entries_image(tail) =~= entry_image(tail[0].0, tail[0].1) + entries_image(
                    tail.drop_first(),
                ));
                lemma_le16_parts(tail[0].0);
                lemma_le16_parts(tail[0].1.len() as u16);
                assert(b@[prev_off] == lo16(tail[0].0) && b@[prev_off + 1] == hi16(tail[0].0));
                assert(b@[prev_off + 2] == lo16(tail[0].1.len() as u16) && b@[prev_off + 3] == hi16(
                    tail[0].1.len() as u16,
                ));
                assert(tail[0].0 == cid && tail[0].1.len() == plen as int);
                assert forall|j: int| 0 <= j < plen implies tail[0].1[j] == path@[j] by {
                    assert(b@[prev_off + 4 + j] == tail[0].1[j]);
                }
                assert(tail[0].1 =~= path@);
                assert(es[i as int] == tail[0]);
                lemma_entries_image_step(es, i as int);
                assert(es.subrange(0, i as int + 1) =~= es.subrange(0, i as int).push(
                    es[i as int],
                ));
                assert(entries_view(out@) =~= es.subrange(0, i as int + 1));
            }
        }
        i = i + 1;
    }
    if off != blen {
        proof {
            assert forall|es: Seq<(u16, Seq<u8>)>|
                wf_entries(es) && registry_image(es) =~= b@ implies false by {
                lemma_le16_parts(es.len() as u16);
                assert(es.len() == count as int);
                assert(es.subrange(0, count as int) =~= es);
            }
            assert(!valid_registry(b@));
        }
        return None;
    }
    proof {
        assert(b@.subrange(0, blen as int) =~= b@);
        lemma_le16_bytes(b@[0], b@[1]);
        assert(b@[0] == lo16(count as u16) && b@[1] == hi16(count as u16));
        assert(registry_image(entries_view(out@)) =~= b@);
        assert(wf_entries(entries_view(out@)));
        assert forall|es: Seq<(u16, Seq<u8>)>|
            #[trigger] wf_entries(es) && registry_image(es) =~= b@ implies entries_view(out@)
            =~= es by {
            assert(es.subrange(0, count as int) =~= es);
        }
    }
    Some(out)
}

} // verus!
