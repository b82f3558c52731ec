//! Stash and unstash: the top of the pipeline.
//!
//! `stash` flattens a live value graph into a self-contained byte blob,
//! writing every distinct block once; `unstash` rebuilds a live graph from
//! such a blob, pooling blocks by ordinal so sharing and reference counts
//! come back exactly. The round-trip laws at the bottom state what the
//! pair preserves.

use vstd::prelude::*;
use crate::archive::StashError;
use crate::archive::UnstashError;
use crate::archive::archive_model;
use crate::archive::archive_wf;
use crate::archive::build_archive;
use crate::archive::ident_table;
use crate::archive::load_archive;
use crate::archive::table_ok;
use crate::archive::word_corr;
use crate::bytes::archive_sized;
use crate::bytes::emit_archive;
use crate::bytes::lemma_parse_archive_bytes;
use crate::bytes::parse_archive;
use crate::bytes::parse_blob;
use crate::value::NickelValueRepr;
use crate::value::ValueHeap;
use crate::value::ValuePayload;
use crate::value::value_has_thunk;
use crate::value::value_model;
use crate::value::word_count;

verus! {

/// Serializes a value graph into a byte blob. Succeeds exactly when no
/// suspended computation is reachable from the handle; the blob then
/// parses back to a well-formed archive that denotes the same value, with
/// each distinct live block archived once.
pub fn stash(h: &ValueHeap, v: &NickelValueRepr) -> (r: Result<Vec<u8>, StashError>)
    requires
        h.wf(),
        h.valid_value(*v),
    ensures
        (r matches Ok(b) ==> {
            &&& parse_archive(b@) is Some
            &&& archive_wf(parse_archive(b@)->Some_0)
            &&& archive_model(parse_archive(b@)->Some_0) == value_model(*h, *v)
            &&& (exists|t: Seq<Option<u64>>| #[trigger] table_ok(
                *h, parse_archive(b@)->Some_0.blocks, t) && word_corr(
                *v, parse_archive(b@)->Some_0.root, t))
            &&& !value_has_thunk(*h, *v)
            &&& (*v matches NickelValueRepr::Inline(_, _) ==> parse_archive(
                b@)->Some_0.blocks.len() == 0)
        }),
        (r matches Err(e) ==> e == StashError::UnsupportedPayload && value_has_thunk(*h, *v)),
        (!value_has_thunk(*h, *v) ==> r is Ok),
{
    match build_archive(h, v) {
        Ok(a) => {
            proof {
                assert(archive_sized(a@)) by {
                    assert(a@.blocks.len() == vstd::std_specs::vec::spec_vec_len(&a.blocks));
                    assert forall|k: int| 0 <= k < a@.blocks.len() implies
                        crate::bytes::apayload_sized((#[trigger] a@.blocks[k]).payload) by {
                        assert(a@.blocks[k] == a.blocks@[k]@);
                        match a.blocks@[k].payload {
                            crate::archive::ArchivedPayload::Num(n) => {
                                assert(n.num@.len() == vstd::std_specs::vec::spec_vec_len(
                                    &n.num));
                                assert(n.den@.len() == vstd::std_specs::vec::spec_vec_len(
                                    &n.den));
                            },
                            crate::archive::ArchivedPayload::Str(bs) => {
                                assert(bs@.len() == vstd::std_specs::vec::spec_vec_len(&bs));
                            },
                            crate::archive::ArchivedPayload::Term(bs) => {
                                assert(bs@.len() == vstd::std_specs::vec::spec_vec_len(&bs));
                            },
                            crate::archive::ArchivedPayload::Label(bs) => {
                                assert(bs@.len() == vstd::std_specs::vec::spec_vec_len(&bs));
                            },
                            crate::archive::ArchivedPayload::EnumVariant(bs) => {
                                assert(bs@.len() == vstd::std_specs::vec::spec_vec_len(&bs));
                            },
                            crate::archive::ArchivedPayload::CustomContract(bs) => {
                                assert(bs@.len() == vstd::std_specs::vec::spec_vec_len(&bs));
                            },
                            crate::archive::ArchivedPayload::Type(bs) => {
                                assert(bs@.len() == vstd::std_specs::vec::spec_vec_len(&bs));
                            },
                            crate::archive::ArchivedPayload::Arr(ws) => {
                                assert(ws@.len() == vstd::std_specs::vec::spec_vec_len(&ws));
                            },
                            crate::archive::ArchivedPayload::Rec(es) => {
                                assert(es@.len() == vstd::std_specs::vec::spec_vec_len(&es));
                                assert forall|k2: int| 0 <= k2 < es@.len() implies (
                                #[trigger] crate::archive::aentries_view(es@)[k2]).0.len()
                                    <= u64::MAX by {
                                    assert(es@[k2].0@.len()
                                        == vstd::std_specs::vec::spec_vec_len(&es@[k2].0));
                                    assert(crate::archive::aentries_view(es@)[k2].0 == es@[
                                        k2].0@);
                                }
                            },
                            _ => {},
                        }
                    }
                }
                lemma_parse_archive_bytes(a@);
            }
            let b = emit_archive(&a);
            Ok(b)
        },
        Err(e) => Err(e),
    }
}

/// Rebuilds a live graph from a byte blob. Fails exactly on the blobs
/// the format refuses — a wrong tag, a truncated structure, a forward or
/// cyclic reference, a non-canonical number, trailing bytes — and
/// succeeds on every blob the format accepts: each archived reference
/// costs nine blob bytes, so no reference count can outgrow the host
/// word. On success the rebuilt graph is well formed, denotes what the
/// blob denotes, holds no suspended computation, keeps exactly one block
/// per archived block, and every block's reference count is exactly the
/// number of handles the rebuilt graph holds to it.
pub fn unstash(b: &Vec<u8>) -> (r: Result<(ValueHeap, NickelValueRepr), UnstashError>)
    ensures
        (r matches Ok(hv) ==> {
            &&& parse_archive(b@) is Some
            &&& hv.0.wf()
            &&& hv.0.valid_value(hv.1)
            &&& value_model(hv.0, hv.1) == archive_model(parse_archive(b@)->Some_0)
            &&& hv.0.blocks@.len() == parse_archive(b@)->Some_0.blocks.len()
            &&& (forall|k: int| 0 <= k < hv.0.blocks@.len() ==> hv.0.live(k))
            &&& table_ok(hv.0, parse_archive(b@)->Some_0.blocks, ident_table(
                hv.0.blocks@.len() as int))
            &&& word_corr(hv.1, parse_archive(b@)->Some_0.root, ident_table(
                hv.0.blocks@.len() as int))
            &&& (forall|t: int| hv.0.live(t) ==> (#[trigger] hv.0.blk(t).ref_count) as nat
                == hv.0.count(t) + word_count(hv.1, t))
            &&& !value_has_thunk(hv.0, hv.1)
        }),
        (r is Ok <==> parse_archive(b@) is Some),
{
    match parse_blob(b) {
        Ok(a) => {
            proof {
                crate::bytes::lemma_parse_archive_refs(b@);
                assert(b@.len() == vstd::std_specs::vec::spec_vec_len(b));
                assert(crate::archive::archive_refs(a@) < usize::MAX);
            }
            Ok(load_archive(&a))
        },
        Err(e) => Err(e),
    }
}

/// Round-trip identity: unarchiving an archived value succeeds and yields
/// a value with the same denotation; `None` exactly when the value holds
/// a suspended computation, which `stash` refuses.
pub fn round_trip(h: &ValueHeap, v: &NickelValueRepr) -> (r: Option<
    (ValueHeap, NickelValueRepr),
>)
    requires
        h.wf(),
        h.valid_value(*v),
    ensures
        (r matches Some(hv) ==> hv.0.wf() && hv.0.valid_value(hv.1) && value_model(hv.0, hv.1)
            == value_model(*h, *v) && !value_has_thunk(hv.0, hv.1)),
        (r is Some <==> !value_has_thunk(*h, *v)),
{
    match stash(h, v) {
        Ok(b) => match unstash(&b) {
            Ok(hv) => Some(hv),
            Err(_) => None,
        },
        Err(_) => None,
    }
}

/// The shape sharing preservation speaks of: a record block with exactly
/// two fields, both aliasing one block.
pub open spec fn aliased_pair_record(h: ValueHeap, v: NickelValueRepr) -> bool {
    &&& v is Block
    &&& h.live(v->Block_0 as int)
    &&& h.blk(v->Block_0 as int).payload is Record
    &&& ({
        let es = h.blk(v->Block_0 as int).payload->Record_0;
        &&& es@.len() == 2
        &&& es@[0].1 is Block
        &&& es@[1].1 == es@[0].1
    })
}

/// The rebuilt counterpart: both fields are one block of the new heap,
/// and that block's reference count covers both aliases, so dropping one
/// field's handle cannot free it while the other is live.
pub open spec fn rebuilt_aliased_pair(h: ValueHeap, v: NickelValueRepr) -> bool {
    &&& v is Block
    &&& h.live(v->Block_0 as int)
    &&& h.blk(v->Block_0 as int).payload is Record
    &&& ({
        let es = h.blk(v->Block_0 as int).payload->Record_0;
        &&& es@.len() == 2
        &&& es@[0].1 is Block
        &&& es@[1].1 == es@[0].1
        &&& h.live(es@[0].1->Block_0 as int)
        &&& h.blk(es@[0].1->Block_0 as int).ref_count >= 2
    })
}

/// Sharing preservation: a record whose two fields alias one block comes
/// back from a round trip as a record whose two fields alias one rebuilt
/// block — identity-equal handles, never two copies — with a reference
/// count that accounts for both aliases. When the heap holds exactly the
/// aliased pair, the rebuilt heap holds exactly two blocks and the shared
/// one's reference count is exactly two. The denotation is preserved as
/// well; `None` exactly when a suspended computation is reachable.
pub fn round_trip_preserves_sharing(h: &ValueHeap, v: &NickelValueRepr) -> (r: Option<
    (ValueHeap, NickelValueRepr),
>)
    requires
        h.wf(),
        h.valid_value(*v),
        aliased_pair_record(*h, *v),
    ensures
        (r matches Some(hv) ==> rebuilt_aliased_pair(hv.0, hv.1) && hv.0.wf() && value_model(
            hv.0, hv.1) == value_model(*h, *v)),
        (r is Some <==> !value_has_thunk(*h, *v)),
        (h.blocks@.len() == 2 ==> (r matches Some(hv) ==> hv.0.blocks@.len() == 2 && ({
            let es2 = hv.0.blk(hv.1->Block_0 as int).payload->Record_0;
            hv.0.blk(es2@[0].1->Block_0 as int).ref_count == 2
        }))),
{
    let ghost i = v->Block_0 as int;
    let ghost es = h.blk(i).payload->Record_0;
    let ghost j = es@[0].1->Block_0 as int;
    match stash(h, v) {
        Ok(b) => {
            let ghost a = parse_archive(b@)->Some_0;
            proof {
                let t = choose|t: Seq<Option<u64>>| #[trigger] table_ok(*h, a.blocks, t)
                    && word_corr(*v, a.root, t);
                assert(table_ok(*h, a.blocks, t) && word_corr(*v, a.root, t));
                // the record block's archived image
                assert(t[i] is Some);
                let oi = t[i]->Some_0 as int;
                assert(crate::archive::payload_corr(h.blk(i).payload, a.blocks[oi].payload, t));
                let aes = a.blocks[oi].payload->Rec_0;
                assert(aes.len() == 2);
                // both fields resolve through the one table entry for j
                assert(crate::archive::word_corr(es@[0].1, aes[0].1, t));
                assert(crate::archive::word_corr(es@[1].1, aes[1].1, t));
                assert(t[j] is Some);
                let oj = t[j]->Some_0;
                assert(aes[0].1 == crate::archive::ArchivedValue::Ref(oj));
                assert(aes[1].1 == crate::archive::ArchivedValue::Ref(oj));
                // a block never references itself, so the two ordinals differ
                assert(crate::value::payload_bounded(h.blk(i).payload, i));
                assert(crate::value::word_bounded(es@[0].1, i));
                assert(j < i);
                assert(oi != oj as int);
                assert(a.root == crate::archive::ArchivedValue::Ref(t[i]->Some_0));
            }
            match unstash(&b) {
                Ok(hv) => {
                    proof {
                        let (h2, v2) = hv;
                        let n = h2.blocks@.len() as int;
                        let ident = crate::archive::ident_table(n);
                        let t = choose|t: Seq<Option<u64>>| #[trigger] table_ok(
                            *h, a.blocks, t) && word_corr(*v, a.root, t);
                        assert(table_ok(*h, a.blocks, t) && word_corr(*v, a.root, t));
                        let oi = t[i]->Some_0 as int;
                        let oj = t[j]->Some_0 as int;
                        assert(a.root == crate::archive::ArchivedValue::Ref(t[i]->Some_0));
                        // the rebuilt root is the rebuilt record block
                        assert(word_corr(v2, a.root, ident));
                        assert(v2 == NickelValueRepr::Block(oi as usize));
                        assert(ident[oi]->Some_0 as int == oi);
                        assert(table_ok(h2, a.blocks, ident));
                        assert(crate::archive::payload_corr(
                            h2.blk(oi).payload, a.blocks[oi].payload, ident));
                        let aes = a.blocks[oi].payload->Rec_0;
                        let es2 = h2.blk(oi).payload->Record_0;
                        assert(es2@.len() == 2);
                        assert(crate::archive::word_corr(es2@[0].1, aes[0].1, ident));
                        assert(crate::archive::word_corr(es2@[1].1, aes[1].1, ident));
                        assert(es2@[0].1 == NickelValueRepr::Block(oj as usize));
                        assert(es2@[1].1 == NickelValueRepr::Block(oj as usize));
                        // the shared block is owned once per alias
                        assert(h2.blk(oj).ref_count as nat == h2.count(oj) + word_count(
                            v2, oj));
                        assert(word_count(v2, oj) == 0) by {
                            assert(oi != oj);
                        }
                        assert(crate::value::word_count(es2@[0].1, oj) == 1);
                        assert(crate::value::word_count(es2@[1].1, oj) == 1);
                        crate::value::lemma_entries_count_two(es2@, oj, 0, 1);
                        assert(crate::value::payload_count(h2.blk(oi).payload, oj) >= 2);
                        crate::value::lemma_heap_count_slot(h2.blocks@, oj, oi, n);
                        assert(h2.count(oj) >= 2);
                        assert(rebuilt_aliased_pair(h2, v2));
                        if h.blocks@.len() == 2 {
                            // a heap of exactly the aliased pair rebuilds as
                            // exactly two blocks, the shared one owned twice
                            assert(j == 0 && i == 1);
                            assert(0 <= oi < n && 0 <= oj < n && oi != oj);
                            assert(n >= 2);
                            if n >= 3 {
                                assert(crate::archive::pool_owner(t, 0));
                                let w0 = choose|w: int|
                                    0 <= w < t.len() && (#[trigger] t[w]) is Some
                                        && t[w]->Some_0 as int == 0;
                                assert(crate::archive::pool_owner(t, 1));
                                let w1 = choose|w: int|
                                    0 <= w < t.len() && (#[trigger] t[w]) is Some
                                        && t[w]->Some_0 as int == 1;
                                assert(crate::archive::pool_owner(t, 2));
                                let w2 = choose|w: int|
                                    0 <= w < t.len() && (#[trigger] t[w]) is Some
                                        && t[w]->Some_0 as int == 2;
                                assert(0 <= w0 < 2 && 0 <= w1 < 2 && 0 <= w2 < 2);
                                assert(w0 != w1 && w0 != w2 && w1 != w2);
                                assert(false);
                            }
                            assert(n == 2);
                            // children precede parents in the pool
                            assert(crate::archive::apayload_wf(a.blocks[oi].payload, oi));
                            crate::archive::lemma_rec_wf_bounded(
                                a.blocks[oi].payload, oi, 0);
                            assert(crate::archive::aword_bounded(aes[0].1, oi));
                            assert(oj < oi);
                            assert(oj == 0 && oi == 1);
                            // the shared block holds no reference to itself
                            assert(crate::value::payload_bounded(h2.blk(0).payload, 0));
                            crate::value::lemma_payload_count_bounded(
                                h2.blk(0).payload, 0, 0);
                            // the record holds exactly the two aliases
                            assert(es2@.drop_last().drop_last().len() == 0);
                            assert(es2@.drop_last().last() == es2@[0]);
                            assert(es2@.last() == es2@[1]);
                            assert(crate::value::entries_count(
                                es2@.drop_last().drop_last(), 0) == 0);
                            assert(crate::value::entries_count(es2@.drop_last(), 0) == 1);
                            assert(crate::value::entries_count(es2@, 0) == 2);
                            assert(crate::value::payload_count(h2.blk(1).payload, 0) == 2);
                            // sum the two slots
                            assert(crate::value::heap_count_upto(h2.blocks@, 0, 0) == 0);
                            assert(crate::value::heap_count_upto(h2.blocks@, 0, 1)
                                == crate::value::slot_count(h2.blocks@[0], 0));
                            assert(crate::value::heap_count_upto(h2.blocks@, 0, 2)
                                == crate::value::slot_count(h2.blocks@[0], 0)
                                + crate::value::slot_count(h2.blocks@[1], 0));
                            assert(h2.live(0) && h2.live(1));
                            assert(h2.count(0) == 2);
                            assert(h2.blk(0).ref_count == 2);
                        }
                    }
                    Some(hv)
                },
                Err(_) => None,
            }
        },
        Err(_) => None,
    }
}

/// Idempotence: archiving an already-reconstructed value again yields a
/// blob that deserializes to an equal value.
pub fn round_trip_twice(h: &ValueHeap, v: &NickelValueRepr) -> (r: Option<
    (ValueHeap, NickelValueRepr),
>)
    requires
        h.wf(),
        h.valid_value(*v),
    ensures
        (r matches Some(hv) ==> hv.0.wf() && hv.0.valid_value(hv.1) && value_model(hv.0, hv.1)
            == value_model(*h, *v)),
        (r is Some <==> !value_has_thunk(*h, *v)),
{
    match round_trip(h, v) {
        Some((h2, v2)) => round_trip(&h2, &v2),
        None => None,
    }
}

} // verus!
