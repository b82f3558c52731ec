//! The archived form of a value graph: a flat pool of blocks plus a root.
//!
//! Sharing is encoded positionally. Every distinct live block that the
//! serializer reaches becomes exactly one archived block; every further
//! handle to it becomes a back-reference to that block's ordinal. A
//! reference always points to a block written earlier (a smaller ordinal),
//! which the writer guarantees because children are archived before their
//! parents and which the reader checks before it allocates anything. A
//! forward reference could only arise from a reference cycle, which the
//! value model cannot represent; the format therefore rejects it outright.

use vstd::prelude::*;
use crate::number::NumberStash;
use crate::number::number_seq_wf;
use crate::number::copy_number;
use crate::value::InlineValue;
use crate::value::NickelValueRepr;
use crate::value::PosIdx;
use crate::value::PayloadModel;
use crate::value::ValueBlock;
use crate::value::ValueHeap;
use crate::value::ValueOwned;
use crate::value::ValueModel;
use crate::value::ValuePayload;
use crate::value::block_has_thunk;
use crate::value::block_model;
use crate::value::entries_model;
use crate::value::payload_bounded;
use crate::value::payload_model;
use crate::value::word_bounded;
use crate::value::word_model;
use crate::value::words_model;

verus! {

/// Policy marker for this archive format. The live model stores children
/// strictly below their parents, so a reference cycle cannot exist on the
/// write side, and the reader treats any would-be cycle (a reference to a
/// block not yet decoded) as a malformed archive.
pub struct NickelValueFlavor;

impl NickelValueFlavor {
    /// Cycles are rejected, never encoded.
    pub fn allow_cycles() -> (b: bool)
        ensures
            !b,
    {
        false
    }
}

/// Archiving failure: the one recoverable write-side error.
#[derive(Clone, Copy, PartialEq, Eq, Structural, Debug)]
pub enum StashError {
    /// A suspended computation was reachable from the value; archiving
    /// such payloads is refused.
    UnsupportedPayload,
}

/// Unarchiving failure: every way a load can be refused. All checks run
/// before any allocation for the node in question.
#[derive(Clone, Copy, PartialEq, Eq, Structural, Debug)]
pub enum UnstashError {
    /// The buffer ended before the structure it promised.
    Truncated,
    /// A tag byte named no known value or payload kind.
    BadTag,
    /// A reference named a block that is not yet decoded: a forward
    /// reference or cycle, which this format rejects.
    BadReference,
    /// A number's limb sequences were not in canonical form.
    BadNumber,
    /// Bytes were left over after the root value.
    Trailing,
}

/// An archived handle occurrence: an inline scalar written in place, or
/// the ordinal of an archived block.
#[derive(Clone, Copy, PartialEq, Eq, Structural, Debug)]
pub enum ArchivedValue {
    Inline(InlineValue, PosIdx),
    Ref(u64),
}

/// An archived block's payload.
pub enum ArchivedPayload {
    Num(NumberStash),
    Str(Vec<u8>),
    Arr(Vec<ArchivedValue>),
    Rec(Vec<(Vec<u8>, ArchivedValue)>),
    Term(Vec<u8>),
    Label(Vec<u8>),
    EnumVariant(Vec<u8>),
    Foreign(u32),
    Sealing(u64),
    CustomContract(Vec<u8>),
    Type(Vec<u8>),
}

/// One archived block: interned position plus payload.
pub struct ArchivedBlock {
    pub pos: PosIdx,
    pub payload: ArchivedPayload,
}

/// A complete archive: the block pool and the root occurrence.
pub struct Archive {
    pub blocks: Vec<ArchivedBlock>,
    pub root: ArchivedValue,
}

// ---------------------------------------------------------------------------
// Ghost views of the archived form.
// ---------------------------------------------------------------------------

pub enum ArchivedPayloadView {
    Num(bool, Seq<u64>, Seq<u64>),
    Str(Seq<u8>),
    Arr(Seq<ArchivedValue>),
    Rec(Seq<(Seq<u8>, ArchivedValue)>),
    Term(Seq<u8>),
    Label(Seq<u8>),
    EnumVariant(Seq<u8>),
    Foreign(u32),
    Sealing(u64),
    CustomContract(Seq<u8>),
    Type(Seq<u8>),
}

pub struct ArchivedBlockView {
    pub pos: u32,
    pub payload: ArchivedPayloadView,
}

pub struct ArchiveView {
    pub blocks: Seq<ArchivedBlockView>,
    pub root: ArchivedValue,
}

pub open spec fn aentries_view(es: Seq<(Vec<u8>, ArchivedValue)>) -> Seq<(Seq<u8>, ArchivedValue)> {
    es.map_values(|e: (Vec<u8>, ArchivedValue)| (e.0@, e.1))
}

impl View for ArchivedPayload {
    type V = ArchivedPayloadView;

    open spec fn view(&self) -> ArchivedPayloadView {
        match *self {
            ArchivedPayload::Num(n) => ArchivedPayloadView::Num(n.sign, n.num@, n.den@),
            ArchivedPayload::Str(bs) => ArchivedPayloadView::Str(bs@),
            ArchivedPayload::Arr(ws) => ArchivedPayloadView::Arr(ws@),
            ArchivedPayload::Rec(es) => ArchivedPayloadView::Rec(aentries_view(es@)),
            ArchivedPayload::Term(bs) => ArchivedPayloadView::Term(bs@),
            ArchivedPayload::Label(bs) => ArchivedPayloadView::Label(bs@),
            ArchivedPayload::EnumVariant(bs) => ArchivedPayloadView::EnumVariant(bs@),
            ArchivedPayload::Foreign(x) => ArchivedPayloadView::Foreign(x),
            ArchivedPayload::Sealing(x) => ArchivedPayloadView::Sealing(x),
            ArchivedPayload::CustomContract(bs) => ArchivedPayloadView::CustomContract(bs@),
            ArchivedPayload::Type(bs) => ArchivedPayloadView::Type(bs@),
        }
    }
}

impl View for ArchivedBlock {
    type V = ArchivedBlockView;

    open spec fn view(&self) -> ArchivedBlockView {
        ArchivedBlockView { pos: self.pos.0, payload: self.payload@ }
    }
}

pub open spec fn ablocks_view(s: Seq<ArchivedBlock>) -> Seq<ArchivedBlockView> {
    s.map_values(|b: ArchivedBlock| b@)
}

impl View for Archive {
    type V = ArchiveView;

    open spec fn view(&self) -> ArchiveView {
        ArchiveView { blocks: ablocks_view(self.blocks@), root: self.root }
    }
}

// ---------------------------------------------------------------------------
// Archive well-formedness.
// ---------------------------------------------------------------------------

/// An occurrence may only reference a block below `bound`.
pub open spec fn aword_bounded(w: ArchivedValue, bound: int) -> bool {
    match w {
        ArchivedValue::Inline(_, _) => true,
        ArchivedValue::Ref(o) => (o as int) < bound,
    }
}

pub open spec fn apayload_wf(p: ArchivedPayloadView, bound: int) -> bool {
    match p {
        ArchivedPayloadView::Num(s, n, d) => number_seq_wf(s, n, d),
        ArchivedPayloadView::Arr(ws) => forall|k: int|
            0 <= k < ws.len() ==> aword_bounded(#[trigger] ws[k], bound),
        ArchivedPayloadView::Rec(es) => forall|k: int|
            0 <= k < es.len() ==> aword_bounded((#[trigger] es[k]).1, bound),
        _ => true,
    }
}

pub proof fn lemma_arr_wf_bounded(p: ArchivedPayloadView, bound: int, mm: int)
    requires
        apayload_wf(p, bound),
        p is Arr,
        0 <= mm < p->Arr_0.len(),
    ensures
        aword_bounded(p->Arr_0[mm], bound),
{
}

pub proof fn lemma_rec_wf_bounded(p: ArchivedPayloadView, bound: int, mm: int)
    requires
        apayload_wf(p, bound),
        p is Rec,
        0 <= mm < p->Rec_0.len(),
    ensures
        aword_bounded(p->Rec_0[mm].1, bound),
{
}

/// A well-formed archive: every block refers only to earlier blocks, its
/// numbers are canonical, and the root refers into the pool.
pub open spec fn archive_wf(a: ArchiveView) -> bool {
    &&& (forall|k: int| 0 <= k < a.blocks.len() ==> apayload_wf(
        (#[trigger] a.blocks[k]).payload, k))
    &&& aword_bounded(a.root, a.blocks.len() as int)
}

// ---------------------------------------------------------------------------
// The model an archive denotes.
// ---------------------------------------------------------------------------

pub open spec fn ablock_model(blocks: Seq<ArchivedBlockView>, k: int) -> ValueModel
    decreases k, 2int, 0int,
{
    if 0 <= k < blocks.len() {
        ValueModel::Blk(blocks[k].pos, apayload_model(blocks, blocks[k].payload, k))
    } else {
        ValueModel::Inline(InlineValue::Null, 0)
    }
}

pub open spec fn apayload_model(blocks: Seq<ArchivedBlockView>, p: ArchivedPayloadView, k: int) -> PayloadModel
    decreases k, 1int, 0int,
{
    match p {
        ArchivedPayloadView::Num(s, n, d) => PayloadModel::Num(s, n, d),
        ArchivedPayloadView::Str(bs) => PayloadModel::Str(bs),
        ArchivedPayloadView::Arr(ws) => PayloadModel::Arr(awords_model(blocks, ws, k)),
        ArchivedPayloadView::Rec(es) => PayloadModel::Rec(aentries_model(blocks, es, k)),
        ArchivedPayloadView::Term(bs) => PayloadModel::Term(bs),
        ArchivedPayloadView::Label(bs) => PayloadModel::Label(bs),
        ArchivedPayloadView::EnumVariant(bs) => PayloadModel::EnumVariant(bs),
        ArchivedPayloadView::Foreign(x) => PayloadModel::Foreign(x),
        ArchivedPayloadView::Sealing(x) => PayloadModel::Sealing(x),
        ArchivedPayloadView::CustomContract(bs) => PayloadModel::CustomContract(bs),
        ArchivedPayloadView::Type(bs) => PayloadModel::Type(bs),
    }
}

pub open spec fn aword_model(blocks: Seq<ArchivedBlockView>, w: ArchivedValue, k: int) -> ValueModel
    decreases k, 0int, 0int,
{
    match w {
        ArchivedValue::Inline(v, p) => ValueModel::Inline(v, p.0),
        ArchivedValue::Ref(o) => if 0 <= (o as int) && (o as int) < k {
            ablock_model(blocks, o as int)
        } else {
            ValueModel::Inline(InlineValue::Null, 0)
        },
    }
}

pub open spec fn awords_model(blocks: Seq<ArchivedBlockView>, ws: Seq<ArchivedValue>, k: int) -> Seq<ValueModel>
    decreases k, 0int, ws.len(),
{
    if ws.len() == 0 {
        Seq::empty()
    } else {
        awords_model(blocks, ws.drop_last(), k).push(aword_model(blocks, ws.last(), k))
    }
}

pub open spec fn aentries_model(
    blocks: Seq<ArchivedBlockView>,
    es: Seq<(Seq<u8>, ArchivedValue)>,
    k: int,
) -> Seq<(Seq<u8>, ValueModel)>
    decreases k, 0int, es.len(),
{
    if es.len() == 0 {
        Seq::empty()
    } else {
        aentries_model(blocks, es.drop_last(), k).push(
            (es.last().0, aword_model(blocks, es.last().1, k)),
        )
    }
}

/// The tree an archive denotes.
pub open spec fn archive_model(a: ArchiveView) -> ValueModel {
    aword_model(a.blocks, a.root, a.blocks.len() as int)
}

// ---------------------------------------------------------------------------
// References an archive holds: each one will cost one count bump when the
// graph is rebuilt, so their total bounds every rebuilt reference count.
// ---------------------------------------------------------------------------

pub open spec fn aword_refs(w: ArchivedValue) -> nat {
    match w {
        ArchivedValue::Ref(_) => 1nat,
        ArchivedValue::Inline(_, _) => 0nat,
    }
}

pub open spec fn awords_refs(ws: Seq<ArchivedValue>) -> nat
    decreases ws.len(),
{
    if ws.len() == 0 {
        0nat
    } else {
        awords_refs(ws.drop_last()) + aword_refs(ws.last())
    }
}

pub open spec fn aentries_refs(es: Seq<(Seq<u8>, ArchivedValue)>) -> nat
    decreases es.len(),
{
    if es.len() == 0 {
        0nat
    } else {
        aentries_refs(es.drop_last()) + aword_refs(es.last().1)
    }
}

pub open spec fn apayload_refs(p: ArchivedPayloadView) -> nat {
    match p {
        ArchivedPayloadView::Arr(ws) => awords_refs(ws),
        ArchivedPayloadView::Rec(es) => aentries_refs(es),
        _ => 0nat,
    }
}

/// References held by the payloads of the first `n` blocks.
pub open spec fn ablocks_refs(bks: Seq<ArchivedBlockView>, n: int) -> nat
    decreases n,
{
    if n <= 0 {
        0nat
    } else {
        ablocks_refs(bks, n - 1) + apayload_refs(bks[n - 1].payload)
    }
}

/// All references the archive holds, root occurrence included.
pub open spec fn archive_refs(a: ArchiveView) -> nat {
    ablocks_refs(a.blocks, a.blocks.len() as int) + aword_refs(a.root)
}

pub proof fn lemma_ablocks_refs_mono(bks: Seq<ArchivedBlockView>, k: int, n: int)
    requires
        k <= n,
    ensures
        ablocks_refs(bks, k) <= ablocks_refs(bks, n),
    decreases n - k,
{
    if k < n {
        lemma_ablocks_refs_mono(bks, k, n - 1);
    }
}

/// A prefix of a word sequence holds no more references than the whole.
pub proof fn lemma_awords_refs_prefix(ws: Seq<ArchivedValue>, m: int)
    requires
        0 <= m <= ws.len(),
    ensures
        awords_refs(ws.subrange(0, m)) <= awords_refs(ws),
    decreases ws.len() - m,
{
    if m == ws.len() {
        assert(ws.subrange(0, m) =~= ws);
    } else {
        assert(ws.subrange(0, m + 1) =~= ws.subrange(0, m).push(ws[m]));
        assert(ws.subrange(0, m + 1).drop_last() =~= ws.subrange(0, m));
        lemma_awords_refs_prefix(ws, m + 1);
    }
}

pub proof fn lemma_aentries_refs_prefix(es: Seq<(Seq<u8>, ArchivedValue)>, m: int)
    requires
        0 <= m <= es.len(),
    ensures
        aentries_refs(es.subrange(0, m)) <= aentries_refs(es),
    decreases es.len() - m,
{
    if m == es.len() {
        assert(es.subrange(0, m) =~= es);
    } else {
        assert(es.subrange(0, m + 1) =~= es.subrange(0, m).push(es[m]));
        assert(es.subrange(0, m + 1).drop_last() =~= es.subrange(0, m));
        lemma_aentries_refs_prefix(es, m + 1);
    }
}

// ---------------------------------------------------------------------------
// Correspondence between a live heap and an archive, through a table that
// maps live block indices to archived ordinals.
// ---------------------------------------------------------------------------

pub open spec fn word_corr(w: NickelValueRepr, aw: ArchivedValue, table: Seq<Option<u64>>) -> bool {
    match w {
        NickelValueRepr::Inline(v, p) => aw == ArchivedValue::Inline(v, p),
        NickelValueRepr::Block(i) => {
            &&& (i as int) < table.len()
            &&& table[i as int] is Some
            &&& aw == ArchivedValue::Ref(table[i as int]->Some_0)
        },
    }
}

pub open spec fn payload_corr(p: ValuePayload, ap: ArchivedPayloadView, table: Seq<Option<u64>>) -> bool {
    match p {
        ValuePayload::Number(n) => ap == ArchivedPayloadView::Num(n.sign, n.num@, n.den@),
        ValuePayload::Str(bs) => ap == ArchivedPayloadView::Str(bs@),
        ValuePayload::Array(vs) => ap matches ArchivedPayloadView::Arr(ws) && ws.len()
            == vs@.len() && (forall|k: int| 0 <= k < vs@.len() ==> word_corr(
            vs@[k], #[trigger] ws[k], table)),
        ValuePayload::Record(es) => ap matches ArchivedPayloadView::Rec(aes) && aes.len()
            == es@.len() && (forall|k: int| 0 <= k < es@.len() ==> (#[trigger] aes[k]).0
            == es@[k].0@ && word_corr(es@[k].1, aes[k].1, table)),
        ValuePayload::Term(bs) => ap == ArchivedPayloadView::Term(bs@),
        ValuePayload::Label(bs) => ap == ArchivedPayloadView::Label(bs@),
        ValuePayload::EnumVariant(bs) => ap == ArchivedPayloadView::EnumVariant(bs@),
        ValuePayload::ForeignId(x) => ap == ArchivedPayloadView::Foreign(x),
        ValuePayload::SealingKey(x) => ap == ArchivedPayloadView::Sealing(x),
        ValuePayload::CustomContract(bs) => ap == ArchivedPayloadView::CustomContract(bs@),
        ValuePayload::Type(bs) => ap == ArchivedPayloadView::Type(bs@),
        ValuePayload::Thunk => false,
    }
}

/// Ordinal `o` of the pool is the image of some identity-table entry.
pub open spec fn pool_owner(table: Seq<Option<u64>>, o: int) -> bool {
    exists|i: int| 0 <= i < table.len() && (#[trigger] table[i]) is Some
        && table[i]->Some_0 as int == o
}

/// The serializer's identity table is faithful: every entry names a live,
/// thunk-free block whose archived image matches it, ordinals are not
/// shared between distinct blocks, and every archived block is some
/// entry's image — a block is archived exactly once, never re-serialized
/// and never invented.
pub open spec fn table_ok(h: ValueHeap, ab: Seq<ArchivedBlockView>, table: Seq<Option<u64>>) -> bool {
    &&& table.len() == h.blocks@.len()
    &&& (forall|i: int| 0 <= i < table.len() && (#[trigger] table[i]) is Some ==> {
        let o = table[i]->Some_0 as int;
        &&& h.live(i)
        &&& 0 <= o < ab.len()
        &&& ab[o].pos == h.blk(i).pos.0
        &&& payload_corr(h.blk(i).payload, ab[o].payload, table)
        &&& apayload_wf(ab[o].payload, o)
        &&& !block_has_thunk(h.blocks@, i)
    })
    &&& (forall|i1: int, i2: int|
        0 <= i1 < table.len() && 0 <= i2 < table.len() && (#[trigger] table[i1]) is Some
            && (#[trigger] table[i2]) is Some && table[i1]->Some_0 == table[i2]->Some_0
            ==> i1 == i2)
    &&& (forall|o: int| 0 <= o < ab.len() ==> apayload_wf((#[trigger] ab[o]).payload, o))
    &&& (forall|o: int| 0 <= o < ab.len() ==> #[trigger] pool_owner(table, o))
}

/// Table `t2` keeps every settled entry of `t1`.
pub open spec fn table_extends(t1: Seq<Option<u64>>, t2: Seq<Option<u64>>) -> bool {
    &&& t2.len() == t1.len()
    &&& (forall|i: int| 0 <= i < t1.len() && (#[trigger] t1[i]) is Some ==> t2[i] == t1[i])
}

pub proof fn lemma_word_corr_mono(
    w: NickelValueRepr,
    aw: ArchivedValue,
    t1: Seq<Option<u64>>,
    t2: Seq<Option<u64>>,
)
    requires
        word_corr(w, aw, t1),
        table_extends(t1, t2),
    ensures
        word_corr(w, aw, t2),
{
}

pub proof fn lemma_payload_corr_mono(
    p: ValuePayload,
    ap: ArchivedPayloadView,
    t1: Seq<Option<u64>>,
    t2: Seq<Option<u64>>,
)
    requires
        payload_corr(p, ap, t1),
        table_extends(t1, t2),
    ensures
        payload_corr(p, ap, t2),
{
    match p {
        ValuePayload::Array(vs) => {
            let ws = ap->Arr_0;
            assert forall|k: int| 0 <= k < vs@.len() implies word_corr(vs@[k], #[trigger] ws[k],
                t2) by {
                lemma_word_corr_mono(vs@[k], ws[k], t1, t2);
            }
        },
        ValuePayload::Record(es) => {
            let aes = ap->Rec_0;
            assert forall|k: int| 0 <= k < es@.len() implies (#[trigger] aes[k]).0 == es@[k].0@
                && word_corr(es@[k].1, aes[k].1, t2) by {
                lemma_word_corr_mono(es@[k].1, aes[k].1, t1, t2);
            }
        },
        _ => {},
    }
}

// ---------------------------------------------------------------------------
// Correspondence carries the model across: an archived block's model
// equals its live original's model.
// ---------------------------------------------------------------------------

pub proof fn lemma_corr_block_model(
    h: ValueHeap,
    ab: Seq<ArchivedBlockView>,
    t: Seq<Option<u64>>,
    i: int,
)
    requires
        h.wf(),
        table_ok(h, ab, t),
        0 <= i < t.len(),
        t[i] is Some,
    ensures
        ablock_model(ab, t[i]->Some_0 as int) == block_model(h.blocks@, i),
    decreases i, 2int, 0int,
{
    let o = t[i]->Some_0 as int;
    assert(h.live(i));
    lemma_corr_payload_model(h, ab, t, h.blk(i).payload, ab[o].payload, i, o);
}

pub proof fn lemma_corr_payload_model(
    h: ValueHeap,
    ab: Seq<ArchivedBlockView>,
    t: Seq<Option<u64>>,
    p: ValuePayload,
    ap: ArchivedPayloadView,
    i: int,
    o: int,
)
    requires
        h.wf(),
        table_ok(h, ab, t),
        payload_corr(p, ap, t),
        payload_bounded(p, i),
        apayload_wf(ap, o),
        0 <= i < t.len(),
    ensures
        apayload_model(ab, ap, o) == payload_model(h.blocks@, p, i),
    decreases i, 1int, 0int,
{
    match p {
        ValuePayload::Array(vs) => {
            let ws = ap->Arr_0;
            lemma_corr_words_model(h, ab, t, vs@, ws, i, o);
        },
        ValuePayload::Record(es) => {
            let aes = ap->Rec_0;
            lemma_corr_entries_model(h, ab, t, es@, aes, i, o);
        },
        _ => {},
    }
}

pub proof fn lemma_corr_word_model(
    h: ValueHeap,
    ab: Seq<ArchivedBlockView>,
    t: Seq<Option<u64>>,
    w: NickelValueRepr,
    aw: ArchivedValue,
    i: int,
    o: int,
)
    requires
        h.wf(),
        table_ok(h, ab, t),
        word_corr(w, aw, t),
        word_bounded(w, i),
        aword_bounded(aw, o),
        0 <= i < t.len(),
    ensures
        aword_model(ab, aw, o) == word_model(h.blocks@, w, i),
    decreases i, 0int, 0int,
{
    match w {
        NickelValueRepr::Inline(_, _) => {},
        NickelValueRepr::Block(j) => {
            assert(h.live(j as int));
            lemma_corr_block_model(h, ab, t, j as int);
        },
    }
}

pub proof fn lemma_corr_words_model(
    h: ValueHeap,
    ab: Seq<ArchivedBlockView>,
    t: Seq<Option<u64>>,
    vs: Seq<NickelValueRepr>,
    ws: Seq<ArchivedValue>,
    i: int,
    o: int,
)
    requires
        h.wf(),
        table_ok(h, ab, t),
        ws.len() == vs.len(),
        forall|k: int| 0 <= k < vs.len() ==> word_corr(vs[k], #[trigger] ws[k], t),
        forall|k: int| 0 <= k < vs.len() ==> word_bounded(#[trigger] vs[k], i),
        forall|k: int| 0 <= k < ws.len() ==> aword_bounded(#[trigger] ws[k], o),
        0 <= i < t.len(),
    ensures
        awords_model(ab, ws, o) == words_model(h.blocks@, vs, i),
    decreases i, 0int, vs.len(),
{
    if vs.len() > 0 {
        lemma_corr_words_model(h, ab, t, vs.drop_last(), ws.drop_last(), i, o);
        lemma_corr_word_model(h, ab, t, vs.last(), ws.last(), i, o);
    }
}

// ---------------------------------------------------------------------------
// Thunk freedom of a heap whose payloads never hold a thunk.
// ---------------------------------------------------------------------------

/// No live payload of the heap is a suspended computation.
pub open spec fn heap_thunk_free(h: ValueHeap) -> bool {
    forall|j: int| h.live(j) ==> !((#[trigger] h.blk(j)).payload is Thunk)
}

pub proof fn lemma_thunk_free_block(h: ValueHeap, i: int)
    requires
        heap_thunk_free(h),
    ensures
        !block_has_thunk(h.blocks@, i),
    decreases i,
{
    if 0 <= i < h.blocks@.len() && h.blocks@[i] is Some {
        assert(h.live(i));
        match h.blk(i).payload {
            ValuePayload::Array(vs) => {
                assert forall|m: int| 0 <= m < vs@.len() implies !crate::value::word_has_thunk(
                    h.blocks@, #[trigger] vs@[m], i) by {
                    match vs@[m] {
                        NickelValueRepr::Block(j) => {
                            if 0 <= (j as int) && (j as int) < i {
                                lemma_thunk_free_block(h, j as int);
                            }
                        },
                        NickelValueRepr::Inline(_, _) => {},
                    }
                }
                crate::value::lemma_words_thunk_none(h.blocks@, vs@, i);
            },
            ValuePayload::Record(es) => {
                assert forall|m: int| 0 <= m < es@.len() implies !crate::value::word_has_thunk(
                    h.blocks@, (#[trigger] es@[m]).1, i) by {
                    match es@[m].1 {
                        NickelValueRepr::Block(j) => {
                            if 0 <= (j as int) && (j as int) < i {
                                lemma_thunk_free_block(h, j as int);
                            }
                        },
                        NickelValueRepr::Inline(_, _) => {},
                    }
                }
                crate::value::lemma_entries_thunk_none(h.blocks@, es@, i);
            },
            _ => {},
        }
    }
}

pub proof fn lemma_corr_entries_model(
    h: ValueHeap,
    ab: Seq<ArchivedBlockView>,
    t: Seq<Option<u64>>,
    es: Seq<(Vec<u8>, NickelValueRepr)>,
    aes: Seq<(Seq<u8>, ArchivedValue)>,
    i: int,
    o: int,
)
    requires
        h.wf(),
        table_ok(h, ab, t),
        aes.len() == es.len(),
        forall|k: int| 0 <= k < es.len() ==> (#[trigger] aes[k]).0 == es[k].0@ && word_corr(
            es[k].1, aes[k].1, t),
        forall|k: int| 0 <= k < es.len() ==> word_bounded((#[trigger] es[k]).1, i),
        forall|k: int| 0 <= k < aes.len() ==> aword_bounded((#[trigger] aes[k]).1, o),
        0 <= i < t.len(),
    ensures
        aentries_model(ab, aes, o) == entries_model(h.blocks@, es, i),
    decreases i, 0int, es.len(),
{
    if es.len() > 0 {
        lemma_corr_entries_model(h, ab, t, es.drop_last(), aes.drop_last(), i, o);
        lemma_corr_word_model(h, ab, t, es.last().1, aes.last().1, i, o);
    }
}

// ---------------------------------------------------------------------------
// The sharing-aware serializer.
// ---------------------------------------------------------------------------

/// Copies a byte vector element by element.
pub fn copy_bytes(src: &Vec<u8>) -> (r: Vec<u8>)
    ensures
        r@ == src@,
{
    let mut out: Vec<u8> = Vec::new();
    let mut k: usize = 0;
    while k < src.len()
        invariant
            k <= src@.len(),
            out@ == src@.subrange(0, k as int),
        decreases src@.len() - k,
    {
        out.push(src[k]);
        k = k + 1;
        proof {
            assert(out@ =~= src@.subrange(0, k as int));
        }
    }
    proof {
        assert(out@ =~= src@);
    }
    out
}

/// Records a finished identity in the serializer's table.
fn table_set(table: &mut Vec<Option<u64>>, i: usize, o: u64)
    requires
        (i as int) < old(table)@.len(),
    ensures
        final(table)@ == old(table)@.update(i as int, Some(o)),
{
    table.push(None);
    table.swap_remove(i);
    table.push(Some(o));
    table.swap_remove(i);
    proof {
        assert(final(table)@ =~= old(table)@.update(i as int, Some(o)));
    }
}

/// Serializes one handle occurrence: an inline value is written in place,
/// a block handle is resolved through the identity table.
fn ser_word(
    h: &ValueHeap,
    w: &NickelValueRepr,
    blocks: &mut Vec<ArchivedBlock>,
    table: &mut Vec<Option<u64>>,
) -> (r: Result<ArchivedValue, StashError>)
    requires
        h.wf(),
        h.valid_value(*w),
        table_ok(*h, ablocks_view(old(blocks)@), old(table)@),
    ensures
        table_ok(*h, ablocks_view(final(blocks)@), final(table)@),
        table_extends(old(table)@, final(table)@),
        final(blocks)@.len() >= old(blocks)@.len(),
        forall|o: int| 0 <= o < old(blocks)@.len() ==> final(blocks)@[o] == old(blocks)@[o],
        forall|j: int| 0 <= j < old(table)@.len() && j > crate::value::word_ix(*w) && (
        #[trigger] old(table)@[j]) is None ==> final(table)@[j] is None,
        (*w matches NickelValueRepr::Inline(_, _) ==> final(blocks)@ == old(blocks)@
            && final(table)@ == old(table)@),
        match r {
            Ok(aw) => word_corr(*w, aw, final(table)@) && !crate::value::value_has_thunk(*h, *w)
                && aword_bounded(aw, final(blocks)@.len() as int),
            Err(e) => e == StashError::UnsupportedPayload && crate::value::value_has_thunk(
                *h, *w),
        },
    decreases crate::value::word_ix(*w), 2int,
{
    match w {
        NickelValueRepr::Inline(v, p) => Ok(ArchivedValue::Inline(*v, *p)),
        NickelValueRepr::Block(i) => match ser_block(h, *i, blocks, table) {
            Ok(o) => Ok(ArchivedValue::Ref(o)),
            Err(e) => Err(e),
        },
    }
}

/// Serializes one block, deduplicating by identity: the first encounter
/// archives the block's content (children first), every later encounter
/// returns the recorded ordinal as a back-reference.
#[verifier::loop_isolation(false)]
fn ser_block(
    h: &ValueHeap,
    i: usize,
    blocks: &mut Vec<ArchivedBlock>,
    table: &mut Vec<Option<u64>>,
) -> (r: Result<u64, StashError>)
    requires
        h.wf(),
        h.live(i as int),
        table_ok(*h, ablocks_view(old(blocks)@), old(table)@),
    ensures
        table_ok(*h, ablocks_view(final(blocks)@), final(table)@),
        table_extends(old(table)@, final(table)@),
        final(blocks)@.len() >= old(blocks)@.len(),
        forall|o: int| 0 <= o < old(blocks)@.len() ==> final(blocks)@[o] == old(blocks)@[o],
        forall|j: int| 0 <= j < old(table)@.len() && j > i as int && (
        #[trigger] old(table)@[j]) is None ==> final(table)@[j] is None,
        (old(table)@[i as int] is Some ==> final(table)@ == old(table)@ && final(blocks)@
            == old(blocks)@),
        match r {
            Ok(o) => final(table)@[i as int] == Some(o) && (o as int) < final(blocks)@.len()
                && !block_has_thunk(h.blocks@, i as int),
            Err(e) => e == StashError::UnsupportedPayload && block_has_thunk(
                h.blocks@, i as int),
        },
    decreases i as int, 1int,
{
    let existing: Option<u64> = table[i];
    match existing {
        Some(o) => {
            return Ok(o);
        },
        None => {},
    }
    let ghost hb = h.blocks@;
    let ghost t0 = table@;
    let ghost b0 = ablocks_view(blocks@);
    match &h.blocks[i] {
        Some(b) => {
            let ghost pay0 = b.payload;
            proof {
                assert(pay0 == h.blk(i as int).payload);
                assert(payload_bounded(pay0, i as int));
                assert(crate::value::payload_wf(pay0));
            }
            let ap: ArchivedPayload = match &b.payload {
                ValuePayload::Number(n) => {
                    let apv = ArchivedPayload::Num(copy_number(n));
                    proof {
                        assert(payload_corr(pay0, apv@, table@));
                        assert(apayload_wf(apv@, blocks@.len() as int));
                        assert(!crate::value::payload_has_thunk(hb, pay0, i as int));
                    }
                    apv
                },
                ValuePayload::Str(bs) => {
                    let apv = ArchivedPayload::Str(copy_bytes(bs));
                    proof {
                        assert(payload_corr(pay0, apv@, table@));
                        assert(apayload_wf(apv@, blocks@.len() as int));
                        assert(!crate::value::payload_has_thunk(hb, pay0, i as int));
                    }
                    apv
                },
                ValuePayload::Term(bs) => {
                    let apv = ArchivedPayload::Term(copy_bytes(bs));
                    proof {
                        assert(payload_corr(pay0, apv@, table@));
                        assert(apayload_wf(apv@, blocks@.len() as int));
                        assert(!crate::value::payload_has_thunk(hb, pay0, i as int));
                    }
                    apv
                },
                ValuePayload::Label(bs) => {
                    let apv = ArchivedPayload::Label(copy_bytes(bs));
                    proof {
                        assert(payload_corr(pay0, apv@, table@));
                        assert(apayload_wf(apv@, blocks@.len() as int));
                        assert(!crate::value::payload_has_thunk(hb, pay0, i as int));
                    }
                    apv
                },
                ValuePayload::EnumVariant(bs) => {
                    let apv = ArchivedPayload::EnumVariant(copy_bytes(bs));
                    proof {
                        assert(payload_corr(pay0, apv@, table@));
                        assert(apayload_wf(apv@, blocks@.len() as int));
                        assert(!crate::value::payload_has_thunk(hb, pay0, i as int));
                    }
                    apv
                },
                ValuePayload::ForeignId(x) => {
                    let apv = ArchivedPayload::Foreign(*x);
                    proof {
                        assert(payload_corr(pay0, apv@, table@));
                        assert(!crate::value::payload_has_thunk(hb, pay0, i as int));
                    }
                    apv
                },
                ValuePayload::SealingKey(x) => {
                    let apv = ArchivedPayload::Sealing(*x);
                    proof {
                        assert(payload_corr(pay0, apv@, table@));
                        assert(!crate::value::payload_has_thunk(hb, pay0, i as int));
                    }
                    apv
                },
                ValuePayload::CustomContract(bs) => {
                    let apv = ArchivedPayload::CustomContract(copy_bytes(bs));
                    proof {
                        assert(payload_corr(pay0, apv@, table@));
                        assert(apayload_wf(apv@, blocks@.len() as int));
                        assert(!crate::value::payload_has_thunk(hb, pay0, i as int));
                    }
                    apv
                },
                ValuePayload::Type(bs) => {
                    let apv = ArchivedPayload::Type(copy_bytes(bs));
                    proof {
                        assert(payload_corr(pay0, apv@, table@));
                        assert(apayload_wf(apv@, blocks@.len() as int));
                        assert(!crate::value::payload_has_thunk(hb, pay0, i as int));
                    }
                    apv
                },
                ValuePayload::Thunk => {
                    proof {
                        assert(crate::value::payload_has_thunk(hb, pay0, i as int));
                        assert(block_has_thunk(hb, i as int));
                    }
                    return Err(StashError::UnsupportedPayload);
                },
                ValuePayload::Array(vs) => {
                    let mut out: Vec<ArchivedValue> = Vec::new();
                    let mut k: usize = 0;
                    while k < vs.len()
                        invariant
                            k <= vs@.len(),
                            out@.len() == k as int,
                            pay0 == ValuePayload::Array(*vs),
                            h.wf(),
                            h.live(i as int),
                            pay0 == h.blk(i as int).payload,
                            table_ok(*h, ablocks_view(blocks@), table@),
                            table_extends(t0, table@),
                            table@[i as int] is None,
                            forall|j: int| 0 <= j < old(table)@.len() && j > i as int && (
                            #[trigger] old(table)@[j]) is None ==> table@[j] is None,
                            blocks@.len() >= old(blocks)@.len(),
                            forall|o: int| 0 <= o < old(blocks)@.len() ==> blocks@[o] == old(
                                blocks)@[o],
                            forall|m: int| 0 <= m < k as int ==> word_corr(
                                vs@[m], #[trigger] out@[m], table@) && aword_bounded(
                                out@[m], blocks@.len() as int),
                            forall|m: int| 0 <= m < k as int ==> !crate::value::word_has_thunk(
                                hb, #[trigger] vs@[m], i as int),
                        decreases vs@.len() - k,
                    {
                        let ghost tprev = table@;
                        let ghost bprev = blocks@;
                        proof {
                            assert(word_bounded(vs@[k as int], i as int));
                            match vs@[k as int] {
                                NickelValueRepr::Block(_) => {
                                    crate::value::lemma_child_live(*h, i as int, vs@[k as int]);
                                },
                                NickelValueRepr::Inline(_, _) => {},
                            }
                        }
                        let wref = &vs[k];
                        proof {
                            assert(*wref == vs@[k as int]);
                        }
                        let aw: ArchivedValue = match wref {
                            NickelValueRepr::Inline(v, p) => ArchivedValue::Inline(*v, *p),
                            NickelValueRepr::Block(j) => {
                                match ser_block(h, *j, blocks, table) {
                                    Ok(o) => ArchivedValue::Ref(o),
                                    Err(e) => {
                                        proof {
                                            assert(crate::value::word_has_thunk(
                                                hb, vs@[k as int], i as int));
                                            crate::value::lemma_words_thunk_elem(
                                                hb, vs@, i as int, k as int);
                                            assert(block_has_thunk(hb, i as int));
                                        }
                                        return Err(e);
                                    },
                                }
                            },
                        };
                        out.push(aw);
                        k = k + 1;
                        proof {
                            assert forall|m: int| 0 <= m < k as int implies word_corr(
                                vs@[m], #[trigger] out@[m], table@) && aword_bounded(
                                out@[m], blocks@.len() as int) by {
                                if m < k as int - 1 {
                                    lemma_word_corr_mono(vs@[m], out@[m], tprev, table@);
                                }
                            }
                            assert forall|m: int| 0 <= m < k as int implies
                                !crate::value::word_has_thunk(
                                hb, #[trigger] vs@[m], i as int) by {
                                if m == k as int - 1 {
                                    assert(word_bounded(vs@[m], i as int));
                                    match vs@[m] {
                                        NickelValueRepr::Block(j2) => {
                                            assert(!block_has_thunk(hb, j2 as int));
                                        },
                                        NickelValueRepr::Inline(_, _) => {},
                                    }
                                }
                            }
                        }
                    }
                    let apv = ArchivedPayload::Arr(out);
                    proof {
                        assert(payload_corr(pay0, apv@, table@));
                        assert(apayload_wf(apv@, blocks@.len() as int));
                        crate::value::lemma_words_thunk_none(hb, vs@, i as int);
                        assert(!crate::value::payload_has_thunk(hb, pay0, i as int));
                    }
                    apv
                },
                ValuePayload::Record(es) => {
                    let mut out: Vec<(Vec<u8>, ArchivedValue)> = Vec::new();
                    let mut k: usize = 0;
                    while k < es.len()
                        invariant
                            k <= es@.len(),
                            out@.len() == k as int,
                            pay0 == ValuePayload::Record(*es),
                            h.wf(),
                            h.live(i as int),
                            pay0 == h.blk(i as int).payload,
                            table_ok(*h, ablocks_view(blocks@), table@),
                            table_extends(t0, table@),
                            table@[i as int] is None,
                            forall|j: int| 0 <= j < old(table)@.len() && j > i as int && (
                            #[trigger] old(table)@[j]) is None ==> table@[j] is None,
                            blocks@.len() >= old(blocks)@.len(),
                            forall|o: int| 0 <= o < old(blocks)@.len() ==> blocks@[o] == old(
                                blocks)@[o],
                            forall|m: int| 0 <= m < k as int ==> (#[trigger] out@[m]).0@
                                == es@[m].0@ && word_corr(es@[m].1, out@[m].1, table@)
                                && aword_bounded(out@[m].1, blocks@.len() as int),
                            forall|m: int| 0 <= m < k as int ==> !crate::value::word_has_thunk(
                                hb, (#[trigger] es@[m]).1, i as int),
                        decreases es@.len() - k,
                    {
                        let ghost tprev = table@;
                        let ghost bprev = blocks@;
                        proof {
                            assert(word_bounded(es@[k as int].1, i as int));
                            match es@[k as int].1 {
                                NickelValueRepr::Block(_) => {
                                    crate::value::lemma_child_live(
                                        *h, i as int, es@[k as int].1);
                                },
                                NickelValueRepr::Inline(_, _) => {},
                            }
                        }
                        let key = copy_bytes(&es[k].0);
                        let wref = &es[k].1;
                        proof {
                            assert(*wref == es@[k as int].1);
                        }
                        let aw: ArchivedValue = match wref {
                            NickelValueRepr::Inline(v, p) => ArchivedValue::Inline(*v, *p),
                            NickelValueRepr::Block(j) => {
                                match ser_block(h, *j, blocks, table) {
                                    Ok(o) => ArchivedValue::Ref(o),
                                    Err(e) => {
                                        proof {
                                            assert(crate::value::word_has_thunk(
                                                hb, es@[k as int].1, i as int));
                                            crate::value::lemma_entries_thunk_elem(
                                                hb, es@, i as int, k as int);
                                            assert(block_has_thunk(hb, i as int));
                                        }
                                        return Err(e);
                                    },
                                }
                            },
                        };
                        out.push((key, aw));
                        k = k + 1;
                        proof {
                            assert forall|m: int| 0 <= m < k as int implies (
                            #[trigger] out@[m]).0@ == es@[m].0@ && word_corr(
                                es@[m].1, out@[m].1, table@) && aword_bounded(
                                out@[m].1, blocks@.len() as int) by {
                                if m < k as int - 1 {
                                    lemma_word_corr_mono(
                                        es@[m].1, out@[m].1, tprev, table@);
                                }
                            }
                            assert forall|m: int| 0 <= m < k as int implies
                                !crate::value::word_has_thunk(
                                hb, (#[trigger] es@[m]).1, i as int) by {
                                if m == k as int - 1 {
                                    assert(word_bounded(es@[m].1, i as int));
                                    match es@[m].1 {
                                        NickelValueRepr::Block(j2) => {
                                            assert(!block_has_thunk(hb, j2 as int));
                                        },
                                        NickelValueRepr::Inline(_, _) => {},
                                    }
                                }
                            }
                        }
                    }
                    let apv = ArchivedPayload::Rec(out);
                    proof {
                        assert(aentries_view(out@).len() == es@.len());
                        assert(payload_corr(pay0, apv@, table@));
                        assert forall|m: int| 0 <= m < out@.len() implies aword_bounded(
                            (#[trigger] aentries_view(out@)[m]).1, blocks@.len() as int) by {
                            assert(aentries_view(out@)[m].1 == out@[m].1);
                        }
                        assert(apayload_wf(apv@, blocks@.len() as int));
                        crate::value::lemma_entries_thunk_none(hb, es@, i as int);
                        assert(!crate::value::payload_has_thunk(hb, pay0, i as int));
                    }
                    apv
                },
            };
            let ghost tpre = table@;
            let ghost bpre = ablocks_view(blocks@);
            let ghost apg = ap;
            let o64: u64 = blocks.len() as u64;
            let nb = ArchivedBlock { pos: b.pos, payload: ap };
            let ghost nbg = nb;
            blocks.push(nb);
            table_set(table, i, o64);
            proof {
                let tb = table@;
                let ab2 = ablocks_view(blocks@);
                let o = o64 as int;
                assert(ab2 =~= bpre.push(nbg@));
                assert(tb == tpre.update(i as int, Some(o64)));
                assert(table_extends(tpre, tb));
                assert(table_extends(t0, tb));
                assert(payload_corr(pay0, apg@, tpre));
                lemma_payload_corr_mono(pay0, apg@, tpre, tb);
                assert(!block_has_thunk(hb, i as int)) by {
                    assert(!crate::value::payload_has_thunk(hb, pay0, i as int));
                }
                assert forall|i2: int|
                    0 <= i2 < tb.len() && (#[trigger] tb[i2]) is Some implies {
                    let o2 = tb[i2]->Some_0 as int;
                    &&& h.live(i2)
                    &&& 0 <= o2 < ab2.len()
                    &&& ab2[o2].pos == h.blk(i2).pos.0
                    &&& payload_corr(h.blk(i2).payload, ab2[o2].payload, tb)
                    &&& apayload_wf(ab2[o2].payload, o2)
                    &&& !block_has_thunk(h.blocks@, i2)
                } by {
                    if i2 == i as int {
                        assert(ab2[o] == nbg@);
                        assert(nbg@.pos == h.blk(i2).pos.0);
                        assert(nbg@.payload == apg@);
                    } else {
                        assert(tpre[i2] is Some);
                        let o2 = tpre[i2]->Some_0 as int;
                        assert(0 <= o2 < bpre.len());
                        assert(ab2[o2] == bpre[o2]);
                        lemma_payload_corr_mono(h.blk(i2).payload, bpre[o2].payload, tpre, tb);
                    }
                }
                assert forall|i1: int, i2: int|
                    0 <= i1 < tb.len() && 0 <= i2 < tb.len() && (#[trigger] tb[i1]) is Some
                        && (#[trigger] tb[i2]) is Some && tb[i1]->Some_0 == tb[i2]->Some_0
                    implies i1 == i2 by {
                    if i1 == i as int && i2 != i as int {
                        assert(tpre[i2] is Some);
                        assert((tpre[i2]->Some_0 as int) < bpre.len());
                    } else if i2 == i as int && i1 != i as int {
                        assert(tpre[i1] is Some);
                        assert((tpre[i1]->Some_0 as int) < bpre.len());
                    } else if i1 != i as int && i2 != i as int {
                        assert(tpre[i1] is Some && tpre[i2] is Some);
                    }
                }
                assert forall|o2: int| 0 <= o2 < ab2.len() implies apayload_wf(
                    (#[trigger] ab2[o2]).payload, o2) by {
                    if o2 < bpre.len() {
                        assert(ab2[o2] == bpre[o2]);
                    } else {
                        assert(ab2[o2] == nbg@);
                    }
                }
                assert forall|o2: int| 0 <= o2 < ab2.len() implies #[trigger] pool_owner(
                    tb, o2) by {
                    if o2 < bpre.len() {
                        assert(pool_owner(tpre, o2));
                        let i2 = choose|i2: int|
                            0 <= i2 < tpre.len() && (#[trigger] tpre[i2]) is Some
                                && tpre[i2]->Some_0 as int == o2;
                        assert(tpre[i as int] is None);
                        assert(i2 != i as int);
                        assert(tb[i2] is Some && tb[i2]->Some_0 as int == o2);
                    } else {
                        assert(tb[i as int] is Some && tb[i as int]->Some_0 as int == o2);
                    }
                }
                assert(tb.len() == h.blocks@.len());
                assert(table_ok(*h, ab2, tb));
            }
            Ok(o64)
        },
        None => {
            proof {
                assert(false);
            }
            Err(StashError::UnsupportedPayload)
        },
    }
}

/// Flattens a live value into its archived form, preserving sharing: each
/// distinct reachable block is archived once, and every handle that
/// aliased it becomes a reference to the one archived ordinal.
#[verifier::loop_isolation(false)]
pub fn build_archive(h: &ValueHeap, v: &NickelValueRepr) -> (r: Result<Archive, StashError>)
    requires
        h.wf(),
        h.valid_value(*v),
    ensures
        match r {
            Ok(a) => {
                &&& archive_wf(a@)
                &&& archive_model(a@) == crate::value::value_model(*h, *v)
                &&& !crate::value::value_has_thunk(*h, *v)
                &&& exists|t: Seq<Option<u64>>| #[trigger] table_ok(*h, a@.blocks, t)
                    && word_corr(*v, a@.root, t)
                &&& (*v matches NickelValueRepr::Inline(_, _) ==> a@.blocks.len() == 0)
            },
            Err(e) => e == StashError::UnsupportedPayload && crate::value::value_has_thunk(
                *h, *v),
        },
{
    let mut blocks: Vec<ArchivedBlock> = Vec::new();
    let mut table: Vec<Option<u64>> = Vec::new();
    let n = h.blocks.len();
    let mut k: usize = 0;
    while k < n
        invariant
            k <= n,
            n as int == h.blocks@.len(),
            table@.len() == k as int,
            forall|j: int| 0 <= j < k as int ==> table@[j] is None,
            blocks@.len() == 0,
        decreases n - k,
    {
        table.push(None);
        k = k + 1;
    }
    proof {
        assert(table_ok(*h, ablocks_view(blocks@), table@));
    }
    match ser_word(h, v, &mut blocks, &mut table) {
        Ok(aw) => {
            let a = Archive { blocks, root: aw };
            proof {
                let ab = a@.blocks;
                let t = table@;
                assert(archive_wf(a@));
                assert(archive_model(a@) == crate::value::value_model(*h, *v)) by {
                    match *v {
                        NickelValueRepr::Inline(_, _) => {},
                        NickelValueRepr::Block(j) => {
                            lemma_corr_block_model(*h, ab, t, j as int);
                        },
                    }
                }
            }
            Ok(a)
        },
        Err(e) => Err(e),
    }
}

// ---------------------------------------------------------------------------
// The pooling-aware deserializer.
// ---------------------------------------------------------------------------

/// The identity mapping: archived ordinal `o` names live block `o`.
pub open spec fn ident_table(n: int) -> Seq<Option<u64>> {
    Seq::new(n as nat, |o: int| Some(o as u64))
}

/// Rebuilds a live, correctly-shared, correctly-reference-counted graph
/// from a well-formed archive whose reference total fits the host word
/// (which holds of every archive parsed from a byte blob, where each
/// reference costs nine bytes). Each archived block is allocated exactly
/// once, at the heap index equal to its ordinal; every occurrence that
/// referenced the ordinal becomes a handle aliasing that one block, and
/// each block's reference count ends up exactly the number of handles the
/// rebuilt graph holds to it.
#[verifier::loop_isolation(false)]
#[verifier::rlimit(100)]
pub fn load_archive(a: &Archive) -> (r: (ValueHeap, NickelValueRepr))
    requires
        archive_wf(a@),
        archive_refs(a@) < usize::MAX,
    ensures
        r.0.wf(),
        r.0.valid_value(r.1),
        r.0.blocks@.len() == a@.blocks.len(),
        forall|k: int| 0 <= k < a@.blocks.len() ==> r.0.live(k),
        table_ok(r.0, a@.blocks, ident_table(a@.blocks.len() as int)),
        word_corr(r.1, a.root, ident_table(a@.blocks.len() as int)),
        forall|t: int| r.0.live(t) ==> (#[trigger] r.0.blk(t).ref_count) as nat == r.0.count(t)
            + crate::value::word_count(r.1, t),
        crate::value::value_model(r.0, r.1) == archive_model(a@),
        !crate::value::value_has_thunk(r.0, r.1),
{
    let mut h = ValueHeap::new();
    let n = a.blocks.len();
    let ghost nt = n as int;
    let ghost ab = a@.blocks;
    let mut k: usize = 0;
    while k < n
        invariant
            k <= n,
            h.wf(),
            h.blocks@.len() == k as int,
            forall|j: int| 0 <= j < k as int ==> h.live(j),
            forall|j: int| h.live(j) ==> (#[trigger] h.blk(j)).pos.0 == ab[j].pos
                && payload_corr(h.blk(j).payload, ab[j].payload, ident_table(nt))
                && !(h.blk(j).payload is Thunk),
            forall|t: int| h.live(t) ==> (#[trigger] h.blk(t).ref_count) as nat == h.count(t),
            forall|t: int| h.live(t) ==> (#[trigger] h.blk(t).ref_count) as nat
                <= ablocks_refs(ab, k as int),
        decreases n - k,
    {
        let ghost hpre = h;
        let abk = &a.blocks[k];
        proof {
            assert(abk@ == ab[k as int]);
            assert(apayload_wf(ab[k as int].payload, k as int));
        }
        let payload: ValuePayload = match &abk.payload {
            ArchivedPayload::Num(num) => {
                let p = ValuePayload::Number(copy_number(num));
                proof {
                    assert(apayload_refs(ab[k as int].payload) == 0);
                    assert(payload_corr(p, ab[k as int].payload, ident_table(nt)));
                    assert(crate::value::payload_wf(p));
                    assert(payload_bounded(p, k as int));
                    assert(forall|t: int| crate::value::payload_count(p, t) == 0);
                }
                p
            },
            ArchivedPayload::Str(bs) => {
                let p = ValuePayload::Str(copy_bytes(bs));
                proof {
                    assert(apayload_refs(ab[k as int].payload) == 0);
                    assert(payload_corr(p, ab[k as int].payload, ident_table(nt)));
                    assert(forall|t: int| crate::value::payload_count(p, t) == 0);
                }
                p
            },
            ArchivedPayload::Term(bs) => {
                let p = ValuePayload::Term(copy_bytes(bs));
                proof {
                    assert(apayload_refs(ab[k as int].payload) == 0);
                    assert(payload_corr(p, ab[k as int].payload, ident_table(nt)));
                    assert(forall|t: int| crate::value::payload_count(p, t) == 0);
                }
                p
            },
            ArchivedPayload::Label(bs) => {
                let p = ValuePayload::Label(copy_bytes(bs));
                proof {
                    assert(apayload_refs(ab[k as int].payload) == 0);
                    assert(payload_corr(p, ab[k as int].payload, ident_table(nt)));
                    assert(forall|t: int| crate::value::payload_count(p, t) == 0);
                }
                p
            },
            ArchivedPayload::EnumVariant(bs) => {
                let p = ValuePayload::EnumVariant(copy_bytes(bs));
                proof {
                    assert(apayload_refs(ab[k as int].payload) == 0);
                    assert(payload_corr(p, ab[k as int].payload, ident_table(nt)));
                    assert(forall|t: int| crate::value::payload_count(p, t) == 0);
                }
                p
            },
            ArchivedPayload::Foreign(x) => {
                let p = ValuePayload::ForeignId(*x);
                proof {
                    assert(apayload_refs(ab[k as int].payload) == 0);
                    assert(payload_corr(p, ab[k as int].payload, ident_table(nt)));
                    assert(forall|t: int| crate::value::payload_count(p, t) == 0);
                }
                p
            },
            ArchivedPayload::Sealing(x) => {
                let p = ValuePayload::SealingKey(*x);
                proof {
                    assert(apayload_refs(ab[k as int].payload) == 0);
                    assert(payload_corr(p, ab[k as int].payload, ident_table(nt)));
                    assert(forall|t: int| crate::value::payload_count(p, t) == 0);
                }
                p
            },
            ArchivedPayload::CustomContract(bs) => {
                let p = ValuePayload::CustomContract(copy_bytes(bs));
                proof {
                    assert(apayload_refs(ab[k as int].payload) == 0);
                    assert(payload_corr(p, ab[k as int].payload, ident_table(nt)));
                    assert(forall|t: int| crate::value::payload_count(p, t) == 0);
                }
                p
            },
            ArchivedPayload::Type(bs) => {
                let p = ValuePayload::Type(copy_bytes(bs));
                proof {
                    assert(apayload_refs(ab[k as int].payload) == 0);
                    assert(payload_corr(p, ab[k as int].payload, ident_table(nt)));
                    assert(forall|t: int| crate::value::payload_count(p, t) == 0);
                }
                p
            },
            ArchivedPayload::Arr(ws) => {
                let ghost wsv = ws@;
                proof {
                    assert(ab[k as int].payload == ArchivedPayloadView::Arr(wsv));
                }
                let mut out: Vec<NickelValueRepr> = Vec::new();
                let mut m: usize = 0;
                while m < ws.len()
                    invariant
                        m <= ws@.len(),
                        ws@ == wsv,
                        out@.len() == m as int,
                        h.wf(),
                        h.blocks@.len() == k as int,
                        k <= n,
                        forall|j: int| 0 <= j < k as int ==> h.live(j),
                        forall|j: int| h.live(j) ==> (#[trigger] h.blk(j)).pos.0 == ab[j].pos
                            && payload_corr(h.blk(j).payload, ab[j].payload, ident_table(nt))
                            && !(h.blk(j).payload is Thunk),
                        forall|mm: int| 0 <= mm < m as int ==> word_corr(
                            #[trigger] out@[mm], wsv[mm], ident_table(nt)) && word_bounded(
                            out@[mm], k as int),
                        forall|t: int| h.live(t) ==> (#[trigger] h.blk(t).ref_count) as nat
                            == h.count(t) + crate::value::words_count(out@, t),
                        forall|t: int| h.live(t) ==> (#[trigger] h.blk(t).ref_count) as nat
                            <= ablocks_refs(ab, k as int) + awords_refs(wsv.subrange(
                            0, m as int)),
                    decreases ws@.len() - m,
                {
                    let ghost outpre = out@;
                    let aw: ArchivedValue = ws[m];
                    proof {
                        assert(aw == wsv[m as int]);
                        assert(apayload_wf(ab[k as int].payload, k as int));
                        assert(ab[k as int].payload == ArchivedPayloadView::Arr(wsv));
                        assert(apayload_wf(ArchivedPayloadView::Arr(wsv), k as int));
                        lemma_arr_wf_bounded(ArchivedPayloadView::Arr(wsv), k as int, m as int);
                        assert(aword_bounded(wsv[m as int], k as int));
                        assert(aword_bounded(aw, k as int));
                    }
                    let w: NickelValueRepr = match aw {
                        ArchivedValue::Inline(v, p) => NickelValueRepr::Inline(v, p),
                        ArchivedValue::Ref(o) => {
                            let oi = o as usize;
                            proof {
                                assert((o as int) < k as int);
                                assert(h.live(oi as int));
                            }
                            proof {
                                // this reference's bump stays within the
                                // archive's total reference budget
                                assert(wsv.subrange(0, m as int + 1) =~= wsv.subrange(
                                    0, m as int).push(wsv[m as int]));
                                assert(wsv.subrange(0, m as int + 1).drop_last() =~= wsv.subrange(
                                    0, m as int));
                                lemma_awords_refs_prefix(wsv, m as int + 1);
                                assert(ablocks_refs(ab, k as int + 1) == ablocks_refs(
                                    ab, k as int) + awords_refs(wsv));
                                lemma_ablocks_refs_mono(ab, k as int + 1, nt);
                                assert(h.blk(oi as int).ref_count as nat + 1 <= archive_refs(
                                    a@));
                            }
                            let ghost hprev = h;
                            h.inc_ref(oi);
                            proof {
                                crate::value::lemma_bump_ref(hprev, h, oi as int);
                            }
                            NickelValueRepr::Block(oi)
                        },
                    };
                    out.push(w);
                    m = m + 1;
                    proof {
                        assert(out@ =~= outpre.push(w));
                        assert(out@.drop_last() =~= outpre);
                        assert forall|t: int| h.live(t) implies (#[trigger] h.blk(
                            t).ref_count) as nat == h.count(t) + crate::value::words_count(
                            out@, t) by {
                            assert(crate::value::words_count(out@, t)
                                == crate::value::words_count(outpre, t)
                                + crate::value::word_count(w, t));
                        }
                        assert(wsv.subrange(0, m as int) =~= wsv.subrange(0, m as int
                            - 1).push(wsv[m as int - 1]));
                        assert(wsv.subrange(0, m as int).drop_last() =~= wsv.subrange(
                            0, m as int - 1));
                        assert forall|t: int| h.live(t) implies (#[trigger] h.blk(
                            t).ref_count) as nat <= ablocks_refs(ab, k as int) + awords_refs(
                            wsv.subrange(0, m as int)) by {}
                    }
                }
                let p = ValuePayload::Array(out);
                proof {
                    assert(payload_corr(p, ab[k as int].payload, ident_table(nt)));
                    assert(payload_bounded(p, k as int));
                    assert(wsv.subrange(0, wsv.len() as int) =~= wsv);
                    assert(apayload_refs(ab[k as int].payload) == awords_refs(wsv));
                    assert forall|t: int| h.live(t) implies (#[trigger] h.blk(
                        t).ref_count) as nat <= ablocks_refs(ab, k as int) + apayload_refs(
                        ab[k as int].payload) by {}
                }
                p
            },
            ArchivedPayload::Rec(aes) => {
                let ghost aesv = aentries_view(aes@);
                proof {
                    assert(ab[k as int].payload == ArchivedPayloadView::Rec(aesv));
                }
                let mut out: Vec<(Vec<u8>, NickelValueRepr)> = Vec::new();
                let mut m: usize = 0;
                while m < aes.len()
                    invariant
                        m <= aes@.len(),
                        aesv == aentries_view(aes@),
                        aesv.len() == aes@.len(),
                        out@.len() == m as int,
                        h.wf(),
                        h.blocks@.len() == k as int,
                        k <= n,
                        forall|j: int| 0 <= j < k as int ==> h.live(j),
                        forall|j: int| h.live(j) ==> (#[trigger] h.blk(j)).pos.0 == ab[j].pos
                            && payload_corr(h.blk(j).payload, ab[j].payload, ident_table(nt))
                            && !(h.blk(j).payload is Thunk),
                        forall|mm: int| 0 <= mm < m as int ==> (#[trigger] out@[mm]).0@
                            == aesv[mm].0 && word_corr(out@[mm].1, aesv[mm].1, ident_table(nt))
                            && word_bounded(out@[mm].1, k as int),
                        forall|t: int| h.live(t) ==> (#[trigger] h.blk(t).ref_count) as nat
                            == h.count(t) + crate::value::entries_count(out@, t),
                        forall|t: int| h.live(t) ==> (#[trigger] h.blk(t).ref_count) as nat
                            <= ablocks_refs(ab, k as int) + aentries_refs(aesv.subrange(
                            0, m as int)),
                    decreases aes@.len() - m,
                {
                    let ghost outpre = out@;
                    let key = copy_bytes(&aes[m].0);
                    let aw: ArchivedValue = aes[m].1;
                    proof {
                        assert(aesv[m as int] == (aes@[m as int].0@, aes@[m as int].1));
                        assert(aw == aesv[m as int].1);
                        assert(apayload_wf(ab[k as int].payload, k as int));
                        assert(ab[k as int].payload == ArchivedPayloadView::Rec(aesv));
                        assert(apayload_wf(ArchivedPayloadView::Rec(aesv), k as int));
                        lemma_rec_wf_bounded(ArchivedPayloadView::Rec(aesv), k as int, m as int);
                        assert(aword_bounded(aesv[m as int].1, k as int));
                        assert(aword_bounded(aw, k as int));
                    }
                    let w: NickelValueRepr = match aw {
                        ArchivedValue::Inline(v, p) => NickelValueRepr::Inline(v, p),
                        ArchivedValue::Ref(o) => {
                            let oi = o as usize;
                            proof {
                                assert((o as int) < k as int);
                                assert(h.live(oi as int));
                            }
                            proof {
                                // this reference's bump stays within the
                                // archive's total reference budget
                                assert(aesv.subrange(0, m as int + 1) =~= aesv.subrange(
                                    0, m as int).push(aesv[m as int]));
                                assert(aesv.subrange(0, m as int + 1).drop_last() =~= aesv.subrange(
                                    0, m as int));
                                lemma_aentries_refs_prefix(aesv, m as int + 1);
                                assert(ablocks_refs(ab, k as int + 1) == ablocks_refs(
                                    ab, k as int) + aentries_refs(aesv));
                                lemma_ablocks_refs_mono(ab, k as int + 1, nt);
                                assert(h.blk(oi as int).ref_count as nat + 1 <= archive_refs(
                                    a@));
                            }
                            let ghost hprev = h;
                            h.inc_ref(oi);
                            proof {
                                crate::value::lemma_bump_ref(hprev, h, oi as int);
                            }
                            NickelValueRepr::Block(oi)
                        },
                    };
                    out.push((key, w));
                    m = m + 1;
                    proof {
                        assert(out@.drop_last() =~= outpre);
                        assert forall|t: int| h.live(t) implies (#[trigger] h.blk(
                            t).ref_count) as nat == h.count(t) + crate::value::entries_count(
                            out@, t) by {
                            assert(crate::value::entries_count(out@, t)
                                == crate::value::entries_count(outpre, t)
                                + crate::value::word_count(w, t));
                        }
                        assert(aesv.subrange(0, m as int) =~= aesv.subrange(0, m as int
                            - 1).push(aesv[m as int - 1]));
                        assert(aesv.subrange(0, m as int).drop_last() =~= aesv.subrange(
                            0, m as int - 1));
                        assert forall|t: int| h.live(t) implies (#[trigger] h.blk(
                            t).ref_count) as nat <= ablocks_refs(ab, k as int) + aentries_refs(
                            aesv.subrange(0, m as int)) by {}
                    }
                }
                let p = ValuePayload::Record(out);
                proof {
                    assert(payload_corr(p, ab[k as int].payload, ident_table(nt)));
                    assert(payload_bounded(p, k as int));
                    assert(aesv.subrange(0, aesv.len() as int) =~= aesv);
                    assert(apayload_refs(ab[k as int].payload) == aentries_refs(aesv));
                    assert forall|t: int| h.live(t) implies (#[trigger] h.blk(
                        t).ref_count) as nat <= ablocks_refs(ab, k as int) + apayload_refs(
                        ab[k as int].payload) by {}
                }
                p
            },
        };
        let ghost pg = payload;
        let ghost hmid = h;
        proof {
            assert(crate::value::can_embed(h, pg)) by {
                assert forall|t: int| h.live(t) implies (#[trigger] h.blk(t).ref_count) as nat
                    >= h.count(t) + crate::value::payload_count(pg, t) by {}
            }
        }
        let _ = h.alloc_block(ValueOwned { pos: abk.pos, payload }, 0);
        k = k + 1;
        proof {
            let newb = h.blocks@;
            let kk = k as int - 1;
            assert(newb == hmid.blocks@.push(Some(
                (ValueBlock { ref_count: 0, pos: abk.pos, payload: pg }),
            )));
            assert forall|j: int| 0 <= j < k as int implies #[trigger] h.live(j) by {
                if j < kk {
                    assert(hmid.live(j));
                }
            }
            assert forall|j: int| h.live(j) implies (#[trigger] h.blk(j)).pos.0 == ab[j].pos
                && payload_corr(h.blk(j).payload, ab[j].payload, ident_table(nt))
                && !(h.blk(j).payload is Thunk) by {
                if j < kk {
                    assert(hmid.live(j));
                    assert(h.blk(j) == hmid.blk(j));
                } else {
                    assert(j == kk);
                    assert(h.blk(j).payload == pg);
                }
            }
            assert forall|t: int| h.live(t) implies (#[trigger] h.blk(t).ref_count) as nat
                <= ablocks_refs(ab, k as int) by {
                assert(ablocks_refs(ab, kk + 1) == ablocks_refs(ab, kk) + apayload_refs(
                    ab[kk].payload));
                if t < kk {
                    assert(hmid.live(t));
                    assert(h.blk(t) == hmid.blk(t));
                } else {
                    assert(t == kk);
                    assert(h.blk(t).ref_count == 0);
                }
            }
            assert forall|t: int| h.live(t) implies (#[trigger] h.blk(t).ref_count) as nat
                == h.count(t) by {
                crate::value::lemma_count_congruent(newb, hmid.blocks@, t, kk);
                assert(h.count(t) == crate::value::heap_count_upto(newb, t, kk)
                    + crate::value::slot_count(newb[kk], t));
                if t < kk {
                    assert(hmid.live(t));
                    assert(h.blk(t) == hmid.blk(t));
                    assert(crate::value::slot_count(newb[kk], t)
                        == crate::value::payload_count(pg, t));
                } else {
                    assert(t == kk);
                    crate::value::lemma_payload_count_bounded(pg, kk, t);
                    assert forall|j2: int| 0 <= j2 < kk implies crate::value::slot_count(
                        #[trigger] newb[j2], t) == 0 by {
                        assert(hmid.live(j2));
                        crate::value::lemma_payload_count_bounded(hmid.blk(j2).payload, j2, t);
                    }
                    crate::value::lemma_count_zero_when_all_zero(newb, t, kk);
                }
            }
        }
    }
    let v: NickelValueRepr = match a.root {
        ArchivedValue::Inline(iv, p) => NickelValueRepr::Inline(iv, p),
        ArchivedValue::Ref(o) => {
            let oi = o as usize;
            proof {
                assert(aword_bounded(a@.root, nt));
                assert((o as int) < nt);
                assert(h.live(oi as int));
            }
            proof {
                assert(aword_refs(a@.root) == 1);
                assert(h.blk(oi as int).ref_count as nat + 1 <= archive_refs(a@));
            }
            let ghost prev = h;
            h.inc_ref(oi);
            proof {
                assert(h.blocks@.len() == prev.blocks@.len());
                assert forall|j: int| h.live(j) implies prev.live(j) && #[trigger] h.blk(j).pos
                    == prev.blk(j).pos && h.blk(j).payload == prev.blk(j).payload by {
                    if j != oi as int {
                        assert(h.blk(j) == prev.blk(j));
                    }
                }
                assert forall|j: int| prev.live(j) implies #[trigger] h.live(j) by {}
                assert forall|t: int| #[trigger] h.count(t) == prev.count(t) by {
                    assert forall|k2: int| 0 <= k2 < prev.blocks@.len() implies
                        crate::value::slot_count(#[trigger] h.blocks@[k2], t)
                        == crate::value::slot_count(prev.blocks@[k2], t) by {
                        if k2 != oi as int {
                            assert(h.blocks@[k2] == prev.blocks@[k2]);
                        }
                    }
                    crate::value::lemma_count_congruent(
                        h.blocks@, prev.blocks@, t, prev.blocks@.len() as int);
                }
                assert forall|j: int| h.live(j) implies (#[trigger] h.blk(j)).pos.0 == ab[j].pos
                    && payload_corr(h.blk(j).payload, ab[j].payload, ident_table(nt))
                    && !(h.blk(j).payload is Thunk) by {
                    assert(prev.live(j));
                }
                assert forall|t: int| h.live(t) implies (#[trigger] h.blk(t).ref_count) as nat
                    == h.count(t) + (if t == oi as int {
                    1nat
                } else {
                    0nat
                }) by {
                    assert(prev.live(t));
                    if t != oi as int {
                        assert(h.blk(t) == prev.blk(t));
                    }
                }
                assert(forall|j: int| 0 <= j < nt ==> #[trigger] h.live(j));
                assert(h.blocks@.len() == nt);
            }
            NickelValueRepr::Block(oi)
        },
    };
    proof {
        match v {
            NickelValueRepr::Block(j) => {
                assert forall|t: int| h.live(t) implies (#[trigger] h.blk(t).ref_count) as nat
                    == h.count(t) + crate::value::word_count(v, t) by {}
            },
            NickelValueRepr::Inline(_, _) => {
                assert forall|t: int| h.live(t) implies (#[trigger] h.blk(t).ref_count) as nat
                    == h.count(t) + crate::value::word_count(v, t) by {}
            },
        }
        assert(table_ok(h, ab, ident_table(nt))) by {
            assert forall|o: int| 0 <= o < ab.len() implies #[trigger] pool_owner(
                ident_table(nt), o) by {
                assert(ident_table(nt)[o] is Some && ident_table(nt)[o]->Some_0 as int == o);
            }
            assert forall|i: int|
                0 <= i < ident_table(nt).len() && (#[trigger] ident_table(nt)[i]) is Some
                implies {
                let o = ident_table(nt)[i]->Some_0 as int;
                &&& h.live(i)
                &&& 0 <= o < ab.len()
                &&& ab[o].pos == h.blk(i).pos.0
                &&& payload_corr(h.blk(i).payload, ab[o].payload, ident_table(nt))
                &&& apayload_wf(ab[o].payload, o)
                &&& !block_has_thunk(h.blocks@, i)
            } by {
                assert(ident_table(nt)[i]->Some_0 as int == i);
                assert(heap_thunk_free(h));
                lemma_thunk_free_block(h, i);
            }
        }
        assert(crate::value::value_model(h, v) == archive_model(a@)) by {
            match a@.root {
                ArchivedValue::Inline(_, _) => {},
                ArchivedValue::Ref(o) => {
                    lemma_corr_block_model(h, ab, ident_table(nt), o as int);
                },
            }
        }
        match v {
            NickelValueRepr::Block(j) => {
                assert(heap_thunk_free(h));
                lemma_thunk_free_block(h, j as int);
            },
            NickelValueRepr::Inline(_, _) => {},
        }
    }
    (h, v)
}

} // verus!
