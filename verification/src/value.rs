//! The live value model: an arena of reference-counted blocks.
//!
//! A value handle is either an inline scalar (no heap allocation, no
//! identity) or a reference to a block held in a `ValueHeap`. Blocks are
//! addressed by opaque indices into the arena; the index is the block's
//! identity for archiving. A block's payload may hold further handles, and
//! every such child reference points strictly below the referencing block,
//! so the stored graph is acyclic by construction and reference cycles can
//! never be built. Each block carries a reference count: the number of
//! handles (inside other blocks' payloads or held by the caller) that alias
//! it. Cloning a handle increments the count, dropping a handle decrements
//! it, and a block whose last handle is dropped is freed together with the
//! handles its payload owned.

use vstd::prelude::*;
use crate::number::NumberStash;
use crate::number::number_wf;

verus! {

/// Identifier of an interned source position. The archiver does not look
/// inside it; it only promises that it round-trips unchanged.
#[derive(Clone, Copy, PartialEq, Eq, Structural, Debug)]
pub struct PosIdx(pub u32);

/// A scalar encoded directly in a handle: no heap block, no identity.
#[derive(Clone, Copy, PartialEq, Eq, Structural, Debug)]
pub enum InlineValue {
    Null,
    True,
    False,
}

/// A value handle: an inline scalar with its position, or a reference to a
/// reference-counted block of a `ValueHeap`. Handles are deliberately not
/// `Clone`: aliasing a block goes through `clone_value`, which maintains
/// the block's reference count.
#[derive(PartialEq, Eq, Structural, Debug)]
pub enum NickelValueRepr {
    Inline(InlineValue, PosIdx),
    Block(usize),
}

/// The content of one block: a closed sum over the value kinds this core
/// archives. Containers hold child handles; `Thunk` stands for a suspended
/// computation, which this core refuses to archive. The kinds whose
/// internal layout belongs to other subsystems — strings, syntax-tree
/// terms, contract labels, enum-variant data, custom-contract data, type
/// descriptors — carry their own serialized form as opaque bytes, which
/// this core moves through the archive unchanged.
pub enum ValuePayload {
    Number(NumberStash),
    Str(Vec<u8>),
    Array(Vec<NickelValueRepr>),
    Record(Vec<(Vec<u8>, NickelValueRepr)>),
    Term(Vec<u8>),
    Label(Vec<u8>),
    EnumVariant(Vec<u8>),
    ForeignId(u32),
    SealingKey(u64),
    CustomContract(Vec<u8>),
    Type(Vec<u8>),
    Thunk,
}

/// An owned, detached snapshot of one block's content: its position
/// identifier paired with its payload.
pub struct ValueOwned {
    pub pos: PosIdx,
    pub payload: ValuePayload,
}

/// One live block: reference count, position, payload.
pub struct ValueBlock {
    pub ref_count: usize,
    pub pos: PosIdx,
    pub payload: ValuePayload,
}

/// The arena. A slot is `Some` while its block is live and `None` after
/// the block is freed; freed slots are never reused, so an index names the
/// same block for the whole life of the heap.
pub struct ValueHeap {
    pub blocks: Vec<Option<ValueBlock>>,
}

// ---------------------------------------------------------------------------
// Structure: child references point strictly below a bound.
// ---------------------------------------------------------------------------

pub open spec fn word_bounded(w: NickelValueRepr, bound: int) -> bool {
    match w {
        NickelValueRepr::Inline(_, _) => true,
        NickelValueRepr::Block(i) => (i as int) < bound,
    }
}

pub open spec fn payload_bounded(p: ValuePayload, bound: int) -> bool {
    match p {
        ValuePayload::Array(vs) => forall|k: int|
            0 <= k < vs@.len() ==> word_bounded(#[trigger] vs@[k], bound),
        ValuePayload::Record(es) => forall|k: int|
            0 <= k < es@.len() ==> word_bounded((#[trigger] es@[k]).1, bound),
        _ => true,
    }
}

/// Payload-kind invariant: stashed numbers are canonical.
pub open spec fn payload_wf(p: ValuePayload) -> bool {
    match p {
        ValuePayload::Number(n) => number_wf(n),
        _ => true,
    }
}

// ---------------------------------------------------------------------------
// Reference counting: occurrences of a block index in payloads.
// ---------------------------------------------------------------------------

pub open spec fn word_count(w: NickelValueRepr, t: int) -> nat {
    match w {
        NickelValueRepr::Block(i) => if i as int == t { 1nat } else { 0nat },
        _ => 0nat,
    }
}

pub open spec fn words_count(ws: Seq<NickelValueRepr>, t: int) -> nat
    decreases ws.len(),
{
    if ws.len() == 0 {
        0nat
    } else {
        words_count(ws.drop_last(), t) + word_count(ws.last(), t)
    }
}

pub open spec fn entries_count(es: Seq<(Vec<u8>, NickelValueRepr)>, t: int) -> nat
    decreases es.len(),
{
    if es.len() == 0 {
        0nat
    } else {
        entries_count(es.drop_last(), t) + word_count(es.last().1, t)
    }
}

pub open spec fn payload_count(p: ValuePayload, t: int) -> nat {
    match p {
        ValuePayload::Array(vs) => words_count(vs@, t),
        ValuePayload::Record(es) => entries_count(es@, t),
        _ => 0nat,
    }
}

pub open spec fn slot_count(s: Option<ValueBlock>, t: int) -> nat {
    match s {
        Some(b) => payload_count(b.payload, t),
        None => 0nat,
    }
}

/// References to block `t` from the payloads of the first `n` slots.
pub open spec fn heap_count_upto(blocks: Seq<Option<ValueBlock>>, t: int, n: int) -> nat
    decreases n,
{
    if n <= 0 {
        0nat
    } else {
        heap_count_upto(blocks, t, n - 1) + slot_count(blocks[n - 1], t)
    }
}

// ---------------------------------------------------------------------------
// The heap invariant.
// ---------------------------------------------------------------------------

impl ValueHeap {
    /// Slot `i` holds a live block.
    pub open spec fn live(self, i: int) -> bool {
        0 <= i < self.blocks@.len() && self.blocks@[i] is Some
    }

    pub open spec fn blk(self, i: int) -> ValueBlock {
        self.blocks@[i]->Some_0
    }

    /// References to block `t` from all live payloads of the heap.
    pub open spec fn count(self, t: int) -> nat {
        heap_count_upto(self.blocks@, t, self.blocks@.len() as int)
    }

    /// The arena invariant:
    /// - every live payload refers only to blocks strictly below it (so the
    ///   graph is acyclic) and satisfies the payload-kind invariant;
    /// - a live block's reference count covers at least the references the
    ///   heap itself holds (the surplus are handles the caller owns);
    /// - a freed slot is referenced by no live payload.
    pub open spec fn wf(self) -> bool {
        &&& (forall|i: int| self.live(i) ==> payload_bounded(#[trigger] self.blk(i).payload, i))
        &&& (forall|i: int| self.live(i) ==> payload_wf(#[trigger] self.blk(i).payload))
        &&& (forall|i: int| self.live(i) ==> (#[trigger] self.blk(i).ref_count) as nat >= self.count(i))
        &&& (forall|i: int|
            0 <= i < self.blocks@.len() && !self.live(i) ==> #[trigger] self.count(i) == 0)
    }

    /// A handle the caller may use against this heap.
    pub open spec fn valid_value(self, w: NickelValueRepr) -> bool {
        match w {
            NickelValueRepr::Inline(_, _) => true,
            NickelValueRepr::Block(i) => self.live(i as int),
        }
    }
}

// ---------------------------------------------------------------------------
// The abstract value: the tree a handle denotes, sharing flattened away.
// ---------------------------------------------------------------------------

pub enum ValueModel {
    Inline(InlineValue, u32),
    Blk(u32, PayloadModel),
}

pub enum PayloadModel {
    Num(bool, Seq<u64>, Seq<u64>),
    Str(Seq<u8>),
    Arr(Seq<ValueModel>),
    Rec(Seq<(Seq<u8>, ValueModel)>),
    Term(Seq<u8>),
    Label(Seq<u8>),
    EnumVariant(Seq<u8>),
    Foreign(u32),
    Sealing(u64),
    CustomContract(Seq<u8>),
    Type(Seq<u8>),
    Thunk,
}

pub open spec fn block_model(blocks: Seq<Option<ValueBlock>>, i: int) -> ValueModel
    decreases i, 2int, 0int,
{
    if 0 <= i < blocks.len() && blocks[i] is Some {
        let b = blocks[i]->Some_0;
        ValueModel::Blk(b.pos.0, payload_model(blocks, b.payload, i))
    } else {
        ValueModel::Inline(InlineValue::Null, 0)
    }
}

pub open spec fn payload_model(blocks: Seq<Option<ValueBlock>>, p: ValuePayload, i: int) -> PayloadModel
    decreases i, 1int, 0int,
{
    match p {
        ValuePayload::Number(n) => PayloadModel::Num(n.sign, n.num@, n.den@),
        ValuePayload::Str(bs) => PayloadModel::Str(bs@),
        ValuePayload::Array(vs) => PayloadModel::Arr(words_model(blocks, vs@, i)),
        ValuePayload::Record(es) => PayloadModel::Rec(entries_model(blocks, es@, i)),
        ValuePayload::Term(bs) => PayloadModel::Term(bs@),
        ValuePayload::Label(bs) => PayloadModel::Label(bs@),
        ValuePayload::EnumVariant(bs) => PayloadModel::EnumVariant(bs@),
        ValuePayload::ForeignId(x) => PayloadModel::Foreign(x),
        ValuePayload::SealingKey(x) => PayloadModel::Sealing(x),
        ValuePayload::CustomContract(bs) => PayloadModel::CustomContract(bs@),
        ValuePayload::Type(bs) => PayloadModel::Type(bs@),
        ValuePayload::Thunk => PayloadModel::Thunk,
    }
}

pub open spec fn word_model(blocks: Seq<Option<ValueBlock>>, w: NickelValueRepr, i: int) -> ValueModel
    decreases i, 0int, 0int,
{
    match w {
        NickelValueRepr::Inline(v, p) => ValueModel::Inline(v, p.0),
        NickelValueRepr::Block(j) => if 0 <= (j as int) && (j as int) < i {
            block_model(blocks, j as int)
        } else {
            ValueModel::Inline(InlineValue::Null, 0)
        },
    }
}

pub open spec fn words_model(blocks: Seq<Option<ValueBlock>>, ws: Seq<NickelValueRepr>, i: int) -> Seq<ValueModel>
    decreases i, 0int, ws.len(),
{
    if ws.len() == 0 {
        Seq::empty()
    } else {
        words_model(blocks, ws.drop_last(), i).push(word_model(blocks, ws.last(), i))
    }
}

pub open spec fn entries_model(
    blocks: Seq<Option<ValueBlock>>,
    es: Seq<(Vec<u8>, NickelValueRepr)>,
    i: int,
) -> Seq<(Seq<u8>, ValueModel)>
    decreases i, 0int, es.len(),
{
    if es.len() == 0 {
        Seq::empty()
    } else {
        entries_model(blocks, es.drop_last(), i).push(
            (es.last().0@, word_model(blocks, es.last().1, i)),
        )
    }
}

/// The tree denoted by a handle against its heap.
pub open spec fn value_model(h: ValueHeap, w: NickelValueRepr) -> ValueModel {
    match w {
        NickelValueRepr::Inline(v, p) => ValueModel::Inline(v, p.0),
        NickelValueRepr::Block(i) => block_model(h.blocks@, i as int),
    }
}

// ---------------------------------------------------------------------------
// Suspended computations reachable from a handle.
// ---------------------------------------------------------------------------

pub open spec fn block_has_thunk(blocks: Seq<Option<ValueBlock>>, i: int) -> bool
    decreases i, 2int, 0int,
{
    if 0 <= i < blocks.len() && blocks[i] is Some {
        payload_has_thunk(blocks, blocks[i]->Some_0.payload, i)
    } else {
        false
    }
}

pub open spec fn payload_has_thunk(blocks: Seq<Option<ValueBlock>>, p: ValuePayload, i: int) -> bool
    decreases i, 1int, 0int,
{
    match p {
        ValuePayload::Thunk => true,
        ValuePayload::Array(vs) => words_have_thunk(blocks, vs@, i),
        ValuePayload::Record(es) => entries_have_thunk(blocks, es@, i),
        _ => false,
    }
}

pub open spec fn word_has_thunk(blocks: Seq<Option<ValueBlock>>, w: NickelValueRepr, i: int) -> bool
    decreases i, 0int, 0int,
{
    match w {
        NickelValueRepr::Inline(_, _) => false,
        NickelValueRepr::Block(j) => if 0 <= (j as int) && (j as int) < i {
            block_has_thunk(blocks, j as int)
        } else {
            false
        },
    }
}

pub open spec fn words_have_thunk(blocks: Seq<Option<ValueBlock>>, ws: Seq<NickelValueRepr>, i: int) -> bool
    decreases i, 0int, ws.len(),
{
    if ws.len() == 0 {
        false
    } else {
        words_have_thunk(blocks, ws.drop_last(), i) || word_has_thunk(blocks, ws.last(), i)
    }
}

pub open spec fn entries_have_thunk(
    blocks: Seq<Option<ValueBlock>>,
    es: Seq<(Vec<u8>, NickelValueRepr)>,
    i: int,
) -> bool
    decreases i, 0int, es.len(),
{
    if es.len() == 0 {
        false
    } else {
        entries_have_thunk(blocks, es.drop_last(), i) || word_has_thunk(blocks, es.last().1, i)
    }
}

/// A suspended computation is reachable from the handle.
pub open spec fn value_has_thunk(h: ValueHeap, w: NickelValueRepr) -> bool {
    match w {
        NickelValueRepr::Inline(_, _) => false,
        NickelValueRepr::Block(i) => block_has_thunk(h.blocks@, i as int),
    }
}

// ---------------------------------------------------------------------------
// Counting lemmas.
// ---------------------------------------------------------------------------

/// Two slot sequences that give every slot below `n` the same count give
/// the prefix the same count.
pub proof fn lemma_count_congruent(
    b1: Seq<Option<ValueBlock>>,
    b2: Seq<Option<ValueBlock>>,
    t: int,
    n: int,
)
    requires
        forall|k: int| 0 <= k < n ==> slot_count(#[trigger] b1[k], t) == slot_count(b2[k], t),
    ensures
        heap_count_upto(b1, t, n) == heap_count_upto(b2, t, n),
    decreases n,
{
    if n > 0 {
        lemma_count_congruent(b1, b2, t, n - 1);
    }
}

/// A payload bounded below `b` holds no reference at or above `b`.
pub proof fn lemma_words_count_bounded(ws: Seq<NickelValueRepr>, b: int, t: int)
    requires
        forall|k: int| 0 <= k < ws.len() ==> word_bounded(#[trigger] ws[k], b),
        t >= b,
    ensures
        words_count(ws, t) == 0,
    decreases ws.len(),
{
    if ws.len() > 0 {
        assert(forall|k: int| 0 <= k < ws.drop_last().len() ==> word_bounded(
            #[trigger] ws.drop_last()[k], b));
        lemma_words_count_bounded(ws.drop_last(), b, t);
        assert(word_bounded(ws[ws.len() - 1], b));
    }
}

pub proof fn lemma_entries_count_bounded(es: Seq<(Vec<u8>, NickelValueRepr)>, b: int, t: int)
    requires
        forall|k: int| 0 <= k < es.len() ==> word_bounded((#[trigger] es[k]).1, b),
        t >= b,
    ensures
        entries_count(es, t) == 0,
    decreases es.len(),
{
    if es.len() > 0 {
        assert(forall|k: int| 0 <= k < es.drop_last().len() ==> word_bounded(
            (#[trigger] es.drop_last()[k]).1, b));
        lemma_entries_count_bounded(es.drop_last(), b, t);
        assert(word_bounded(es[es.len() - 1].1, b));
    }
}

pub proof fn lemma_payload_count_bounded(p: ValuePayload, b: int, t: int)
    requires
        payload_bounded(p, b),
        t >= b,
    ensures
        payload_count(p, t) == 0,
{
    match p {
        ValuePayload::Array(vs) => lemma_words_count_bounded(vs@, b, t),
        ValuePayload::Record(es) => lemma_entries_count_bounded(es@, b, t),
        _ => {},
    }
}

// ---------------------------------------------------------------------------
// Heap operations.
// ---------------------------------------------------------------------------

/// The caller owns handles into `h` that cover embedding `p` once more:
/// every live block has count surplus for its occurrences in `p`, and `p`
/// references no freed slot.
pub open spec fn can_embed(h: ValueHeap, p: ValuePayload) -> bool {
    &&& (forall|t: int| h.live(t) ==> (#[trigger] h.blk(t).ref_count) as nat >= h.count(t)
        + payload_count(p, t))
    &&& (forall|t: int|
        0 <= t < h.blocks@.len() && !h.live(t) ==> #[trigger] payload_count(p, t) == 0)
}

impl ValueHeap {
    /// An empty arena.
    pub fn new() -> (h: ValueHeap)
        ensures
            h.wf(),
            h.blocks@.len() == 0,
    {
        ValueHeap { blocks: Vec::new() }
    }

    /// Allocates a block from an owned snapshot, transferring the handles
    /// inside the snapshot's payload into the new block. The new block's
    /// reference count starts at `initial`: 1 when the caller keeps the
    /// returned handle, 0 when the block is, for the moment, owned by
    /// nothing but the arena.
    pub fn alloc_block(&mut self, owned: ValueOwned, initial: usize) -> (i: usize)
        requires
            old(self).wf(),
            payload_bounded(owned.payload, old(self).blocks@.len() as int),
            payload_wf(owned.payload),
            can_embed(*old(self), owned.payload),
        ensures
            i as int == old(self).blocks@.len(),
            final(self).blocks@ == old(self).blocks@.push(Some(
                (ValueBlock { ref_count: initial, pos: owned.pos, payload: owned.payload }),
            )),
            final(self).wf(),
    {
        let i = self.blocks.len();
        let ghost oldb = self.blocks@;
        let nb = ValueBlock { ref_count: initial, pos: owned.pos, payload: owned.payload };
        let ghost nbg = nb;
        self.blocks.push(Some(nb));
        proof {
            let newb = self.blocks@;
            let n = oldb.len() as int;
            assert forall|t: int| #![all_triggers] true implies heap_count_upto(newb, t, n + 1)
                == heap_count_upto(oldb, t, n) + payload_count(nbg.payload, t) by {
                lemma_count_congruent(newb, oldb, t, n);
                assert(newb[n] == Some(nbg));
            }
            assert forall|t: int| self.live(t) implies (#[trigger] self.blk(t).ref_count) as nat
                >= self.count(t) by {
                if t < n {
                    assert(old(self).live(t));
                    assert(self.blk(t) == old(self).blk(t));
                } else {
                    assert(t == n);
                    lemma_payload_count_bounded(nbg.payload, n, t);
                    assert(forall|k: int| 0 <= k < n ==> oldb[k] == newb[k]);
                    assert forall|k: int| 0 <= k < n implies slot_count(#[trigger] newb[k], t)
                        == 0nat by {
                        if newb[k] is Some {
                            assert(old(self).live(k));
                            lemma_payload_count_bounded(old(self).blk(k).payload, k, t);
                        }
                    }
                    assert(heap_count_upto(newb, t, n) == 0) by {
                        lemma_count_zero_when_all_zero(newb, t, n);
                    }
                }
            }
            assert forall|t: int| 0 <= t < self.blocks@.len() && !self.live(t) implies
                #[trigger] self.count(t) == 0 by {
                assert(t < n);
                assert(!old(self).live(t));
                lemma_count_congruent(newb, oldb, t, n);
                assert(old(self).count(t) == 0);
                assert(payload_count(nbg.payload, t) == 0);
                assert(self.count(t) == heap_count_upto(newb, t, n) + slot_count(newb[n], t));
            }
            assert forall|i2: int| self.live(i2) implies payload_bounded(
                #[trigger] self.blk(i2).payload, i2) && payload_wf(self.blk(i2).payload) by {
                if i2 < n {
                    assert(old(self).live(i2));
                    assert(self.blk(i2) == old(self).blk(i2));
                }
            }
        }
        i
    }

    /// Increments a live block's reference count: the caller gains one
    /// aliasing handle.
    pub fn inc_ref(&mut self, i: usize)
        requires
            old(self).wf(),
            old(self).live(i as int),
            old(self).blk(i as int).ref_count < usize::MAX,
        ensures
            final(self).blocks@ == old(self).blocks@.update(i as int, Some(
                (ValueBlock {
                    ref_count: (old(self).blk(i as int).ref_count + 1) as usize,
                    pos: old(self).blk(i as int).pos,
                    payload: old(self).blk(i as int).payload,
                }),
            )),
            final(self).wf(),
    {
        let n = self.blocks.len();
        let ghost oldb = self.blocks@;
        self.blocks.push(None);
        let slot = self.blocks.swap_remove(i);
        match slot {
            Some(b) => {
                let nb = ValueBlock {
                    ref_count: b.ref_count + 1,
                    pos: b.pos,
                    payload: b.payload,
                };
                self.blocks.push(Some(nb));
                self.blocks.swap_remove(i);
                proof {
                    let ghost nbg = nb;
                    assert(self.blocks@ =~= oldb.update(i as int, Some(nbg)));
                    let newb = self.blocks@;
                    let m = oldb.len() as int;
                    assert forall|t: int| self.live(t) implies (#[trigger] self.blk(
                        t).ref_count) as nat >= self.count(t) by {
                        assert forall|k: int| 0 <= k < m implies slot_count(#[trigger] newb[k], t)
                            == slot_count(oldb[k], t) by {
                            if k != i as int {
                                assert(newb[k] == oldb[k]);
                            }
                        }
                        lemma_count_congruent(newb, oldb, t, m);
                        assert(old(self).live(t));
                        assert(old(self).blk(t).ref_count as nat >= old(self).count(t));
                        if t != i as int {
                            assert(self.blk(t) == old(self).blk(t));
                        }
                    }
                    assert forall|t: int| 0 <= t < newb.len() && !self.live(t) implies
                        #[trigger] self.count(t) == 0 by {
                        assert forall|k: int| 0 <= k < m implies slot_count(#[trigger] newb[k], t)
                            == slot_count(oldb[k], t) by {
                            if k != i as int {
                                assert(newb[k] == oldb[k]);
                            }
                        }
                        lemma_count_congruent(newb, oldb, t, m);
                        assert(!old(self).live(t));
                        assert(old(self).count(t) == 0);
                    }
                    assert forall|i2: int| self.live(i2) implies payload_bounded(
                        #[trigger] self.blk(i2).payload, i2) && payload_wf(
                        self.blk(i2).payload) by {
                        assert(old(self).live(i2));
                        if i2 != i as int {
                            assert(self.blk(i2) == old(self).blk(i2));
                        } else {
                            assert(self.blk(i2).payload == old(self).blk(i2).payload);
                        }
                    }
                }
            },
            None => {
                proof {
                    assert(false);
                }
            },
        }
    }

    /// Reads a live block's reference count.
    pub fn ref_count_of(&self, i: usize) -> (c: usize)
        requires
            self.live(i as int),
        ensures
            c == self.blk(i as int).ref_count,
    {
        match &self.blocks[i] {
            Some(b) => b.ref_count,
            None => {
                proof {
                    assert(false);
                }
                0
            },
        }
    }

    /// Clones a handle: an inline value is copied, a block handle gains an
    /// alias and the block's reference count grows by one.
    pub fn clone_value(&mut self, v: &NickelValueRepr) -> (r: NickelValueRepr)
        requires
            old(self).wf(),
            old(self).valid_value(*v),
            (v matches NickelValueRepr::Block(i) ==> old(self).blk(i as int).ref_count
                < usize::MAX),
        ensures
            r == *v,
            final(self).wf(),
            final(self).blocks@.len() == old(self).blocks@.len(),
            (match *v {
                NickelValueRepr::Inline(_, _) => final(self).blocks@ == old(self).blocks@,
                NickelValueRepr::Block(i) => final(self).blocks@ == old(self).blocks@.update(
                    i as int, Some(
                        (ValueBlock {
                            ref_count: (old(self).blk(i as int).ref_count + 1) as usize,
                            pos: old(self).blk(i as int).pos,
                            payload: old(self).blk(i as int).payload,
                        }),
                    )),
            }),
    {
        match v {
            NickelValueRepr::Inline(iv, p) => NickelValueRepr::Inline(*iv, *p),
            NickelValueRepr::Block(i) => {
                self.inc_ref(*i);
                NickelValueRepr::Block(*i)
            },
        }
    }
}

pub proof fn lemma_count_zero_when_all_zero(blocks: Seq<Option<ValueBlock>>, t: int, n: int)
    requires
        forall|k: int| 0 <= k < n ==> slot_count(#[trigger] blocks[k], t) == 0,
    ensures
        heap_count_upto(blocks, t, n) == 0,
    decreases n,
{
    if n > 0 {
        lemma_count_zero_when_all_zero(blocks, t, n - 1);
    }
}

/// A sequence's count covers each single occurrence.
pub proof fn lemma_words_count_elem(ws: Seq<NickelValueRepr>, t: int, k: int)
    requires
        0 <= k < ws.len(),
    ensures
        words_count(ws, t) >= word_count(ws[k], t),
    decreases ws.len(),
{
    if k + 1 < ws.len() {
        lemma_words_count_elem(ws.drop_last(), t, k);
    }
}

pub proof fn lemma_entries_count_elem(es: Seq<(Vec<u8>, NickelValueRepr)>, t: int, k: int)
    requires
        0 <= k < es.len(),
    ensures
        entries_count(es, t) >= word_count(es[k].1, t),
    decreases es.len(),
{
    if k + 1 < es.len() {
        lemma_entries_count_elem(es.drop_last(), t, k);
    }
}

/// Two distinct aliases in a record payload give the target a count of at
/// least two.
pub proof fn lemma_entries_count_two(
    es: Seq<(Vec<u8>, NickelValueRepr)>,
    t: int,
    k1: int,
    k2: int,
)
    requires
        0 <= k1 < k2 < es.len(),
        word_count(es[k1].1, t) == 1,
        word_count(es[k2].1, t) == 1,
    ensures
        entries_count(es, t) >= 2,
    decreases es.len(),
{
    if k2 == es.len() - 1 {
        lemma_entries_count_elem(es.drop_last(), t, k1);
    } else {
        lemma_entries_count_two(es.drop_last(), t, k1, k2);
    }
}

/// The heap count covers each single slot's contribution.
pub proof fn lemma_heap_count_slot(blocks: Seq<Option<ValueBlock>>, t: int, i: int, n: int)
    requires
        0 <= i < n,
    ensures
        heap_count_upto(blocks, t, n) >= slot_count(blocks[i], t),
    decreases n,
{
    if i < n - 1 {
        lemma_heap_count_slot(blocks, t, i, n - 1);
    }
}

/// A live block's children are live: the heap holds a reference to them,
/// and freed slots are referenced by nothing.
pub proof fn lemma_child_live(h: ValueHeap, i: int, w: NickelValueRepr)
    requires
        h.wf(),
        h.live(i),
        (match h.blk(i).payload {
            ValuePayload::Array(vs) => exists|k: int| 0 <= k < vs@.len() && vs@[k] == w,
            ValuePayload::Record(es) => exists|k: int| 0 <= k < es@.len() && (#[trigger] es@[
                k]).1 == w,
            _ => false,
        }),
        w matches NickelValueRepr::Block(j),
    ensures
        h.valid_value(w),
{
    let j = w->Block_0 as int;
    match h.blk(i).payload {
        ValuePayload::Array(vs) => {
            let k = choose|k: int| 0 <= k < vs@.len() && vs@[k] == w;
            lemma_words_count_elem(vs@, j, k);
        },
        ValuePayload::Record(es) => {
            let k = choose|k: int| 0 <= k < es@.len() && (#[trigger] es@[k]).1 == w;
            lemma_entries_count_elem(es@, j, k);
        },
        _ => {},
    }
    lemma_heap_count_slot(h.blocks@, j, i, h.blocks@.len() as int);
    assert(h.count(j) >= 1);
    assert(word_bounded(w, i));
    if !h.live(j) {
        assert(h.count(j) == 0);
    }
}

/// One thunk-carrying element makes the sequence thunk-carrying, and a
/// sequence with no thunk-carrying element is thunk-free.
pub proof fn lemma_words_thunk_elem(
    blocks: Seq<Option<ValueBlock>>,
    ws: Seq<NickelValueRepr>,
    i: int,
    k: int,
)
    requires
        0 <= k < ws.len(),
        word_has_thunk(blocks, ws[k], i),
    ensures
        words_have_thunk(blocks, ws, i),
    decreases ws.len(),
{
    if k + 1 < ws.len() {
        lemma_words_thunk_elem(blocks, ws.drop_last(), i, k);
    }
}

pub proof fn lemma_words_thunk_none(
    blocks: Seq<Option<ValueBlock>>,
    ws: Seq<NickelValueRepr>,
    i: int,
)
    requires
        forall|k: int| 0 <= k < ws.len() ==> !word_has_thunk(blocks, #[trigger] ws[k], i),
    ensures
        !words_have_thunk(blocks, ws, i),
    decreases ws.len(),
{
    if ws.len() > 0 {
        lemma_words_thunk_none(blocks, ws.drop_last(), i);
    }
}

pub proof fn lemma_entries_thunk_elem(
    blocks: Seq<Option<ValueBlock>>,
    es: Seq<(Vec<u8>, NickelValueRepr)>,
    i: int,
    k: int,
)
    requires
        0 <= k < es.len(),
        word_has_thunk(blocks, es[k].1, i),
    ensures
        entries_have_thunk(blocks, es, i),
    decreases es.len(),
{
    if k + 1 < es.len() {
        lemma_entries_thunk_elem(blocks, es.drop_last(), i, k);
    }
}

pub proof fn lemma_entries_thunk_none(
    blocks: Seq<Option<ValueBlock>>,
    es: Seq<(Vec<u8>, NickelValueRepr)>,
    i: int,
)
    requires
        forall|k: int| 0 <= k < es.len() ==> !word_has_thunk(blocks, (#[trigger] es[k]).1, i),
    ensures
        !entries_have_thunk(blocks, es, i),
    decreases es.len(),
{
    if es.len() > 0 {
        lemma_entries_thunk_none(blocks, es.drop_last(), i);
    }
}

/// Updating one slot shifts the prefix count by the difference of the two
/// slot counts.
pub proof fn lemma_count_update(
    b1: Seq<Option<ValueBlock>>,
    i: int,
    s2: Option<ValueBlock>,
    t: int,
    n: int,
)
    requires
        0 <= i < b1.len(),
        n <= b1.len(),
    ensures
        heap_count_upto(b1.update(i, s2), t, n) + slot_count(b1[i], t) == heap_count_upto(
            b1, t, n) + if i < n {
            slot_count(s2, t)
        } else {
            slot_count(b1[i], t)
        },
    decreases n,
{
    if n > 0 {
        lemma_count_update(b1, i, s2, t, n - 1);
        if n - 1 != i {
            assert(b1.update(i, s2)[n - 1] == b1[n - 1]);
        }
    }
}

/// One reference-count bump (as `inc_ref` performs it) leaves every heap
/// count, every liveness fact and every other field unchanged.
pub proof fn lemma_bump_ref(prev: ValueHeap, cur: ValueHeap, oi: int)
    requires
        0 <= oi < prev.blocks@.len(),
        prev.blocks@[oi] is Some,
        prev.blk(oi).ref_count < usize::MAX,
        cur.blocks@ == prev.blocks@.update(oi, Some(
            (ValueBlock {
                ref_count: (prev.blk(oi).ref_count + 1) as usize,
                pos: prev.blk(oi).pos,
                payload: prev.blk(oi).payload,
            }),
        )),
    ensures
        cur.blocks@.len() == prev.blocks@.len(),
        forall|t: int| #[trigger] cur.count(t) == prev.count(t),
        forall|j: int| #[trigger] cur.live(j) <==> prev.live(j),
        forall|j: int| cur.live(j) && j != oi ==> #[trigger] cur.blk(j) == prev.blk(j),
        cur.blk(oi).pos == prev.blk(oi).pos,
        cur.blk(oi).payload == prev.blk(oi).payload,
        cur.blk(oi).ref_count == prev.blk(oi).ref_count + 1,
{
    assert forall|t: int| #[trigger] cur.count(t) == prev.count(t) by {
        assert forall|k: int| 0 <= k < prev.blocks@.len() implies slot_count(
            #[trigger] cur.blocks@[k], t) == slot_count(prev.blocks@[k], t) by {
            if k != oi {
                assert(cur.blocks@[k] == prev.blocks@[k]);
            }
        }
        lemma_count_congruent(cur.blocks@, prev.blocks@, t, prev.blocks@.len() as int);
    }
    assert forall|j: int| cur.live(j) && j != oi implies #[trigger] cur.blk(j) == prev.blk(
        j) by {
        assert(cur.blocks@[j] == prev.blocks@[j]);
    }
}

// ---------------------------------------------------------------------------
// Dropping handles.
// ---------------------------------------------------------------------------

/// The external surplus of a live block: its reference count beyond the
/// references the heap's own payloads hold. These are the handles the
/// caller owns.
pub open spec fn heap_surplus(h: ValueHeap, t: int) -> int {
    h.blk(t).ref_count as int - h.count(t) as int
}

/// `h2` is `h1` after some handles were dropped: no block was added or
/// changed, counts only fell, and freed slots stay freed.
pub open spec fn heap_shrunk(h1: ValueHeap, h2: ValueHeap) -> bool {
    &&& h2.blocks@.len() == h1.blocks@.len()
    &&& (forall|j: int| #[trigger] h2.live(j) ==> h1.live(j) && h2.blk(j).pos == h1.blk(j).pos
        && h2.blk(j).payload == h1.blk(j).payload && h2.blk(j).ref_count <= h1.blk(
        j).ref_count)
}

/// Index used as the termination measure of a handle.
pub open spec fn word_ix(w: NickelValueRepr) -> int {
    match w {
        NickelValueRepr::Block(i) => i as int,
        NickelValueRepr::Inline(_, _) => 0,
    }
}

impl ValueHeap {
    /// Rewrites a live block's reference count.
    fn set_ref_count(&mut self, i: usize, c: usize)
        requires
            old(self).wf(),
            old(self).live(i as int),
            c as nat >= old(self).count(i as int),
        ensures
            final(self).blocks@ == old(self).blocks@.update(i as int, Some(
                (ValueBlock {
                    ref_count: c,
                    pos: old(self).blk(i as int).pos,
                    payload: old(self).blk(i as int).payload,
                }),
            )),
            final(self).wf(),
            forall|t: int| #[trigger] final(self).count(t) == old(self).count(t),
    {
        let ghost oldb = self.blocks@;
        self.blocks.push(None);
        let slot = self.blocks.swap_remove(i);
        match slot {
            Some(b) => {
                let nb = ValueBlock { ref_count: c, pos: b.pos, payload: b.payload };
                self.blocks.push(Some(nb));
                self.blocks.swap_remove(i);
                proof {
                    let ghost nbg = nb;
                    assert(self.blocks@ =~= oldb.update(i as int, Some(nbg)));
                    let newb = self.blocks@;
                    let m = oldb.len() as int;
                    assert forall|t: int| #[trigger] self.count(t) == old(self).count(t) by {
                        lemma_count_update(oldb, i as int, Some(nbg), t, m);
                    }
                    assert forall|t: int| self.live(t) implies (#[trigger] self.blk(
                        t).ref_count) as nat >= self.count(t) by {
                        assert(old(self).live(t));
                        if t != i as int {
                            assert(self.blk(t) == old(self).blk(t));
                        }
                    }
                    assert forall|t: int| 0 <= t < newb.len() && !self.live(t) implies
                        #[trigger] self.count(t) == 0 by {
                        assert(!old(self).live(t));
                    }
                    assert forall|i2: int| self.live(i2) implies payload_bounded(
                        #[trigger] self.blk(i2).payload, i2) && payload_wf(
                        self.blk(i2).payload) by {
                        assert(old(self).live(i2));
                        if i2 != i as int {
                            assert(self.blk(i2) == old(self).blk(i2));
                        } else {
                            assert(self.blk(i2).payload == old(self).blk(i2).payload);
                        }
                    }
                }
            },
            None => {
                proof {
                    assert(false);
                }
            },
        }
    }

    /// Drops a handle. An inline value simply vanishes. A block handle
    /// gives up its share: the count falls by one, and when the last
    /// handle goes, the block is freed and the handles its payload owned
    /// are dropped in turn.
    pub fn drop_value(&mut self, v: NickelValueRepr)
        requires
            old(self).wf(),
            old(self).valid_value(v),
            (v matches NickelValueRepr::Block(i) ==> heap_surplus(*old(self), i as int) >= 1),
        ensures
            final(self).wf(),
            heap_shrunk(*old(self), *final(self)),
            forall|t: int| #[trigger] final(self).live(t) ==> heap_surplus(*final(self), t)
                == heap_surplus(*old(self), t) - word_count(v, t),
            forall|t: int| old(self).live(t) && heap_surplus(*old(self), t) > word_count(v, t)
                ==> #[trigger] final(self).live(t),
            (v matches NickelValueRepr::Inline(_, _) ==> final(self).blocks@ == old(
                self).blocks@),
            (v matches NickelValueRepr::Block(i) ==> (old(self).blk(i as int).ref_count >= 2
                ==> final(self).blocks@ == old(self).blocks@.update(i as int, Some(
                (ValueBlock {
                    ref_count: (old(self).blk(i as int).ref_count - 1) as usize,
                    pos: old(self).blk(i as int).pos,
                    payload: old(self).blk(i as int).payload,
                }),
            ))) && (old(self).blk(i as int).ref_count == 1 ==> !final(self).live(i as int))),
        decreases word_ix(v), 3int,
    {
        match v {
            NickelValueRepr::Inline(_, _) => {},
            NickelValueRepr::Block(i) => {
                self.drop_block(i);
            },
        }
    }

    /// Drops one share of block `i`.
    fn drop_block(&mut self, i: usize)
        requires
            old(self).wf(),
            old(self).live(i as int),
            heap_surplus(*old(self), i as int) >= 1,
        ensures
            final(self).wf(),
            heap_shrunk(*old(self), *final(self)),
            forall|t: int| #[trigger] final(self).live(t) ==> heap_surplus(*final(self), t)
                == heap_surplus(*old(self), t) - if t == i as int { 1int } else { 0int },
            forall|t: int| old(self).live(t) && heap_surplus(*old(self), t) > (if t == i as int {
                1int
            } else {
                0int
            }) ==> #[trigger] final(self).live(t),
            (old(self).blk(i as int).ref_count >= 2 ==> final(self).blocks@ == old(
                self).blocks@.update(i as int, Some(
                (ValueBlock {
                    ref_count: (old(self).blk(i as int).ref_count - 1) as usize,
                    pos: old(self).blk(i as int).pos,
                    payload: old(self).blk(i as int).payload,
                }),
            ))),
            (old(self).blk(i as int).ref_count == 1 ==> !final(self).live(i as int)),
        decreases i as int, 2int,
    {
        let rc: usize = match &self.blocks[i] {
            Some(b) => b.ref_count,
            None => {
                proof {
                    assert(false);
                }
                0
            },
        };
        if rc >= 2 {
            self.set_ref_count(i, rc - 1);
            proof {
                assert forall|t: int| #[trigger] self.live(t) implies heap_surplus(*self, t)
                    == heap_surplus(*old(self), t) - if t == i as int { 1int } else { 0int } by {
                    if t != i as int {
                        assert(self.blk(t) == old(self).blk(t));
                    }
                }
                assert forall|t: int| old(self).live(t) implies #[trigger] self.live(t) by {}
            }
        } else {
            let ghost oldb = self.blocks@;
            let ghost oldh = *old(self);
            self.blocks.push(None);
            let slot = self.blocks.swap_remove(i);
            proof {
                assert(rc == 1);
                assert(self.blocks@ =~= oldb.update(i as int, None));
                let newb = self.blocks@;
                let m = oldb.len() as int;
                let p = oldh.blk(i as int).payload;
                // the freed block referenced nothing at or above itself
                lemma_payload_count_bounded(p, i as int, i as int);
                assert(oldh.count(i as int) == 0);
                assert forall|t: int| #[trigger] self.count(t) + payload_count(p, t)
                    == oldh.count(t) by {
                    lemma_count_update(oldb, i as int, None, t, m);
                }
                assert forall|t: int| self.live(t) implies (#[trigger] self.blk(
                    t).ref_count) as nat >= self.count(t) + payload_count(p, t) by {
                    assert(oldh.live(t));
                    assert(self.blk(t) == oldh.blk(t));
                }
                assert forall|t: int| 0 <= t < newb.len() && !self.live(t) implies
                    #[trigger] self.count(t) == 0 by {
                    if t == i as int {
                        assert(self.count(t) + payload_count(p, t) == 0);
                    } else {
                        assert(!oldh.live(t));
                        assert(oldh.count(t) == 0);
                    }
                }
                assert forall|t: int|
                    0 <= t < newb.len() && !self.live(t) implies #[trigger] payload_count(p, t)
                    == 0 by {
                    if t == i as int {
                    } else {
                        assert(!oldh.live(t));
                        assert(oldh.count(t) == 0);
                        assert(self.count(t) + payload_count(p, t) == oldh.count(t));
                    }
                }
                assert forall|i2: int| self.live(i2) implies payload_bounded(
                    #[trigger] self.blk(i2).payload, i2) && payload_wf(self.blk(i2).payload) by {
                    assert(oldh.live(i2));
                    assert(self.blk(i2) == oldh.blk(i2));
                }
            }
            let ghost slotg = slot;
            match slot {
                Some(b) => {
                    let bp = b.payload;
                    let ghost bpg = bp;
                    proof {
                        assert(slotg == oldb[i as int]);
                        assert(bpg == oldh.blk(i as int).payload);
                        assert(payload_bounded(bpg, i as int));
                    }
                    match bp {
                        ValuePayload::Array(vs) => {
                            proof {
                                assert(bpg == ValuePayload::Array(vs));
                                assert forall|t: int| self.live(t) implies (#[trigger] self.blk(
                                    t).ref_count) as nat >= self.count(t) + words_count(
                                    vs@, t) by {
                                    assert(self.blk(t).ref_count as nat >= self.count(t)
                                        + payload_count(bpg, t));
                                }
                                assert forall|t: int|
                                    0 <= t < self.blocks@.len() && !self.live(t) implies
                                    #[trigger] words_count(vs@, t) == 0 by {
                                    assert(payload_count(bpg, t) == 0);
                                }
                            }
                            self.drop_words(vs, Ghost(i as int));
                        },
                        ValuePayload::Record(es) => {
                            proof {
                                assert(bpg == ValuePayload::Record(es));
                                assert forall|t: int| self.live(t) implies (#[trigger] self.blk(
                                    t).ref_count) as nat >= self.count(t) + entries_count(
                                    es@, t) by {
                                    assert(self.blk(t).ref_count as nat >= self.count(t)
                                        + payload_count(bpg, t));
                                }
                                assert forall|t: int|
                                    0 <= t < self.blocks@.len() && !self.live(t) implies
                                    #[trigger] entries_count(es@, t) == 0 by {
                                    assert(payload_count(bpg, t) == 0);
                                }
                            }
                            self.drop_entries(es, Ghost(i as int));
                        },
                        _ => {},
                    }
                },
                None => {
                    proof {
                        assert(false);
                    }
                },
            }
        }
    }

    /// Drops a vector of handles (the children an array payload owned).
    #[verifier::loop_isolation(false)]
    fn drop_words(&mut self, ws: Vec<NickelValueRepr>, Ghost(bound): Ghost<int>)
        requires
            old(self).wf(),
            forall|k: int| 0 <= k < ws@.len() ==> word_bounded(#[trigger] ws@[k], bound),
            bound <= old(self).blocks@.len(),
            forall|t: int| old(self).live(t) ==> (#[trigger] old(self).blk(t).ref_count) as nat
                >= old(self).count(t) + words_count(ws@, t),
            forall|t: int| 0 <= t < old(self).blocks@.len() && !old(self).live(t)
                ==> #[trigger] words_count(ws@, t) == 0,
        ensures
            final(self).wf(),
            heap_shrunk(*old(self), *final(self)),
            forall|t: int| #[trigger] final(self).live(t) ==> heap_surplus(*final(self), t)
                == heap_surplus(*old(self), t) - words_count(ws@, t),
            forall|t: int| old(self).live(t) && heap_surplus(*old(self), t) > words_count(ws@, t)
                ==> #[trigger] final(self).live(t),
        decreases bound, 1int,
    {
        let mut ws = ws;
        let ghost orig = *old(self);
        let ghost wsall = ws@;
        while ws.len() > 0
            invariant
                self.wf(),
                heap_shrunk(orig, *self),
                forall|k: int| 0 <= k < ws@.len() ==> word_bounded(#[trigger] ws@[k], bound),
                bound <= orig.blocks@.len(),
                forall|t: int| #[trigger] self.live(t) ==> heap_surplus(*self, t)
                    == heap_surplus(orig, t) - words_count(wsall, t) + words_count(ws@, t),
                forall|t: int| orig.live(t) && heap_surplus(orig, t) > words_count(wsall, t)
                    - words_count(ws@, t) ==> #[trigger] self.live(t),
                forall|t: int| orig.live(t) ==> words_count(wsall, t) >= words_count(ws@, t),
                forall|t: int| 0 <= t < orig.blocks@.len() && !orig.live(t)
                    ==> #[trigger] words_count(ws@, t) == 0,
            decreases ws@.len(),
        {
            let ghost pre = ws@;
            let ghost hpre = *self;
            let w = match ws.pop() {
                Some(w) => w,
                None => {
                    proof {
                        assert(false);
                    }
                    NickelValueRepr::Inline(InlineValue::Null, PosIdx(0))
                },
            };
            proof {
                assert(ws@ =~= pre.drop_last());
                assert(w == pre.last());
                if let NickelValueRepr::Block(j) = w {
                    let jt = j as int;
                    assert(words_count(pre, jt) == words_count(ws@, jt) + 1);
                    assert(orig.live(jt)) by {
                        if !orig.live(jt) {
                            assert(words_count(pre, jt) == 0);
                        }
                    }
                    assert(heap_surplus(orig, jt) > words_count(wsall, jt) - words_count(
                        pre, jt)) by {
                        assert(heap_surplus(orig, jt) >= words_count(wsall, jt)) by {
                            assert(orig.blk(jt).ref_count as nat >= orig.count(jt) + words_count(
                                wsall, jt));
                        }
                        assert(words_count(pre, jt) >= 1);
                    }
                    assert(self.live(jt));
                    assert(heap_surplus(*self, jt) >= 1) by {
                        assert(heap_surplus(*self, jt) == heap_surplus(orig, jt) - words_count(
                            wsall, jt) + words_count(pre, jt));
                    }
                }
            }
            let ghost wg = w;
            match w {
                NickelValueRepr::Inline(_, _) => {},
                NickelValueRepr::Block(j) => {
                    proof {
                        assert(word_bounded(pre[pre.len() - 1], bound));
                    }
                    self.drop_block(j);
                },
            }
            proof {
                assert forall|t: int| #[trigger] self.live(t) implies heap_surplus(*self, t)
                    == heap_surplus(orig, t) - words_count(wsall, t) + words_count(ws@, t) by {
                    assert(hpre.live(t));
                    assert(words_count(pre, t) == words_count(ws@, t) + word_count(wg, t));
                }
                assert forall|t: int| orig.live(t) && heap_surplus(orig, t) > words_count(
                    wsall, t) - words_count(ws@, t) implies #[trigger] self.live(t) by {
                    assert(words_count(pre, t) == words_count(ws@, t) + word_count(wg, t));
                    assert(heap_surplus(orig, t) > words_count(wsall, t) - words_count(pre, t));
                    assert(hpre.live(t));
                    assert(heap_surplus(hpre, t) == heap_surplus(orig, t) - words_count(wsall, t)
                        + words_count(pre, t));
                    assert(heap_surplus(hpre, t) > word_count(wg, t));
                }
                assert forall|t: int| orig.live(t) implies words_count(wsall, t) >= words_count(
                    ws@, t) by {
                    assert(words_count(pre, t) == words_count(ws@, t) + word_count(wg, t));
                }
                assert forall|t: int|
                    0 <= t < orig.blocks@.len() && !orig.live(t) implies #[trigger] words_count(
                    ws@, t) == 0 by {
                    assert(words_count(pre, t) == words_count(ws@, t) + word_count(wg, t));
                }
            }
        }
        proof {
            assert(ws@.len() == 0);
        }
    }

    /// Drops the handles a record payload owned, keys and all.
    #[verifier::loop_isolation(false)]
    fn drop_entries(&mut self, es: Vec<(Vec<u8>, NickelValueRepr)>, Ghost(bound): Ghost<int>)
        requires
            old(self).wf(),
            forall|k: int| 0 <= k < es@.len() ==> word_bounded((#[trigger] es@[k]).1, bound),
            bound <= old(self).blocks@.len(),
            forall|t: int| old(self).live(t) ==> (#[trigger] old(self).blk(t).ref_count) as nat
                >= old(self).count(t) + entries_count(es@, t),
            forall|t: int| 0 <= t < old(self).blocks@.len() && !old(self).live(t)
                ==> #[trigger] entries_count(es@, t) == 0,
        ensures
            final(self).wf(),
            heap_shrunk(*old(self), *final(self)),
            forall|t: int| #[trigger] final(self).live(t) ==> heap_surplus(*final(self), t)
                == heap_surplus(*old(self), t) - entries_count(es@, t),
            forall|t: int| old(self).live(t) && heap_surplus(*old(self), t) > entries_count(
                es@, t) ==> #[trigger] final(self).live(t),
        decreases bound, 1int,
    {
        let mut es = es;
        let ghost orig = *old(self);
        let ghost esall = es@;
        while es.len() > 0
            invariant
                self.wf(),
                heap_shrunk(orig, *self),
                forall|k: int| 0 <= k < es@.len() ==> word_bounded((#[trigger] es@[k]).1, bound),
                bound <= orig.blocks@.len(),
                forall|t: int| #[trigger] self.live(t) ==> heap_surplus(*self, t)
                    == heap_surplus(orig, t) - entries_count(esall, t) + entries_count(es@, t),
                forall|t: int| orig.live(t) && heap_surplus(orig, t) > entries_count(esall, t)
                    - entries_count(es@, t) ==> #[trigger] self.live(t),
                forall|t: int| orig.live(t) ==> entries_count(esall, t) >= entries_count(es@, t),
                forall|t: int| 0 <= t < orig.blocks@.len() && !orig.live(t)
                    ==> #[trigger] entries_count(es@, t) == 0,
            decreases es@.len(),
        {
            let ghost pre = es@;
            let ghost hpre = *self;
            let e = match es.pop() {
                Some(e) => e,
                None => {
                    proof {
                        assert(false);
                    }
                    (Vec::new(), NickelValueRepr::Inline(InlineValue::Null, PosIdx(0)))
                },
            };
            let (_key, w) = e;
            proof {
                assert(es@ =~= pre.drop_last());
                assert(w == pre.last().1);
                if let NickelValueRepr::Block(j) = w {
                    let jt = j as int;
                    assert(entries_count(pre, jt) == entries_count(es@, jt) + 1);
                    assert(orig.live(jt)) by {
                        if !orig.live(jt) {
                            assert(entries_count(pre, jt) == 0);
                        }
                    }
                    assert(heap_surplus(orig, jt) > entries_count(esall, jt) - entries_count(
                        pre, jt)) by {
                        assert(heap_surplus(orig, jt) >= entries_count(esall, jt)) by {
                            assert(orig.blk(jt).ref_count as nat >= orig.count(jt)
                                + entries_count(esall, jt));
                        }
                        assert(entries_count(pre, jt) >= 1);
                    }
                    assert(self.live(jt));
                    assert(heap_surplus(*self, jt) >= 1) by {
                        assert(heap_surplus(*self, jt) == heap_surplus(orig, jt) - entries_count(
                            esall, jt) + entries_count(pre, jt));
                    }
                }
            }
            let ghost wg = w;
            match w {
                NickelValueRepr::Inline(_, _) => {},
                NickelValueRepr::Block(j) => {
                    proof {
                        assert(word_bounded(pre[pre.len() - 1].1, bound));
                    }
                    self.drop_block(j);
                },
            }
            proof {
                assert forall|t: int| #[trigger] self.live(t) implies heap_surplus(*self, t)
                    == heap_surplus(orig, t) - entries_count(esall, t) + entries_count(
                    es@, t) by {
                    assert(hpre.live(t));
                    assert(entries_count(pre, t) == entries_count(es@, t) + word_count(wg, t));
                }
                assert forall|t: int| orig.live(t) && heap_surplus(orig, t) > entries_count(
                    esall, t) - entries_count(es@, t) implies #[trigger] self.live(t) by {
                    assert(entries_count(pre, t) == entries_count(es@, t) + word_count(wg, t));
                    assert(heap_surplus(orig, t) > entries_count(esall, t) - entries_count(
                        pre, t));
                    assert(hpre.live(t));
                    assert(heap_surplus(hpre, t) == heap_surplus(orig, t) - entries_count(
                        esall, t) + entries_count(pre, t));
                    assert(heap_surplus(hpre, t) > word_count(wg, t));
                }
                assert forall|t: int| orig.live(t) implies entries_count(esall, t)
                    >= entries_count(es@, t) by {
                    assert(entries_count(pre, t) == entries_count(es@, t) + word_count(wg, t));
                }
                assert forall|t: int|
                    0 <= t < orig.blocks@.len() && !orig.live(t) implies
                    #[trigger] entries_count(es@, t) == 0 by {
                    assert(entries_count(pre, t) == entries_count(es@, t) + word_count(wg, t));
                }
            }
        }
        proof {
            assert(es@.len() == 0);
        }
    }
}

} // verus!
