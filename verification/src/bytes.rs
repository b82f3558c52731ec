//! The wire form of an archive: a self-contained little-endian byte blob.
//!
//! Layout: a count of blocks, then each block in ordinal order, then the
//! root occurrence; nothing may follow. Each block is its interned
//! position, a payload tag byte, and the payload's data; an occurrence is
//! a tag byte followed by a position (inline values) or by the ordinal of
//! an earlier block (references). All multi-byte integers are eight-byte
//! little-endian words assembled bytewise, so the format needs no
//! alignment from its readers. Every tag, bound, length and limb shape is
//! checked against the bytes that are actually present before anything is
//! built from them; the parsing function below is the format's normative
//! definition, and the reader returns a typed error exactly when it
//! returns `None`.

use vstd::prelude::*;
use crate::archive::Archive;
use crate::archive::ArchivedBlock;
use crate::archive::ArchivedBlockView;
use crate::archive::ArchivedPayload;
use crate::archive::ArchivedPayloadView;
use crate::archive::ArchivedValue;
use crate::archive::ArchiveView;
use crate::archive::aword_bounded;
use crate::archive::apayload_wf;
use crate::number::NumberStash;
use crate::number::limbs_canonical;
use crate::value::InlineValue;
use crate::value::PosIdx;

verus! {

pub const TAG_NULL: u8 = 0;
pub const TAG_TRUE: u8 = 1;
pub const TAG_FALSE: u8 = 2;
pub const TAG_REF: u8 = 3;
pub const TAG_NUM: u8 = 16;
pub const TAG_STR: u8 = 17;
pub const TAG_ARR: u8 = 18;
pub const TAG_REC: u8 = 19;
pub const TAG_FOREIGN: u8 = 20;
pub const TAG_SEALING: u8 = 21;
pub const TAG_TERM: u8 = 22;
pub const TAG_LABEL: u8 = 23;
pub const TAG_ENUM_VARIANT: u8 = 24;
pub const TAG_CUSTOM_CONTRACT: u8 = 25;
pub const TAG_TYPE: u8 = 26;

// ---------------------------------------------------------------------------
// Little-endian words.
// ---------------------------------------------------------------------------

pub open spec fn le8(x: u64) -> Seq<u8> {
    seq![
        x as u8,
        (x >> 8) as u8,
        (x >> 16) as u8,
        (x >> 24) as u8,
        (x >> 32) as u8,
        (x >> 40) as u8,
        (x >> 48) as u8,
        (x >> 56) as u8,
    ]
}

pub open spec fn u64_at(b: Seq<u8>, i: int) -> u64 {
    (b[i] as u64) | ((b[i + 1] as u64) << 8) | ((b[i + 2] as u64) << 16) | ((b[i + 3] as u64)
        << 24) | ((b[i + 4] as u64) << 32) | ((b[i + 5] as u64) << 40) | ((b[i + 6] as u64)
        << 48) | ((b[i + 7] as u64) << 56)
}

proof fn lemma_le8_round(x: u64)
    ensures
        (x as u8) as u64 | (((x >> 8) as u8) as u64) << 8 | (((x >> 16) as u8) as u64) << 16 | ((
        (x >> 24) as u8) as u64) << 24 | (((x >> 32) as u8) as u64) << 32 | (((x >> 40) as u8)
            as u64) << 40 | (((x >> 48) as u8) as u64) << 48 | (((x >> 56) as u8) as u64) << 56
            == x,
{
    assert((x as u8) as u64 | (((x >> 8) as u8) as u64) << 8 | (((x >> 16) as u8) as u64) << 16
        | (((x >> 24) as u8) as u64) << 24 | (((x >> 32) as u8) as u64) << 32 | (((x
        >> 40) as u8) as u64) << 40 | (((x >> 48) as u8) as u64) << 48 | (((x >> 56) as u8)
        as u64) << 56 == x) by (bit_vector);
}

/// Reading eight bytes that were written from `x` yields `x` again.
pub proof fn lemma_u64_at_le8(b: Seq<u8>, i: int, x: u64)
    requires
        0 <= i,
        i + 8 <= b.len(),
        b.subrange(i, i + 8) == le8(x),
    ensures
        u64_at(b, i) == x,
{
    assert forall|j: int| 0 <= j < 8 implies b[i + j] == le8(x)[j] by {
        assert(b.subrange(i, i + 8)[j] == b[i + j]);
    }
    lemma_le8_round(x);
}

// ---------------------------------------------------------------------------
// The spec-level parser: the format's definition.
// ---------------------------------------------------------------------------

pub open spec fn sp_u8(b: Seq<u8>, i: int) -> Option<(u8, int)> {
    if 0 <= i && i + 1 <= b.len() {
        Some((b[i], i + 1))
    } else {
        None
    }
}

pub open spec fn sp_u64(b: Seq<u8>, i: int) -> Option<(u64, int)> {
    if 0 <= i && i + 8 <= b.len() {
        Some((u64_at(b, i), i + 8))
    } else {
        None
    }
}

pub open spec fn sp_bytes(b: Seq<u8>, i: int, n: int) -> Option<(Seq<u8>, int)> {
    if 0 <= i && 0 <= n && i + n <= b.len() {
        Some((b.subrange(i, i + n), i + n))
    } else {
        None
    }
}

pub open spec fn sp_limbs(b: Seq<u8>, i: int, n: int) -> Option<(Seq<u64>, int)>
    decreases n,
{
    if n <= 0 {
        Some((Seq::empty(), i))
    } else {
        match sp_u64(b, i) {
            Some((x, i2)) => match sp_limbs(b, i2, n - 1) {
                Some((xs, i3)) => Some((seq![x] + xs, i3)),
                None => None,
            },
            None => None,
        }
    }
}

/// One occurrence: an inline scalar or a reference to a block below
/// `bound`.
pub open spec fn sp_word(b: Seq<u8>, i: int, bound: int) -> Option<(ArchivedValue, int)> {
    match sp_u8(b, i) {
        Some((t, i2)) => if t == TAG_REF {
            match sp_u64(b, i2) {
                Some((o, i3)) => if (o as int) < bound {
                    Some((ArchivedValue::Ref(o), i3))
                } else {
                    None
                },
                None => None,
            }
        } else if t == TAG_NULL || t == TAG_TRUE || t == TAG_FALSE {
            match sp_u64(b, i2) {
                Some((p, i3)) => if p <= u32::MAX as u64 {
                    let iv = if t == TAG_NULL {
                        InlineValue::Null
                    } else if t == TAG_TRUE {
                        InlineValue::True
                    } else {
                        InlineValue::False
                    };
                    Some((ArchivedValue::Inline(iv, PosIdx(p as u32)), i3))
                } else {
                    None
                },
                None => None,
            }
        } else {
            None
        },
        None => None,
    }
}

pub open spec fn sp_words(b: Seq<u8>, i: int, n: int, bound: int) -> Option<
    (Seq<ArchivedValue>, int),
>
    decreases n,
{
    if n <= 0 {
        Some((Seq::empty(), i))
    } else {
        match sp_word(b, i, bound) {
            Some((w, i2)) => match sp_words(b, i2, n - 1, bound) {
                Some((ws, i3)) => Some((seq![w] + ws, i3)),
                None => None,
            },
            None => None,
        }
    }
}

pub open spec fn sp_entry(b: Seq<u8>, i: int, bound: int) -> Option<
    ((Seq<u8>, ArchivedValue), int),
> {
    match sp_u64(b, i) {
        Some((klen, i2)) => match sp_bytes(b, i2, klen as int) {
            Some((key, i3)) => match sp_word(b, i3, bound) {
                Some((w, i4)) => Some(((key, w), i4)),
                None => None,
            },
            None => None,
        },
        None => None,
    }
}

pub open spec fn sp_entries(b: Seq<u8>, i: int, n: int, bound: int) -> Option<
    (Seq<(Seq<u8>, ArchivedValue)>, int),
>
    decreases n,
{
    if n <= 0 {
        Some((Seq::empty(), i))
    } else {
        match sp_entry(b, i, bound) {
            Some((e, i2)) => match sp_entries(b, i2, n - 1, bound) {
                Some((es, i3)) => Some((seq![e] + es, i3)),
                None => None,
            },
            None => None,
        }
    }
}

/// A block's payload, with every bound, length and canonicality check.
pub open spec fn sp_payload(b: Seq<u8>, i: int, bound: int) -> Option<
    (ArchivedPayloadView, int),
> {
    match sp_u8(b, i) {
        Some((t, i2)) => if t == TAG_NUM {
            match sp_u8(b, i2) {
                Some((sg, i3)) => if sg <= 1 {
                    match sp_u64(b, i3) {
                        Some((nlen, i4)) => match sp_limbs(b, i4, nlen as int) {
                            Some((num, i5)) => match sp_u64(b, i5) {
                                Some((dlen, i6)) => match sp_limbs(b, i6, dlen as int) {
                                    Some((den, i7)) => if limbs_canonical(num)
                                        && limbs_canonical(den) && den.len() > 0 && (num.len()
                                        == 0 ==> sg == 1) {
                                        Some((ArchivedPayloadView::Num(sg == 1, num, den), i7))
                                    } else {
                                        None
                                    },
                                    None => None,
                                },
                                None => None,
                            },
                            None => None,
                        },
                        None => None,
                    }
                } else {
                    None
                },
                None => None,
            }
        } else if t == TAG_STR {
            match sp_u64(b, i2) {
                Some((len, i3)) => match sp_bytes(b, i3, len as int) {
                    Some((bs, i4)) => Some((ArchivedPayloadView::Str(bs), i4)),
                    None => None,
                },
                None => None,
            }
        } else if t == TAG_TERM {
            match sp_u64(b, i2) {
                Some((len, i3)) => match sp_bytes(b, i3, len as int) {
                    Some((bs, i4)) => Some((ArchivedPayloadView::Term(bs), i4)),
                    None => None,
                },
                None => None,
            }
        } else if t == TAG_LABEL {
            match sp_u64(b, i2) {
                Some((len, i3)) => match sp_bytes(b, i3, len as int) {
                    Some((bs, i4)) => Some((ArchivedPayloadView::Label(bs), i4)),
                    None => None,
                },
                None => None,
            }
        } else if t == TAG_ENUM_VARIANT {
            match sp_u64(b, i2) {
                Some((len, i3)) => match sp_bytes(b, i3, len as int) {
                    Some((bs, i4)) => Some((ArchivedPayloadView::EnumVariant(bs), i4)),
                    None => None,
                },
                None => None,
            }
        } else if t == TAG_CUSTOM_CONTRACT {
            match sp_u64(b, i2) {
                Some((len, i3)) => match sp_bytes(b, i3, len as int) {
                    Some((bs, i4)) => Some((ArchivedPayloadView::CustomContract(bs), i4)),
                    None => None,
                },
                None => None,
            }
        } else if t == TAG_TYPE {
            match sp_u64(b, i2) {
                Some((len, i3)) => match sp_bytes(b, i3, len as int) {
                    Some((bs, i4)) => Some((ArchivedPayloadView::Type(bs), i4)),
                    None => None,
                },
                None => None,
            }
        } else if t == TAG_ARR {
            match sp_u64(b, i2) {
                Some((len, i3)) => match sp_words(b, i3, len as int, bound) {
                    Some((ws, i4)) => Some((ArchivedPayloadView::Arr(ws), i4)),
                    None => None,
                },
                None => None,
            }
        } else if t == TAG_REC {
            match sp_u64(b, i2) {
                Some((len, i3)) => match sp_entries(b, i3, len as int, bound) {
                    Some((es, i4)) => Some((ArchivedPayloadView::Rec(es), i4)),
                    None => None,
                },
                None => None,
            }
        } else if t == TAG_FOREIGN {
            match sp_u64(b, i2) {
                Some((x, i3)) => if x <= u32::MAX as u64 {
                    Some((ArchivedPayloadView::Foreign(x as u32), i3))
                } else {
                    None
                },
                None => None,
            }
        } else if t == TAG_SEALING {
            match sp_u64(b, i2) {
                Some((x, i3)) => Some((ArchivedPayloadView::Sealing(x), i3)),
                None => None,
            }
        } else {
            None
        },
        None => None,
    }
}

/// Block `k`: its position, then its payload; references stay below `k`.
pub open spec fn sp_block(b: Seq<u8>, i: int, k: int) -> Option<(ArchivedBlockView, int)> {
    match sp_u64(b, i) {
        Some((p, i2)) => if p <= u32::MAX as u64 {
            match sp_payload(b, i2, k) {
                Some((pl, i3)) => Some(
                    ((ArchivedBlockView { pos: p as u32, payload: pl }), i3),
                ),
                None => None,
            }
        } else {
            None
        },
        None => None,
    }
}

pub open spec fn sp_blocks(b: Seq<u8>, i: int, k: int, n: int) -> Option<
    (Seq<ArchivedBlockView>, int),
>
    decreases n - k,
{
    if n <= k {
        Some((Seq::empty(), i))
    } else {
        match sp_block(b, i, k) {
            Some((bk, i2)) => match sp_blocks(b, i2, k + 1, n) {
                Some((bks, i3)) => Some((seq![bk] + bks, i3)),
                None => None,
            },
            None => None,
        }
    }
}

/// The whole archive: block count, blocks, root, and nothing after.
pub open spec fn parse_archive(b: Seq<u8>) -> Option<ArchiveView> {
    match sp_u64(b, 0) {
        Some((count, i1)) => match sp_blocks(b, i1, 0, count as int) {
            Some((bks, i2)) => match sp_word(b, i2, count as int) {
                Some((root, i3)) => if i3 == b.len() {
                    Some((ArchiveView { blocks: bks, root }))
                } else {
                    None
                },
                None => None,
            },
            None => None,
        },
        None => None,
    }
}

// ---------------------------------------------------------------------------
// The spec-level emitter, and the sizes under which it is honest.
// ---------------------------------------------------------------------------

pub open spec fn word_tag(w: ArchivedValue) -> u8 {
    match w {
        ArchivedValue::Inline(InlineValue::Null, _) => TAG_NULL,
        ArchivedValue::Inline(InlineValue::True, _) => TAG_TRUE,
        ArchivedValue::Inline(InlineValue::False, _) => TAG_FALSE,
        ArchivedValue::Ref(_) => TAG_REF,
    }
}

pub open spec fn word_bytes(w: ArchivedValue) -> Seq<u8> {
    match w {
        ArchivedValue::Inline(_, p) => seq![word_tag(w)] + le8(p.0 as u64),
        ArchivedValue::Ref(o) => seq![TAG_REF] + le8(o),
    }
}

pub open spec fn limbs_bytes(ls: Seq<u64>) -> Seq<u8>
    decreases ls.len(),
{
    if ls.len() == 0 {
        Seq::empty()
    } else {
        le8(ls[0]) + limbs_bytes(ls.drop_first())
    }
}

pub open spec fn words_bytes(ws: Seq<ArchivedValue>) -> Seq<u8>
    decreases ws.len(),
{
    if ws.len() == 0 {
        Seq::empty()
    } else {
        word_bytes(ws[0]) + words_bytes(ws.drop_first())
    }
}

pub open spec fn entry_bytes(e: (Seq<u8>, ArchivedValue)) -> Seq<u8> {
    le8(e.0.len() as u64) + e.0 + word_bytes(e.1)
}

pub open spec fn entries_bytes(es: Seq<(Seq<u8>, ArchivedValue)>) -> Seq<u8>
    decreases es.len(),
{
    if es.len() == 0 {
        Seq::empty()
    } else {
        entry_bytes(es[0]) + entries_bytes(es.drop_first())
    }
}

pub open spec fn payload_bytes(p: ArchivedPayloadView) -> Seq<u8> {
    match p {
        ArchivedPayloadView::Num(sg, num, den) => seq![TAG_NUM, (if sg { 1u8 } else { 0u8 })]
            + le8(num.len() as u64) + limbs_bytes(num) + le8(den.len() as u64) + limbs_bytes(
            den),
        ArchivedPayloadView::Str(bs) => seq![TAG_STR] + le8(bs.len() as u64) + bs,
        ArchivedPayloadView::Arr(ws) => seq![TAG_ARR] + le8(ws.len() as u64) + words_bytes(ws),
        ArchivedPayloadView::Rec(es) => seq![TAG_REC] + le8(es.len() as u64) + entries_bytes(
            es),
        ArchivedPayloadView::Term(bs) => seq![TAG_TERM] + le8(bs.len() as u64) + bs,
        ArchivedPayloadView::Label(bs) => seq![TAG_LABEL] + le8(bs.len() as u64) + bs,
        ArchivedPayloadView::EnumVariant(bs) => seq![TAG_ENUM_VARIANT] + le8(bs.len() as u64)
            + bs,
        ArchivedPayloadView::Foreign(x) => seq![TAG_FOREIGN] + le8(x as u64),
        ArchivedPayloadView::Sealing(x) => seq![TAG_SEALING] + le8(x),
        ArchivedPayloadView::CustomContract(bs) => seq![TAG_CUSTOM_CONTRACT] + le8(
            bs.len() as u64) + bs,
        ArchivedPayloadView::Type(bs) => seq![TAG_TYPE] + le8(bs.len() as u64) + bs,
    }
}

pub open spec fn block_bytes(bk: ArchivedBlockView) -> Seq<u8> {
    le8(bk.pos as u64) + payload_bytes(bk.payload)
}

pub open spec fn blocks_bytes(bks: Seq<ArchivedBlockView>) -> Seq<u8>
    decreases bks.len(),
{
    if bks.len() == 0 {
        Seq::empty()
    } else {
        block_bytes(bks[0]) + blocks_bytes(bks.drop_first())
    }
}

/// The bytes of a whole archive.
pub open spec fn archive_bytes(a: ArchiveView) -> Seq<u8> {
    le8(a.blocks.len() as u64) + blocks_bytes(a.blocks) + word_bytes(a.root)
}

/// The counts and lengths the emitter writes fit their fields.
pub open spec fn apayload_sized(p: ArchivedPayloadView) -> bool {
    match p {
        ArchivedPayloadView::Num(_, num, den) => num.len() <= u64::MAX && den.len()
            <= u64::MAX,
        ArchivedPayloadView::Str(bs) => bs.len() <= u64::MAX,
        ArchivedPayloadView::Arr(ws) => ws.len() <= u64::MAX,
        ArchivedPayloadView::Rec(es) => es.len() <= u64::MAX && (forall|k: int|
            0 <= k < es.len() ==> (#[trigger] es[k]).0.len() <= u64::MAX),
        ArchivedPayloadView::Term(bs) => bs.len() <= u64::MAX,
        ArchivedPayloadView::Label(bs) => bs.len() <= u64::MAX,
        ArchivedPayloadView::EnumVariant(bs) => bs.len() <= u64::MAX,
        ArchivedPayloadView::CustomContract(bs) => bs.len() <= u64::MAX,
        ArchivedPayloadView::Type(bs) => bs.len() <= u64::MAX,
        _ => true,
    }
}

pub open spec fn archive_sized(a: ArchiveView) -> bool {
    &&& a.blocks.len() <= u64::MAX
    &&& (forall|k: int| 0 <= k < a.blocks.len() ==> apayload_sized(
        (#[trigger] a.blocks[k]).payload))
}

// ---------------------------------------------------------------------------
// Appending helpers: push-style unrollings of the front-recursive emitters.
// ---------------------------------------------------------------------------

pub proof fn lemma_limbs_bytes_push(ls: Seq<u64>, x: u64)
    ensures
        limbs_bytes(ls.push(x)) == limbs_bytes(ls) + le8(x),
    decreases ls.len(),
{
    if ls.len() == 0 {
        assert(ls.push(x)[0] == x);
        assert(ls.push(x).drop_first() =~= ls);
        assert(limbs_bytes(ls.push(x)) =~= limbs_bytes(ls) + le8(x));
    } else {
        assert(ls.push(x).drop_first() =~= ls.drop_first().push(x));
        lemma_limbs_bytes_push(ls.drop_first(), x);
        assert(ls.push(x)[0] == ls[0]);
        assert(limbs_bytes(ls.push(x)) == le8(ls[0]) + (limbs_bytes(ls.drop_first()) + le8(x)));
        assert(le8(ls[0]) + (limbs_bytes(ls.drop_first()) + le8(x)) =~= (le8(ls[0])
            + limbs_bytes(ls.drop_first())) + le8(x));
    }
}

pub proof fn lemma_words_bytes_push(ws: Seq<ArchivedValue>, w: ArchivedValue)
    ensures
        words_bytes(ws.push(w)) == words_bytes(ws) + word_bytes(w),
    decreases ws.len(),
{
    if ws.len() == 0 {
        assert(ws.push(w)[0] == w);
        assert(ws.push(w).drop_first() =~= ws);
        assert(words_bytes(ws.push(w)) =~= words_bytes(ws) + word_bytes(w));
    } else {
        assert(ws.push(w).drop_first() =~= ws.drop_first().push(w));
        lemma_words_bytes_push(ws.drop_first(), w);
        assert(ws.push(w)[0] == ws[0]);
        assert(word_bytes(ws[0]) + (words_bytes(ws.drop_first()) + word_bytes(w)) =~= (
        word_bytes(ws[0]) + words_bytes(ws.drop_first())) + word_bytes(w));
    }
}

pub proof fn lemma_entries_bytes_push(es: Seq<(Seq<u8>, ArchivedValue)>, e: (Seq<u8>, ArchivedValue))
    ensures
        entries_bytes(es.push(e)) == entries_bytes(es) + entry_bytes(e),
    decreases es.len(),
{
    if es.len() == 0 {
        assert(es.push(e)[0] == e);
        assert(es.push(e).drop_first() =~= es);
        assert(entries_bytes(es.push(e)) =~= entries_bytes(es) + entry_bytes(e));
    } else {
        assert(es.push(e).drop_first() =~= es.drop_first().push(e));
        lemma_entries_bytes_push(es.drop_first(), e);
        assert(es.push(e)[0] == es[0]);
        assert(entry_bytes(es[0]) + (entries_bytes(es.drop_first()) + entry_bytes(e)) =~= (
        entry_bytes(es[0]) + entries_bytes(es.drop_first())) + entry_bytes(e));
    }
}

pub proof fn lemma_blocks_bytes_push(bks: Seq<ArchivedBlockView>, bk: ArchivedBlockView)
    ensures
        blocks_bytes(bks.push(bk)) == blocks_bytes(bks) + block_bytes(bk),
    decreases bks.len(),
{
    if bks.len() == 0 {
        assert(bks.push(bk)[0] == bk);
        assert(bks.push(bk).drop_first() =~= bks);
        assert(blocks_bytes(bks.push(bk)) =~= blocks_bytes(bks) + block_bytes(bk));
    } else {
        assert(bks.push(bk).drop_first() =~= bks.drop_first().push(bk));
        lemma_blocks_bytes_push(bks.drop_first(), bk);
        assert(bks.push(bk)[0] == bks[0]);
        assert(block_bytes(bks[0]) + (blocks_bytes(bks.drop_first()) + block_bytes(bk)) =~= (
        block_bytes(bks[0]) + blocks_bytes(bks.drop_first())) + block_bytes(bk));
    }
}

// ---------------------------------------------------------------------------
// Parsing what was emitted yields the original: the emitter writes only
// bytes that the parser maps back.
// ---------------------------------------------------------------------------

pub proof fn lemma_parse_word(b: Seq<u8>, i: int, w: ArchivedValue, bound: int)
    requires
        0 <= i,
        i + word_bytes(w).len() <= b.len(),
        b.subrange(i, i + word_bytes(w).len()) == word_bytes(w),
        aword_bounded(w, bound),
    ensures
        sp_word(b, i, bound) == Some((w, i + word_bytes(w).len())),
{
    let wb = word_bytes(w);
    assert(wb.len() == 9);
    assert(b[i] == wb[0]) by {
        assert(b.subrange(i, i + 9)[0] == b[i]);
    }
    assert(b.subrange(i + 1, i + 9) =~= le8(match w {
        ArchivedValue::Inline(_, p) => p.0 as u64,
        ArchivedValue::Ref(o) => o,
    })) by {
        assert forall|j: int| 0 <= j < 8 implies #[trigger] b.subrange(i + 1, i + 9)[j] == wb[j
            + 1] by {
            assert(b.subrange(i, i + 9)[j + 1] == b[i + 1 + j]);
        }
    }
    match w {
        ArchivedValue::Inline(iv, p) => {
            lemma_u64_at_le8(b, i + 1, p.0 as u64);
        },
        ArchivedValue::Ref(o) => {
            lemma_u64_at_le8(b, i + 1, o);
        },
    }
}

pub proof fn lemma_parse_limbs(b: Seq<u8>, i: int, ls: Seq<u64>)
    requires
        0 <= i,
        i + limbs_bytes(ls).len() <= b.len(),
        b.subrange(i, i + limbs_bytes(ls).len()) == limbs_bytes(ls),
        ls.len() <= u64::MAX,
    ensures
        sp_limbs(b, i, ls.len() as int) == Some((ls, i + limbs_bytes(ls).len())),
    decreases ls.len(),
{
    if ls.len() > 0 {
        let lb = limbs_bytes(ls);
        let rest = limbs_bytes(ls.drop_first());
        assert(lb == le8(ls[0]) + rest);
        assert(lb.len() == 8 + rest.len());
        assert(b.subrange(i, i + 8) =~= le8(ls[0])) by {
            assert forall|j: int| 0 <= j < 8 implies #[trigger] b.subrange(i, i + 8)[j] == lb[j] by {
                assert(b.subrange(i, i + lb.len())[j] == b[i + j]);
            }
        }
        lemma_u64_at_le8(b, i, ls[0]);
        assert(b.subrange(i + 8, i + 8 + rest.len()) =~= rest) by {
            assert forall|j: int| 0 <= j < rest.len() implies #[trigger] b.subrange(i + 8, i + 8
                + rest.len())[j] == lb[j + 8] by {
                assert(b.subrange(i, i + lb.len())[j + 8] == b[i + 8 + j]);
            }
        }
        lemma_parse_limbs(b, i + 8, ls.drop_first());
        assert(seq![ls[0]] + ls.drop_first() =~= ls);
    }
}

pub proof fn lemma_parse_words(b: Seq<u8>, i: int, ws: Seq<ArchivedValue>, bound: int)
    requires
        0 <= i,
        i + words_bytes(ws).len() <= b.len(),
        b.subrange(i, i + words_bytes(ws).len()) == words_bytes(ws),
        ws.len() <= u64::MAX,
        forall|k: int| 0 <= k < ws.len() ==> aword_bounded(#[trigger] ws[k], bound),
    ensures
        sp_words(b, i, ws.len() as int, bound) == Some((ws, i + words_bytes(ws).len())),
    decreases ws.len(),
{
    if ws.len() > 0 {
        let wb = words_bytes(ws);
        let w0 = word_bytes(ws[0]);
        let rest = words_bytes(ws.drop_first());
        assert(wb == w0 + rest);
        assert(b.subrange(i, i + w0.len()) =~= w0) by {
            assert forall|j: int| 0 <= j < w0.len() implies #[trigger] b.subrange(i, i + w0.len())[j]
                == wb[j] by {
                assert(b.subrange(i, i + wb.len())[j] == b[i + j]);
            }
        }
        lemma_parse_word(b, i, ws[0], bound);
        assert(b.subrange(i + w0.len(), i + w0.len() + rest.len()) =~= rest) by {
            assert forall|j: int| 0 <= j < rest.len() implies #[trigger] b.subrange(i + w0.len(), i
                + w0.len() + rest.len())[j] == wb[j + w0.len()] by {
                assert(b.subrange(i, i + wb.len())[j + w0.len()] == b[i + w0.len() + j]);
            }
        }
        lemma_parse_words(b, i + w0.len(), ws.drop_first(), bound);
        assert(seq![ws[0]] + ws.drop_first() =~= ws);
    }
}

pub proof fn lemma_parse_entries(b: Seq<u8>, i: int, es: Seq<(Seq<u8>, ArchivedValue)>, bound: int)
    requires
        0 <= i,
        i + entries_bytes(es).len() <= b.len(),
        b.subrange(i, i + entries_bytes(es).len()) == entries_bytes(es),
        es.len() <= u64::MAX,
        forall|k: int| 0 <= k < es.len() ==> aword_bounded((#[trigger] es[k]).1, bound),
        forall|k: int| 0 <= k < es.len() ==> (#[trigger] es[k]).0.len() <= u64::MAX,
    ensures
        sp_entries(b, i, es.len() as int, bound) == Some((es, i + entries_bytes(es).len())),
    decreases es.len(),
{
    if es.len() > 0 {
        let eb = entries_bytes(es);
        let e0 = entry_bytes(es[0]);
        let rest = entries_bytes(es.drop_first());
        assert(eb == e0 + rest);
        assert(b.subrange(i, i + e0.len()) =~= e0) by {
            assert forall|j: int| 0 <= j < e0.len() implies #[trigger] b.subrange(i, i + e0.len())[j]
                == eb[j] by {
                assert(b.subrange(i, i + eb.len())[j] == b[i + j]);
            }
        }
        // the entry itself: key length, key bytes, value word
        let key = es[0].0;
        let kb = le8(key.len() as u64);
        let wbb = word_bytes(es[0].1);
        assert(e0 == kb + key + wbb);
        assert(b.subrange(i, i + 8) =~= kb) by {
            assert forall|j: int| 0 <= j < 8 implies #[trigger] b.subrange(i, i + 8)[j] == e0[j] by {
                assert(b.subrange(i, i + e0.len())[j] == b[i + j]);
            }
        }
        lemma_u64_at_le8(b, i, key.len() as u64);
        assert(b.subrange(i + 8, i + 8 + key.len()) =~= key) by {
            assert forall|j: int| 0 <= j < key.len() implies #[trigger] b.subrange(i + 8, i + 8
                + key.len())[j] == e0[j + 8] by {
                assert(b.subrange(i, i + e0.len())[j + 8] == b[i + 8 + j]);
            }
        }
        let wi = i + 8 + key.len();
        assert(b.subrange(wi, wi + wbb.len()) =~= wbb) by {
            assert forall|j: int| 0 <= j < wbb.len() implies #[trigger] b.subrange(wi, wi + wbb.len())[j]
                == e0[j + 8 + key.len()] by {
                assert(b.subrange(i, i + e0.len())[j + 8 + key.len()] == b[wi + j]);
            }
        }
        lemma_parse_word(b, wi, es[0].1, bound);
        assert(sp_entry(b, i, bound) == Some((es[0], i + e0.len())));
        assert(b.subrange(i + e0.len(), i + e0.len() + rest.len()) =~= rest) by {
            assert forall|j: int| 0 <= j < rest.len() implies #[trigger] b.subrange(i + e0.len(), i
                + e0.len() + rest.len())[j] == eb[j + e0.len()] by {
                assert(b.subrange(i, i + eb.len())[j + e0.len()] == b[i + e0.len() + j]);
            }
        }
        lemma_parse_entries(b, i + e0.len(), es.drop_first(), bound);
        assert(seq![es[0]] + es.drop_first() =~= es);
    }
}

#[verifier::rlimit(100)]
pub proof fn lemma_parse_payload(b: Seq<u8>, i: int, p: ArchivedPayloadView, bound: int)
    requires
        0 <= i,
        i + payload_bytes(p).len() <= b.len(),
        b.subrange(i, i + payload_bytes(p).len()) == payload_bytes(p),
        apayload_wf(p, bound),
        apayload_sized(p),
    ensures
        sp_payload(b, i, bound) == Some((p, i + payload_bytes(p).len())),
{
    let pb = payload_bytes(p);
    assert(b[i] == pb[0]) by {
        assert(b.subrange(i, i + pb.len())[0] == b[i]);
    }
    match p {
        ArchivedPayloadView::Num(sg, num, den) => {
            let nb = limbs_bytes(num);
            let db = limbs_bytes(den);
            assert(pb == seq![TAG_NUM, (if sg { 1u8 } else { 0u8 })] + le8(num.len() as u64)
                + nb + le8(den.len() as u64) + db);
            assert(b[i + 1] == pb[1]) by {
                assert(b.subrange(i, i + pb.len())[1] == b[i + 1]);
            }
            assert(b.subrange(i + 2, i + 10) =~= le8(num.len() as u64)) by {
                assert forall|j: int| 0 <= j < 8 implies #[trigger] b.subrange(i + 2, i + 10)[j] == pb[j
                    + 2] by {
                    assert(b.subrange(i, i + pb.len())[j + 2] == b[i + 2 + j]);
                }
            }
            lemma_u64_at_le8(b, i + 2, num.len() as u64);
            assert(b.subrange(i + 10, i + 10 + nb.len()) =~= nb) by {
                assert forall|j: int| 0 <= j < nb.len() implies #[trigger] b.subrange(i + 10, i + 10
                    + nb.len())[j] == pb[j + 10] by {
                    assert(b.subrange(i, i + pb.len())[j + 10] == b[i + 10 + j]);
                }
            }
            lemma_parse_limbs(b, i + 10, num);
            let di = i + 10 + nb.len();
            assert(b.subrange(di, di + 8) =~= le8(den.len() as u64)) by {
                assert forall|j: int| 0 <= j < 8 implies #[trigger] b.subrange(di, di + 8)[j] == pb[j + 10
                    + nb.len()] by {
                    assert(b.subrange(i, i + pb.len())[j + 10 + nb.len()] == b[di + j]);
                }
            }
            lemma_u64_at_le8(b, di, den.len() as u64);
            assert(b.subrange(di + 8, di + 8 + db.len()) =~= db) by {
                assert forall|j: int| 0 <= j < db.len() implies #[trigger] b.subrange(di + 8, di + 8
                    + db.len())[j] == pb[j + 18 + nb.len()] by {
                    assert(b.subrange(i, i + pb.len())[j + 18 + nb.len()] == b[di + 8 + j]);
                }
            }
            lemma_parse_limbs(b, di + 8, den);
        },
        ArchivedPayloadView::Str(bs) => {
            assert(pb == seq![TAG_STR] + le8(bs.len() as u64) + bs);
            assert(b.subrange(i + 1, i + 9) =~= le8(bs.len() as u64)) by {
                assert forall|j: int| 0 <= j < 8 implies #[trigger] b.subrange(i + 1, i + 9)[j] == pb[j
                    + 1] by {
                    assert(b.subrange(i, i + pb.len())[j + 1] == b[i + 1 + j]);
                }
            }
            lemma_u64_at_le8(b, i + 1, bs.len() as u64);
            assert(b.subrange(i + 9, i + 9 + bs.len()) =~= bs) by {
                assert forall|j: int| 0 <= j < bs.len() implies #[trigger] b.subrange(i + 9, i + 9
                    + bs.len())[j] == pb[j + 9] by {
                    assert(b.subrange(i, i + pb.len())[j + 9] == b[i + 9 + j]);
                }
            }
        },
        ArchivedPayloadView::Term(bs) => {
            assert(pb == seq![TAG_TERM] + le8(bs.len() as u64) + bs);
            assert(b.subrange(i + 1, i + 9) =~= le8(bs.len() as u64)) by {
                assert forall|j: int| 0 <= j < 8 implies #[trigger] b.subrange(i + 1, i + 9)[j] == pb[j
                    + 1] by {
                    assert(b.subrange(i, i + pb.len())[j + 1] == b[i + 1 + j]);
                }
            }
            lemma_u64_at_le8(b, i + 1, bs.len() as u64);
            assert(b.subrange(i + 9, i + 9 + bs.len()) =~= bs) by {
                assert forall|j: int| 0 <= j < bs.len() implies #[trigger] b.subrange(i + 9, i + 9
                    + bs.len())[j] == pb[j + 9] by {
                    assert(b.subrange(i, i + pb.len())[j + 9] == b[i + 9 + j]);
                }
            }
        },
        ArchivedPayloadView::Label(bs) => {
            assert(pb == seq![TAG_LABEL] + le8(bs.len() as u64) + bs);
            assert(b.subrange(i + 1, i + 9) =~= le8(bs.len() as u64)) by {
                assert forall|j: int| 0 <= j < 8 implies #[trigger] b.subrange(i + 1, i + 9)[j] == pb[j
                    + 1] by {
                    assert(b.subrange(i, i + pb.len())[j + 1] == b[i + 1 + j]);
                }
            }
            lemma_u64_at_le8(b, i + 1, bs.len() as u64);
            assert(b.subrange(i + 9, i + 9 + bs.len()) =~= bs) by {
                assert forall|j: int| 0 <= j < bs.len() implies #[trigger] b.subrange(i + 9, i + 9
                    + bs.len())[j] == pb[j + 9] by {
                    assert(b.subrange(i, i + pb.len())[j + 9] == b[i + 9 + j]);
                }
            }
        },
        ArchivedPayloadView::EnumVariant(bs) => {
            assert(pb == seq![TAG_ENUM_VARIANT] + le8(bs.len() as u64) + bs);
            assert(b.subrange(i + 1, i + 9) =~= le8(bs.len() as u64)) by {
                assert forall|j: int| 0 <= j < 8 implies #[trigger] b.subrange(i + 1, i + 9)[j] == pb[j
                    + 1] by {
                    assert(b.subrange(i, i + pb.len())[j + 1] == b[i + 1 + j]);
                }
            }
            lemma_u64_at_le8(b, i + 1, bs.len() as u64);
            assert(b.subrange(i + 9, i + 9 + bs.len()) =~= bs) by {
                assert forall|j: int| 0 <= j < bs.len() implies #[trigger] b.subrange(i + 9, i + 9
                    + bs.len())[j] == pb[j + 9] by {
                    assert(b.subrange(i, i + pb.len())[j + 9] == b[i + 9 + j]);
                }
            }
        },
        ArchivedPayloadView::CustomContract(bs) => {
            assert(pb == seq![TAG_CUSTOM_CONTRACT] + le8(bs.len() as u64) + bs);
            assert(b.subrange(i + 1, i + 9) =~= le8(bs.len() as u64)) by {
                assert forall|j: int| 0 <= j < 8 implies #[trigger] b.subrange(i + 1, i + 9)[j] == pb[j
                    + 1] by {
                    assert(b.subrange(i, i + pb.len())[j + 1] == b[i + 1 + j]);
                }
            }
            lemma_u64_at_le8(b, i + 1, bs.len() as u64);
            assert(b.subrange(i + 9, i + 9 + bs.len()) =~= bs) by {
                assert forall|j: int| 0 <= j < bs.len() implies #[trigger] b.subrange(i + 9, i + 9
                    + bs.len())[j] == pb[j + 9] by {
                    assert(b.subrange(i, i + pb.len())[j + 9] == b[i + 9 + j]);
                }
            }
        },
        ArchivedPayloadView::Type(bs) => {
            assert(pb == seq![TAG_TYPE] + le8(bs.len() as u64) + bs);
            assert(b.subrange(i + 1, i + 9) =~= le8(bs.len() as u64)) by {
                assert forall|j: int| 0 <= j < 8 implies #[trigger] b.subrange(i + 1, i + 9)[j] == pb[j
                    + 1] by {
                    assert(b.subrange(i, i + pb.len())[j + 1] == b[i + 1 + j]);
                }
            }
            lemma_u64_at_le8(b, i + 1, bs.len() as u64);
            assert(b.subrange(i + 9, i + 9 + bs.len()) =~= bs) by {
                assert forall|j: int| 0 <= j < bs.len() implies #[trigger] b.subrange(i + 9, i + 9
                    + bs.len())[j] == pb[j + 9] by {
                    assert(b.subrange(i, i + pb.len())[j + 9] == b[i + 9 + j]);
                }
            }
        },
        ArchivedPayloadView::Arr(ws) => {
            let wb = words_bytes(ws);
            assert(pb == seq![TAG_ARR] + le8(ws.len() as u64) + wb);
            assert(b.subrange(i + 1, i + 9) =~= le8(ws.len() as u64)) by {
                assert forall|j: int| 0 <= j < 8 implies #[trigger] b.subrange(i + 1, i + 9)[j] == pb[j
                    + 1] by {
                    assert(b.subrange(i, i + pb.len())[j + 1] == b[i + 1 + j]);
                }
            }
            lemma_u64_at_le8(b, i + 1, ws.len() as u64);
            assert(b.subrange(i + 9, i + 9 + wb.len()) =~= wb) by {
                assert forall|j: int| 0 <= j < wb.len() implies #[trigger] b.subrange(i + 9, i + 9
                    + wb.len())[j] == pb[j + 9] by {
                    assert(b.subrange(i, i + pb.len())[j + 9] == b[i + 9 + j]);
                }
            }
            lemma_parse_words(b, i + 9, ws, bound);
        },
        ArchivedPayloadView::Rec(es) => {
            let eb = entries_bytes(es);
            assert(pb == seq![TAG_REC] + le8(es.len() as u64) + eb);
            assert(b.subrange(i + 1, i + 9) =~= le8(es.len() as u64)) by {
                assert forall|j: int| 0 <= j < 8 implies #[trigger] b.subrange(i + 1, i + 9)[j] == pb[j
                    + 1] by {
                    assert(b.subrange(i, i + pb.len())[j + 1] == b[i + 1 + j]);
                }
            }
            lemma_u64_at_le8(b, i + 1, es.len() as u64);
            assert(b.subrange(i + 9, i + 9 + eb.len()) =~= eb) by {
                assert forall|j: int| 0 <= j < eb.len() implies #[trigger] b.subrange(i + 9, i + 9
                    + eb.len())[j] == pb[j + 9] by {
                    assert(b.subrange(i, i + pb.len())[j + 9] == b[i + 9 + j]);
                }
            }
            lemma_parse_entries(b, i + 9, es, bound);
        },
        ArchivedPayloadView::Foreign(x) => {
            assert(pb == seq![TAG_FOREIGN] + le8(x as u64));
            assert(b.subrange(i + 1, i + 9) =~= le8(x as u64)) by {
                assert forall|j: int| 0 <= j < 8 implies #[trigger] b.subrange(i + 1, i + 9)[j] == pb[j
                    + 1] by {
                    assert(b.subrange(i, i + pb.len())[j + 1] == b[i + 1 + j]);
                }
            }
            lemma_u64_at_le8(b, i + 1, x as u64);
        },
        ArchivedPayloadView::Sealing(x) => {
            assert(pb == seq![TAG_SEALING] + le8(x));
            assert(b.subrange(i + 1, i + 9) =~= le8(x)) by {
                assert forall|j: int| 0 <= j < 8 implies #[trigger] b.subrange(i + 1, i + 9)[j] == pb[j
                    + 1] by {
                    assert(b.subrange(i, i + pb.len())[j + 1] == b[i + 1 + j]);
                }
            }
            lemma_u64_at_le8(b, i + 1, x);
        },
    }
}

#[verifier::rlimit(60)]
pub proof fn lemma_parse_block(b: Seq<u8>, i: int, bk: ArchivedBlockView, k: int)
    requires
        0 <= i,
        i + block_bytes(bk).len() <= b.len(),
        b.subrange(i, i + block_bytes(bk).len()) == block_bytes(bk),
        apayload_wf(bk.payload, k),
        apayload_sized(bk.payload),
    ensures
        sp_block(b, i, k) == Some((bk, i + block_bytes(bk).len())),
{
    let bb = block_bytes(bk);
    let pb = payload_bytes(bk.payload);
    assert(bb == le8(bk.pos as u64) + pb);
    assert(b.subrange(i, i + 8) =~= le8(bk.pos as u64)) by {
        assert forall|j: int| 0 <= j < 8 implies #[trigger] b.subrange(i, i + 8)[j] == bb[j] by {
            assert(b.subrange(i, i + bb.len())[j] == b[i + j]);
        }
    }
    lemma_u64_at_le8(b, i, bk.pos as u64);
    assert(b.subrange(i + 8, i + 8 + pb.len()) =~= pb) by {
        assert forall|j: int| 0 <= j < pb.len() implies #[trigger] b.subrange(i + 8, i + 8 + pb.len())[j]
            == bb[j + 8] by {
            assert(b.subrange(i, i + bb.len())[j + 8] == b[i + 8 + j]);
        }
    }
    lemma_parse_payload(b, i + 8, bk.payload, k);
}

pub proof fn lemma_parse_blocks(b: Seq<u8>, i: int, bks: Seq<ArchivedBlockView>, k: int, n: int)
    requires
        0 <= i,
        i + blocks_bytes(bks).len() <= b.len(),
        b.subrange(i, i + blocks_bytes(bks).len()) == blocks_bytes(bks),
        0 <= k,
        n - k == bks.len(),
        forall|m: int| 0 <= m < bks.len() ==> apayload_wf((#[trigger] bks[m]).payload, k + m)
            && apayload_sized(bks[m].payload),
    ensures
        sp_blocks(b, i, k, n) == Some((bks, i + blocks_bytes(bks).len())),
    decreases bks.len(),
{
    if bks.len() > 0 {
        let ab = blocks_bytes(bks);
        let b0 = block_bytes(bks[0]);
        let rest = blocks_bytes(bks.drop_first());
        assert(ab == b0 + rest);
        assert(b.subrange(i, i + b0.len()) =~= b0) by {
            assert forall|j: int| 0 <= j < b0.len() implies #[trigger] b.subrange(i, i + b0.len())[j]
                == ab[j] by {
                assert(b.subrange(i, i + ab.len())[j] == b[i + j]);
            }
        }
        lemma_parse_block(b, i, bks[0], k);
        assert(b.subrange(i + b0.len(), i + b0.len() + rest.len()) =~= rest) by {
            assert forall|j: int| 0 <= j < rest.len() implies #[trigger] b.subrange(i + b0.len(), i
                + b0.len() + rest.len())[j] == ab[j + b0.len()] by {
                assert(b.subrange(i, i + ab.len())[j + b0.len()] == b[i + b0.len() + j]);
            }
        }
        assert forall|m: int| 0 <= m < bks.drop_first().len() implies apayload_wf(
            (#[trigger] bks.drop_first()[m]).payload, k + 1 + m) && apayload_sized(
            bks.drop_first()[m].payload) by {
            assert(bks.drop_first()[m] == bks[m + 1]);
        }
        lemma_parse_blocks(b, i + b0.len(), bks.drop_first(), k + 1, n);
        assert(seq![bks[0]] + bks.drop_first() =~= bks);
    }
}

/// The whole round trip at the byte level: emitted bytes parse back to
/// the same archive.
pub proof fn lemma_parse_archive_bytes(a: ArchiveView)
    requires
        crate::archive::archive_wf(a),
        archive_sized(a),
    ensures
        parse_archive(archive_bytes(a)) == Some(a),
{
    let b = archive_bytes(a);
    let cb = le8(a.blocks.len() as u64);
    let bb = blocks_bytes(a.blocks);
    let rb = word_bytes(a.root);
    assert(b == cb + bb + rb);
    let bbl = bb.len() as int;
    let rbl = rb.len() as int;
    assert(b.subrange(0, 8) =~= cb);
    lemma_u64_at_le8(b, 0, a.blocks.len() as u64);
    assert(b.subrange(8, 8 + bbl) =~= bb) by {
        assert forall|j: int| 0 <= j < bbl implies #[trigger] b.subrange(8, 8 + bbl)[j] == b[8 + j] && b[8
            + j] == bb[j] by {}
    }
    assert forall|m: int| 0 <= m < a.blocks.len() implies apayload_wf(
        (#[trigger] a.blocks[m]).payload, 0 + m) && apayload_sized(a.blocks[m].payload) by {}
    lemma_parse_blocks(b, 8, a.blocks, 0, a.blocks.len() as int);
    let ri = 8 + bbl;
    assert(b.subrange(ri, ri + rbl) =~= rb) by {
        assert forall|j: int| 0 <= j < rbl implies #[trigger] b.subrange(ri, ri + rbl)[j] == b[ri + j]
            && b[ri + j] == rb[j] by {}
    }
    lemma_parse_word(b, ri, a.root, a.blocks.len() as int);
    assert(ri + rbl == b.len());
}

// ---------------------------------------------------------------------------
// A parsed archive cannot hold more references than the blob has bytes:
// every occurrence costs nine bytes, so the archive's total reference
// count is bounded by the blob length. The loader's reference-count bumps
// therefore always fit the host word.
// ---------------------------------------------------------------------------

pub proof fn lemma_awords_refs_cons(w: ArchivedValue, ws: Seq<ArchivedValue>)
    ensures
        crate::archive::awords_refs(seq![w] + ws) == crate::archive::aword_refs(w)
            + crate::archive::awords_refs(ws),
    decreases ws.len(),
{
    if ws.len() == 0 {
        assert((seq![w] + ws).drop_last() =~= ws);
        assert((seq![w] + ws).last() == w);
    } else {
        assert((seq![w] + ws).drop_last() =~= seq![w] + ws.drop_last());
        lemma_awords_refs_cons(w, ws.drop_last());
        assert((seq![w] + ws).last() == ws.last());
    }
}

pub proof fn lemma_aentries_refs_cons(
    e: (Seq<u8>, ArchivedValue),
    es: Seq<(Seq<u8>, ArchivedValue)>,
)
    ensures
        crate::archive::aentries_refs(seq![e] + es) == crate::archive::aword_refs(e.1)
            + crate::archive::aentries_refs(es),
    decreases es.len(),
{
    if es.len() == 0 {
        assert((seq![e] + es).drop_last() =~= es);
        assert((seq![e] + es).last() == e);
    } else {
        assert((seq![e] + es).drop_last() =~= seq![e] + es.drop_last());
        lemma_aentries_refs_cons(e, es.drop_last());
        assert((seq![e] + es).last() == es.last());
    }
}

pub proof fn lemma_ablocks_refs_cons(bk: ArchivedBlockView, bks: Seq<ArchivedBlockView>, m: int)
    requires
        0 <= m <= bks.len(),
    ensures
        crate::archive::ablocks_refs(seq![bk] + bks, m + 1) == crate::archive::apayload_refs(
            bk.payload) + crate::archive::ablocks_refs(bks, m),
    decreases m,
{
    if m == 0 {
        assert((seq![bk] + bks)[0] == bk);
        assert(crate::archive::ablocks_refs(seq![bk] + bks, 0) == 0);
        assert(crate::archive::ablocks_refs(bks, 0) == 0);
    } else {
        lemma_ablocks_refs_cons(bk, bks, m - 1);
        assert((seq![bk] + bks)[m] == bks[m - 1]);
    }
}

pub proof fn lemma_sp_limbs_consumed(b: Seq<u8>, i: int, n: int)
    requires
        sp_limbs(b, i, n) is Some,
    ensures
        i <= sp_limbs(b, i, n)->Some_0.1,
    decreases n,
{
    if n > 0 {
        let (_, i2) = sp_u64(b, i)->Some_0;
        lemma_sp_limbs_consumed(b, i2, n - 1);
    }
}

pub proof fn lemma_sp_words_refs(b: Seq<u8>, i: int, n: int, bound: int)
    requires
        sp_words(b, i, n, bound) is Some,
    ensures
        ({
            let (ws, j) = sp_words(b, i, n, bound)->Some_0;
            i <= j && i + crate::archive::awords_refs(ws) <= j
        }),
    decreases n,
{
    if n > 0 {
        let (w, i2) = sp_word(b, i, bound)->Some_0;
        assert(i2 == i + 9);
        lemma_sp_words_refs(b, i2, n - 1, bound);
        let (ws2, _) = sp_words(b, i2, n - 1, bound)->Some_0;
        lemma_awords_refs_cons(w, ws2);
        assert(crate::archive::aword_refs(w) <= 1);
    }
}

pub proof fn lemma_sp_entries_refs(b: Seq<u8>, i: int, n: int, bound: int)
    requires
        sp_entries(b, i, n, bound) is Some,
    ensures
        ({
            let (es, j) = sp_entries(b, i, n, bound)->Some_0;
            i <= j && i + crate::archive::aentries_refs(es) <= j
        }),
    decreases n,
{
    if n > 0 {
        let (e, i2) = sp_entry(b, i, bound)->Some_0;
        assert(i2 >= i + 9);
        lemma_sp_entries_refs(b, i2, n - 1, bound);
        let (es2, _) = sp_entries(b, i2, n - 1, bound)->Some_0;
        lemma_aentries_refs_cons(e, es2);
        assert(crate::archive::aword_refs(e.1) <= 1);
    }
}

pub proof fn lemma_sp_payload_refs(b: Seq<u8>, i: int, bound: int)
    requires
        sp_payload(b, i, bound) is Some,
    ensures
        ({
            let (p, j) = sp_payload(b, i, bound)->Some_0;
            i <= j && i + crate::archive::apayload_refs(p) <= j
        }),
{
    let (t, i2) = sp_u8(b, i)->Some_0;
    if t == TAG_NUM {
        let (_, i3) = sp_u8(b, i2)->Some_0;
        let (nlen, i4) = sp_u64(b, i3)->Some_0;
        lemma_sp_limbs_consumed(b, i4, nlen as int);
        let (_, i5) = sp_limbs(b, i4, nlen as int)->Some_0;
        let (dlen, i6) = sp_u64(b, i5)->Some_0;
        lemma_sp_limbs_consumed(b, i6, dlen as int);
    } else if t == TAG_ARR {
        let (len, i3) = sp_u64(b, i2)->Some_0;
        lemma_sp_words_refs(b, i3, len as int, bound);
    } else if t == TAG_REC {
        let (len, i3) = sp_u64(b, i2)->Some_0;
        lemma_sp_entries_refs(b, i3, len as int, bound);
    }
}

pub proof fn lemma_sp_blocks_refs(b: Seq<u8>, i: int, k: int, n: int)
    requires
        sp_blocks(b, i, k, n) is Some,
    ensures
        ({
            let (bks, j) = sp_blocks(b, i, k, n)->Some_0;
            i <= j && i + crate::archive::ablocks_refs(bks, bks.len() as int) <= j
        }),
    decreases n - k,
{
    if n > k {
        let (bk, i2) = sp_block(b, i, k)->Some_0;
        let (_, ip) = sp_u64(b, i)->Some_0;
        lemma_sp_payload_refs(b, ip, k);
        lemma_sp_blocks_refs(b, i2, k + 1, n);
        let (bks2, _) = sp_blocks(b, i2, k + 1, n)->Some_0;
        lemma_ablocks_refs_cons(bk, bks2, bks2.len() as int);
    }
}

/// A parsed archive's reference total is bounded by the blob length.
pub proof fn lemma_parse_archive_refs(b: Seq<u8>)
    requires
        parse_archive(b) is Some,
    ensures
        crate::archive::archive_refs(parse_archive(b)->Some_0) + 8 <= b.len(),
{
    let (count, i1) = sp_u64(b, 0)->Some_0;
    lemma_sp_blocks_refs(b, i1, 0, count as int);
    let (bks, i2) = sp_blocks(b, i1, 0, count as int)->Some_0;
    let (root, i3) = sp_word(b, i2, count as int)->Some_0;
    assert(i3 == i2 + 9);
    assert(crate::archive::aword_refs(root) <= 1);
}

// ---------------------------------------------------------------------------
// The executable emitter.
// ---------------------------------------------------------------------------

fn emit_u64(buf: &mut Vec<u8>, x: u64)
    ensures
        final(buf)@ == old(buf)@ + le8(x),
{
    buf.push(#[verifier::truncate] (x as u8));
    buf.push(#[verifier::truncate] ((x >> 8) as u8));
    buf.push(#[verifier::truncate] ((x >> 16) as u8));
    buf.push(#[verifier::truncate] ((x >> 24) as u8));
    buf.push(#[verifier::truncate] ((x >> 32) as u8));
    buf.push(#[verifier::truncate] ((x >> 40) as u8));
    buf.push(#[verifier::truncate] ((x >> 48) as u8));
    buf.push(#[verifier::truncate] ((x >> 56) as u8));
    proof {
        assert(buf@ =~= old(buf)@ + le8(x));
    }
}

fn append_bytes(buf: &mut Vec<u8>, src: &Vec<u8>)
    ensures
        final(buf)@ == old(buf)@ + src@,
{
    let mut k: usize = 0;
    while k < src.len()
        invariant
            k <= src@.len(),
            buf@ == old(buf)@ + src@.subrange(0, k as int),
        decreases src@.len() - k,
    {
        buf.push(src[k]);
        k = k + 1;
        proof {
            assert(old(buf)@ + src@.subrange(0, k as int) =~= (old(buf)@ + src@.subrange(
                0, k as int - 1)).push(src@[k as int - 1]));
        }
    }
    proof {
        assert(src@.subrange(0, src@.len() as int) =~= src@);
    }
}

fn emit_word(buf: &mut Vec<u8>, w: &ArchivedValue)
    ensures
        final(buf)@ == old(buf)@ + word_bytes(*w),
{
    match w {
        ArchivedValue::Inline(iv, p) => {
            let t: u8 = match iv {
                InlineValue::Null => TAG_NULL,
                InlineValue::True => TAG_TRUE,
                InlineValue::False => TAG_FALSE,
            };
            buf.push(t);
            emit_u64(buf, p.0 as u64);
            proof {
                assert(buf@ =~= old(buf)@ + word_bytes(*w));
            }
        },
        ArchivedValue::Ref(o) => {
            buf.push(TAG_REF);
            emit_u64(buf, *o);
            proof {
                assert(buf@ =~= old(buf)@ + word_bytes(*w));
            }
        },
    }
}

fn emit_limbs(buf: &mut Vec<u8>, ls: &Vec<u64>)
    ensures
        final(buf)@ == old(buf)@ + limbs_bytes(ls@),
{
    let mut k: usize = 0;
    while k < ls.len()
        invariant
            k <= ls@.len(),
            buf@ == old(buf)@ + limbs_bytes(ls@.subrange(0, k as int)),
        decreases ls@.len() - k,
    {
        emit_u64(buf, ls[k]);
        k = k + 1;
        proof {
            assert(ls@.subrange(0, k as int) =~= ls@.subrange(0, k as int - 1).push(ls@[
                k as int - 1]));
            lemma_limbs_bytes_push(ls@.subrange(0, k as int - 1), ls@[k as int - 1]);
            assert(buf@ =~= old(buf)@ + limbs_bytes(ls@.subrange(0, k as int)));
        }
    }
    proof {
        assert(ls@.subrange(0, ls@.len() as int) =~= ls@);
    }
}

fn emit_payload(buf: &mut Vec<u8>, p: &ArchivedPayload)
    ensures
        final(buf)@ == old(buf)@ + payload_bytes(p@),
{
    match p {
        ArchivedPayload::Num(n) => {
            buf.push(TAG_NUM);
            buf.push(if n.sign {
                1u8
            } else {
                0u8
            });
            emit_u64(buf, n.num.len() as u64);
            emit_limbs(buf, &n.num);
            emit_u64(buf, n.den.len() as u64);
            emit_limbs(buf, &n.den);
            proof {
                assert(buf@ =~= old(buf)@ + payload_bytes(p@));
            }
        },
        ArchivedPayload::Str(bs) => {
            buf.push(TAG_STR);
            emit_u64(buf, bs.len() as u64);
            append_bytes(buf, bs);
            proof {
                assert(buf@ =~= old(buf)@ + payload_bytes(p@));
            }
        },
        ArchivedPayload::Term(bs) => {
            buf.push(TAG_TERM);
            emit_u64(buf, bs.len() as u64);
            append_bytes(buf, bs);
            proof {
                assert(buf@ =~= old(buf)@ + payload_bytes(p@));
            }
        },
        ArchivedPayload::Label(bs) => {
            buf.push(TAG_LABEL);
            emit_u64(buf, bs.len() as u64);
            append_bytes(buf, bs);
            proof {
                assert(buf@ =~= old(buf)@ + payload_bytes(p@));
            }
        },
        ArchivedPayload::EnumVariant(bs) => {
            buf.push(TAG_ENUM_VARIANT);
            emit_u64(buf, bs.len() as u64);
            append_bytes(buf, bs);
            proof {
                assert(buf@ =~= old(buf)@ + payload_bytes(p@));
            }
        },
        ArchivedPayload::CustomContract(bs) => {
            buf.push(TAG_CUSTOM_CONTRACT);
            emit_u64(buf, bs.len() as u64);
            append_bytes(buf, bs);
            proof {
                assert(buf@ =~= old(buf)@ + payload_bytes(p@));
            }
        },
        ArchivedPayload::Type(bs) => {
            buf.push(TAG_TYPE);
            emit_u64(buf, bs.len() as u64);
            append_bytes(buf, bs);
            proof {
                assert(buf@ =~= old(buf)@ + payload_bytes(p@));
            }
        },
        ArchivedPayload::Arr(ws) => {
            buf.push(TAG_ARR);
            emit_u64(buf, ws.len() as u64);
            let ghost base = buf@;
            let mut k: usize = 0;
            while k < ws.len()
                invariant
                    k <= ws@.len(),
                    buf@ == base + words_bytes(ws@.subrange(0, k as int)),
                decreases ws@.len() - k,
            {
                emit_word(buf, &ws[k]);
                k = k + 1;
                proof {
                    assert(ws@.subrange(0, k as int) =~= ws@.subrange(0, k as int - 1).push(
                        ws@[k as int - 1]));
                    lemma_words_bytes_push(ws@.subrange(0, k as int - 1), ws@[k as int - 1]);
                    assert(buf@ =~= base + words_bytes(ws@.subrange(0, k as int)));
                }
            }
            proof {
                assert(ws@.subrange(0, ws@.len() as int) =~= ws@);
                assert(buf@ =~= old(buf)@ + payload_bytes(p@));
            }
        },
        ArchivedPayload::Rec(es) => {
            buf.push(TAG_REC);
            emit_u64(buf, es.len() as u64);
            let ghost base = buf@;
            let ghost esv = crate::archive::aentries_view(es@);
            let mut k: usize = 0;
            while k < es.len()
                invariant
                    k <= es@.len(),
                    esv == crate::archive::aentries_view(es@),
                    esv.len() == es@.len(),
                    buf@ == base + entries_bytes(esv.subrange(0, k as int)),
                decreases es@.len() - k,
            {
                proof {
                    assert(esv[k as int] == (es@[k as int].0@, es@[k as int].1));
                }
                emit_u64(buf, es[k].0.len() as u64);
                append_bytes(buf, &es[k].0);
                emit_word(buf, &es[k].1);
                k = k + 1;
                proof {
                    assert(esv.subrange(0, k as int) =~= esv.subrange(0, k as int - 1).push(
                        esv[k as int - 1]));
                    lemma_entries_bytes_push(esv.subrange(0, k as int - 1), esv[k as int - 1]);
                    assert(buf@ =~= base + entries_bytes(esv.subrange(0, k as int)));
                }
            }
            proof {
                assert(esv.subrange(0, esv.len() as int) =~= esv);
                assert(buf@ =~= old(buf)@ + payload_bytes(p@));
            }
        },
        ArchivedPayload::Foreign(x) => {
            buf.push(TAG_FOREIGN);
            emit_u64(buf, *x as u64);
            proof {
                assert(buf@ =~= old(buf)@ + payload_bytes(p@));
            }
        },
        ArchivedPayload::Sealing(x) => {
            buf.push(TAG_SEALING);
            emit_u64(buf, *x);
            proof {
                assert(buf@ =~= old(buf)@ + payload_bytes(p@));
            }
        },
    }
}

/// Writes an archive as its byte blob.
pub fn emit_archive(a: &Archive) -> (r: Vec<u8>)
    ensures
        r@ == archive_bytes(a@),
{
    let mut buf: Vec<u8> = Vec::new();
    emit_u64(&mut buf, a.blocks.len() as u64);
    let ghost base = buf@;
    let ghost av = a@.blocks;
    let mut k: usize = 0;
    while k < a.blocks.len()
        invariant
            k <= a.blocks@.len(),
            av == a@.blocks,
            av.len() == a.blocks@.len(),
            buf@ == base + blocks_bytes(av.subrange(0, k as int)),
        decreases a.blocks@.len() - k,
    {
        let bk = &a.blocks[k];
        proof {
            assert(bk@ == av[k as int]);
        }
        emit_u64(&mut buf, bk.pos.0 as u64);
        emit_payload(&mut buf, &bk.payload);
        k = k + 1;
        proof {
            assert(av.subrange(0, k as int) =~= av.subrange(0, k as int - 1).push(av[k as int
                - 1]));
            lemma_blocks_bytes_push(av.subrange(0, k as int - 1), av[k as int - 1]);
            assert(block_bytes(av[k as int - 1]) == le8(av[k as int - 1].pos as u64)
                + payload_bytes(av[k as int - 1].payload));
            assert(buf@ =~= base + blocks_bytes(av.subrange(0, k as int)));
        }
    }
    emit_word(&mut buf, &a.root);
    proof {
        assert(av.subrange(0, av.len() as int) =~= av);
        assert(buf@ =~= archive_bytes(a@));
    }
    buf
}

// ---------------------------------------------------------------------------
// The executable reader, checked against the spec parser.
// ---------------------------------------------------------------------------

use crate::archive::UnstashError;

fn p_u8(b: &Vec<u8>, i: usize) -> (r: Result<(u8, usize), UnstashError>)
    ensures
        (r matches Ok(v) ==> sp_u8(b@, i as int) == Some((v.0, v.1 as int))),
        (r is Err ==> sp_u8(b@, i as int) is None),
{
    if i < b.len() {
        Ok((b[i], i + 1))
    } else {
        Err(UnstashError::Truncated)
    }
}

fn p_u64(b: &Vec<u8>, i: usize) -> (r: Result<(u64, usize), UnstashError>)
    ensures
        (r matches Ok(v) ==> sp_u64(b@, i as int) == Some((v.0, v.1 as int))),
        (r is Err ==> sp_u64(b@, i as int) is None),
{
    if i <= b.len() && b.len() - i >= 8 {
        let x: u64 = (b[i] as u64) | ((b[i + 1] as u64) << 8) | ((b[i + 2] as u64) << 16) | ((
        b[i + 3] as u64) << 24) | ((b[i + 4] as u64) << 32) | ((b[i + 5] as u64) << 40) | ((b[i
            + 6] as u64) << 48) | ((b[i + 7] as u64) << 56);
        proof {
            assert(x == u64_at(b@, i as int));
        }
        Ok((x, i + 8))
    } else {
        Err(UnstashError::Truncated)
    }
}

fn p_bytes(b: &Vec<u8>, i: usize, n: u64) -> (r: Result<(Vec<u8>, usize), UnstashError>)
    ensures
        (r matches Ok(v) ==> sp_bytes(b@, i as int, n as int) == Some((v.0@, v.1 as int))),
        (r is Err ==> sp_bytes(b@, i as int, n as int) is None),
{
    if i <= b.len() && n <= (b.len() - i) as u64 {
        let nn = n as usize;
        let end: usize = i + nn;
        let mut out: Vec<u8> = Vec::new();
        let mut k: usize = 0;
        while k < nn
            invariant
                k <= nn,
                nn as int == n as int,
                end == i + nn,
                end as int <= b@.len(),
                out@ == b@.subrange(i as int, i as int + k as int),
            decreases nn - k,
        {
            out.push(b[i + k]);
            k = k + 1;
            proof {
                assert(out@ =~= b@.subrange(i as int, i as int + k as int));
            }
        }
        Ok((out, i + nn))
    } else {
        Err(UnstashError::Truncated)
    }
}

fn p_limbs(b: &Vec<u8>, i: usize, n: u64) -> (r: Result<(Vec<u64>, usize), UnstashError>)
    ensures
        (r matches Ok(v) ==> sp_limbs(b@, i as int, n as int) == Some((v.0@, v.1 as int))),
        (r is Err ==> sp_limbs(b@, i as int, n as int) is None),
    decreases n,
{
    if n == 0 {
        let out: Vec<u64> = Vec::new();
        proof {
            assert(out@ =~= Seq::<u64>::empty());
        }
        Ok((out, i))
    } else {
        match p_u64(b, i) {
            Ok((x, i2)) => match p_limbs(b, i2, n - 1) {
                Ok((mut rest, i3)) => {
                    let ghost restv = rest@;
                    rest.insert(0, x);
                    proof {
                        assert(rest@ =~= seq![x] + restv);
                    }
                    Ok((rest, i3))
                },
                Err(e) => Err(e),
            },
            Err(e) => Err(e),
        }
    }
}

fn p_word(b: &Vec<u8>, i: usize, bound: u64) -> (r: Result<(ArchivedValue, usize), UnstashError>)
    ensures
        (r matches Ok(v) ==> sp_word(b@, i as int, bound as int) == Some((v.0, v.1 as int))
            && aword_bounded(v.0, bound as int)),
        (r is Err ==> sp_word(b@, i as int, bound as int) is None),
{
    match p_u8(b, i) {
        Ok((t, i2)) => {
            if t == TAG_REF {
                match p_u64(b, i2) {
                    Ok((o, i3)) => {
                        if o < bound {
                            Ok((ArchivedValue::Ref(o), i3))
                        } else {
                            Err(UnstashError::BadReference)
                        }
                    },
                    Err(e) => Err(e),
                }
            } else if t == TAG_NULL || t == TAG_TRUE || t == TAG_FALSE {
                match p_u64(b, i2) {
                    Ok((p, i3)) => {
                        if p <= u32::MAX as u64 {
                            let iv = if t == TAG_NULL {
                                InlineValue::Null
                            } else if t == TAG_TRUE {
                                InlineValue::True
                            } else {
                                InlineValue::False
                            };
                            Ok((ArchivedValue::Inline(iv, PosIdx(p as u32)), i3))
                        } else {
                            Err(UnstashError::BadTag)
                        }
                    },
                    Err(e) => Err(e),
                }
            } else {
                Err(UnstashError::BadTag)
            }
        },
        Err(e) => Err(e),
    }
}

fn p_words(b: &Vec<u8>, i: usize, n: u64, bound: u64) -> (r: Result<
    (Vec<ArchivedValue>, usize),
    UnstashError,
>)
    ensures
        (r matches Ok(v) ==> sp_words(b@, i as int, n as int, bound as int) == Some(
            (v.0@, v.1 as int)) && (forall|k: int| 0 <= k < v.0@.len() ==> aword_bounded(
            #[trigger] v.0@[k], bound as int))),
        (r is Err ==> sp_words(b@, i as int, n as int, bound as int) is None),
    decreases n,
{
    if n == 0 {
        let out: Vec<ArchivedValue> = Vec::new();
        proof {
            assert(out@ =~= Seq::<ArchivedValue>::empty());
        }
        Ok((out, i))
    } else {
        match p_word(b, i, bound) {
            Ok((w, i2)) => match p_words(b, i2, n - 1, bound) {
                Ok((mut rest, i3)) => {
                    let ghost restv = rest@;
                    rest.insert(0, w);
                    proof {
                        assert(rest@ =~= seq![w] + restv);
                    }
                    Ok((rest, i3))
                },
                Err(e) => Err(e),
            },
            Err(e) => Err(e),
        }
    }
}

fn p_entries(b: &Vec<u8>, i: usize, n: u64, bound: u64) -> (r: Result<
    (Vec<(Vec<u8>, ArchivedValue)>, usize),
    UnstashError,
>)
    ensures
        (r matches Ok(v) ==> sp_entries(b@, i as int, n as int, bound as int) == Some(
            (crate::archive::aentries_view(v.0@), v.1 as int)) && (forall|k: int|
            0 <= k < v.0@.len() ==> aword_bounded((#[trigger] v.0@[k]).1, bound as int))),
        (r is Err ==> sp_entries(b@, i as int, n as int, bound as int) is None),
    decreases n,
{
    if n == 0 {
        let out: Vec<(Vec<u8>, ArchivedValue)> = Vec::new();
        proof {
            assert(crate::archive::aentries_view(out@) =~= Seq::<(Seq<u8>,
                ArchivedValue)>::empty());
        }
        Ok((out, i))
    } else {
        match p_u64(b, i) {
            Ok((klen, i2)) => match p_bytes(b, i2, klen) {
                Ok((key, i3)) => match p_word(b, i3, bound) {
                    Ok((w, i4)) => match p_entries(b, i4, n - 1, bound) {
                        Ok((mut rest, i5)) => {
                            let ghost restv = rest@;
                            let ghost keyv = key@;
                            rest.insert(0, (key, w));
                            proof {
                                assert(crate::archive::aentries_view(rest@) =~= seq![
                                    (keyv, w)] + crate::archive::aentries_view(restv));
                                assert(sp_entry(b@, i as int, bound as int) == Some(
                                    ((keyv, w), i4 as int)));
                            }
                            Ok((rest, i5))
                        },
                        Err(e) => Err(e),
                    },
                    Err(e) => Err(e),
                },
                Err(e) => Err(e),
            },
            Err(e) => Err(e),
        }
    }
}

fn p_payload(b: &Vec<u8>, i: usize, bound: u64) -> (r: Result<
    (ArchivedPayload, usize),
    UnstashError,
>)
    ensures
        (r matches Ok(v) ==> sp_payload(b@, i as int, bound as int) == Some(
            (v.0@, v.1 as int)) && apayload_wf(v.0@, bound as int)),
        (r is Err ==> sp_payload(b@, i as int, bound as int) is None),
{
    match p_u8(b, i) {
        Ok((t, i2)) => {
            if t == TAG_NUM {
                match p_u8(b, i2) {
                    Ok((sg, i3)) => {
                        if sg > 1 {
                            return Err(UnstashError::BadNumber);
                        }
                        match p_u64(b, i3) {
                            Ok((nlen, i4)) => match p_limbs(b, i4, nlen) {
                                Ok((num, i5)) => match p_u64(b, i5) {
                                    Ok((dlen, i6)) => match p_limbs(b, i6, dlen) {
                                        Ok((den, i7)) => {
                                            let num_ok = num.len() == 0 || *num.last().unwrap()
                                                != 0;
                                            let den_ok = den.len() > 0 && *den.last().unwrap()
                                                != 0;
                                            let zero_ok = num.len() > 0 || sg == 1;
                                            if num_ok && den_ok && zero_ok {
                                                let ns = NumberStash {
                                                    sign: sg == 1,
                                                    num,
                                                    den,
                                                };
                                                Ok((ArchivedPayload::Num(ns), i7))
                                            } else {
                                                Err(UnstashError::BadNumber)
                                            }
                                        },
                                        Err(e) => Err(e),
                                    },
                                    Err(e) => Err(e),
                                },
                                Err(e) => Err(e),
                            },
                            Err(e) => Err(e),
                        }
                    },
                    Err(e) => Err(e),
                }
            } else if t == TAG_STR {
                match p_u64(b, i2) {
                    Ok((len, i3)) => match p_bytes(b, i3, len) {
                        Ok((bs, i4)) => Ok((ArchivedPayload::Str(bs), i4)),
                        Err(e) => Err(e),
                    },
                    Err(e) => Err(e),
                }
            } else if t == TAG_TERM {
                match p_u64(b, i2) {
                    Ok((len, i3)) => match p_bytes(b, i3, len) {
                        Ok((bs, i4)) => Ok((ArchivedPayload::Term(bs), i4)),
                        Err(e) => Err(e),
                    },
                    Err(e) => Err(e),
                }
            } else if t == TAG_LABEL {
                match p_u64(b, i2) {
                    Ok((len, i3)) => match p_bytes(b, i3, len) {
                        Ok((bs, i4)) => Ok((ArchivedPayload::Label(bs), i4)),
                        Err(e) => Err(e),
                    },
                    Err(e) => Err(e),
                }
            } else if t == TAG_ENUM_VARIANT {
                match p_u64(b, i2) {
                    Ok((len, i3)) => match p_bytes(b, i3, len) {
                        Ok((bs, i4)) => Ok((ArchivedPayload::EnumVariant(bs), i4)),
                        Err(e) => Err(e),
                    },
                    Err(e) => Err(e),
                }
            } else if t == TAG_CUSTOM_CONTRACT {
                match p_u64(b, i2) {
                    Ok((len, i3)) => match p_bytes(b, i3, len) {
                        Ok((bs, i4)) => Ok((ArchivedPayload::CustomContract(bs), i4)),
                        Err(e) => Err(e),
                    },
                    Err(e) => Err(e),
                }
            } else if t == TAG_TYPE {
                match p_u64(b, i2) {
                    Ok((len, i3)) => match p_bytes(b, i3, len) {
                        Ok((bs, i4)) => Ok((ArchivedPayload::Type(bs), i4)),
                        Err(e) => Err(e),
                    },
                    Err(e) => Err(e),
                }
            } else if t == TAG_ARR {
                match p_u64(b, i2) {
                    Ok((len, i3)) => match p_words(b, i3, len, bound) {
                        Ok((ws, i4)) => Ok((ArchivedPayload::Arr(ws), i4)),
                        Err(e) => Err(e),
                    },
                    Err(e) => Err(e),
                }
            } else if t == TAG_REC {
                match p_u64(b, i2) {
                    Ok((len, i3)) => match p_entries(b, i3, len, bound) {
                        Ok((es, i4)) => Ok((ArchivedPayload::Rec(es), i4)),
                        Err(e) => Err(e),
                    },
                    Err(e) => Err(e),
                }
            } else if t == TAG_FOREIGN {
                match p_u64(b, i2) {
                    Ok((x, i3)) => {
                        if x <= u32::MAX as u64 {
                            Ok((ArchivedPayload::Foreign(x as u32), i3))
                        } else {
                            Err(UnstashError::BadTag)
                        }
                    },
                    Err(e) => Err(e),
                }
            } else if t == TAG_SEALING {
                match p_u64(b, i2) {
                    Ok((x, i3)) => Ok((ArchivedPayload::Sealing(x), i3)),
                    Err(e) => Err(e),
                }
            } else {
                Err(UnstashError::BadTag)
            }
        },
        Err(e) => Err(e),
    }
}

fn p_blocks(b: &Vec<u8>, i: usize, k: u64, n: u64) -> (r: Result<
    (Vec<ArchivedBlock>, usize),
    UnstashError,
>)
    requires
        k <= n,
    ensures
        (r matches Ok(v) ==> sp_blocks(b@, i as int, k as int, n as int) == Some(
            (crate::archive::ablocks_view(v.0@), v.1 as int)) && v.0@.len() == n - k && (
        forall|m: int| 0 <= m < v.0@.len() ==> apayload_wf(
            (#[trigger] crate::archive::ablocks_view(v.0@)[m]).payload, k + m))),
        (r is Err ==> sp_blocks(b@, i as int, k as int, n as int) is None),
    decreases n - k,
{
    if k == n {
        let out: Vec<ArchivedBlock> = Vec::new();
        proof {
            assert(crate::archive::ablocks_view(out@) =~= Seq::<ArchivedBlockView>::empty());
        }
        Ok((out, i))
    } else {
        match p_u64(b, i) {
            Ok((pos, i2)) => {
                if pos > u32::MAX as u64 {
                    return Err(UnstashError::BadTag);
                }
                match p_payload(b, i2, k) {
                    Ok((pl, i3)) => {
                        let bk = ArchivedBlock { pos: PosIdx(pos as u32), payload: pl };
                        let ghost bkv = bk@;
                        proof {
                            assert(sp_block(b@, i as int, k as int) == Some(
                                (bkv, i3 as int)));
                        }
                        match p_blocks(b, i3, k + 1, n) {
                            Ok((mut rest, i4)) => {
                                let ghost restv = rest@;
                                rest.insert(0, bk);
                                proof {
                                    assert(crate::archive::ablocks_view(rest@) =~= seq![bkv]
                                        + crate::archive::ablocks_view(restv));
                                }
                                Ok((rest, i4))
                            },
                            Err(e) => Err(e),
                        }
                    },
                    Err(e) => Err(e),
                }
            },
            Err(e) => Err(e),
        }
    }
}

/// Reads a byte blob back into its archived form, validating everything
/// the format promises; the result is well-formed by construction.
pub fn parse_blob(b: &Vec<u8>) -> (r: Result<Archive, UnstashError>)
    ensures
        (r matches Ok(a) ==> parse_archive(b@) == Some(a@) && crate::archive::archive_wf(a@)),
        (r is Err ==> parse_archive(b@) is None),
{
    match p_u64(b, 0) {
        Ok((count, i1)) => match p_blocks(b, i1, 0, count) {
            Ok((bks, i2)) => match p_word(b, i2, count) {
                Ok((root, i3)) => {
                    if i3 == b.len() {
                        let a = Archive { blocks: bks, root };
                        proof {
                            assert(a@.blocks.len() == count as int);
                            assert(crate::archive::archive_wf(a@));
                        }
                        Ok(a)
                    } else {
                        Err(UnstashError::Trailing)
                    }
                },
                Err(e) => Err(e),
            },
            Err(e) => Err(e),
        },
        Err(e) => Err(e),
    }
}

} // verus!
