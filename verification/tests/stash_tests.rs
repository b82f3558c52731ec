use value_stash::archive::NickelValueFlavor;
use value_stash::archive::StashError;
use value_stash::number::NumberStash;
use value_stash::number::number_round_trip;
use value_stash::number::rational_to_stash;
use value_stash::stash::round_trip;
use value_stash::stash::round_trip_preserves_sharing;
use value_stash::stash::round_trip_twice;
use value_stash::stash::stash;
use value_stash::stash::unstash;
use value_stash::value::InlineValue;
use value_stash::value::NickelValueRepr;
use value_stash::value::PosIdx;
use value_stash::value::ValueHeap;
use value_stash::value::ValueOwned;
use value_stash::value::ValuePayload;

use malachite::Natural;
use malachite::Rational;

fn number(sign: bool, num: Vec<u64>, den: Vec<u64>) -> NumberStash {
    NumberStash { sign, num, den }
}

fn payload_of<'a>(h: &'a ValueHeap, v: &NickelValueRepr) -> &'a ValuePayload {
    match v {
        NickelValueRepr::Block(i) => match &h.blocks[*i] {
            Some(b) => &b.payload,
            None => panic!("freed block"),
        },
        NickelValueRepr::Inline(_, _) => panic!("inline value has no payload"),
    }
}

#[test]
fn round_trip_null_is_inline() {
    let h = ValueHeap::new();
    let v = NickelValueRepr::Inline(InlineValue::Null, PosIdx(7));
    let blob = stash(&h, &v).unwrap();
    // an inline value needs no block section: count is zero
    assert_eq!(&blob[0..8], &[0u8; 8]);
    assert_eq!(blob.len(), 17);
    let (h2, v2) = unstash(&blob).unwrap();
    assert_eq!(h2.blocks.len(), 0);
    assert_eq!(v2, NickelValueRepr::Inline(InlineValue::Null, PosIdx(7)));
}

#[test]
fn round_trip_booleans() {
    let h = ValueHeap::new();
    for iv in [InlineValue::True, InlineValue::False] {
        let v = NickelValueRepr::Inline(iv, PosIdx(3));
        let blob = stash(&h, &v).unwrap();
        let (_, v2) = unstash(&blob).unwrap();
        assert_eq!(v2, NickelValueRepr::Inline(iv, PosIdx(3)));
    }
}

#[test]
fn round_trip_negative_rational_block() {
    let mut h = ValueHeap::new();
    // -3/7 as a canonical sign-and-limbs triple
    let owned = ValueOwned {
        pos: PosIdx(1),
        payload: ValuePayload::Number(number(false, vec![3], vec![7])),
    };
    let i = h.alloc_block(owned, 1);
    let v = NickelValueRepr::Block(i);
    let blob = stash(&h, &v).unwrap();
    let (h2, v2) = unstash(&blob).unwrap();
    match payload_of(&h2, &v2) {
        ValuePayload::Number(n) => {
            assert!(!n.sign);
            assert_eq!(n.num, vec![3]);
            assert_eq!(n.den, vec![7]);
        }
        _ => panic!("expected a number payload"),
    }
}

#[test]
fn number_codec_round_trips_exactly() {
    let cases = vec![
        Rational::from_signeds(0i64, 1i64),
        Rational::from_signeds(1i64, 1i64),
        Rational::from_signeds(-1i64, 1i64),
        Rational::from_signeds(3i64, 7i64),
        Rational::from_signeds(-3i64, 7i64),
        Rational::from_naturals(
            Natural::from_owned_limbs_asc(vec![1, 2, 3]),
            Natural::from_owned_limbs_asc(vec![5, 6]),
        ),
        Rational::from_sign_and_naturals(
            false,
            Natural::from_owned_limbs_asc(vec![9, 8, 7, 6]),
            Natural::from_owned_limbs_asc(vec![1, u64::MAX]),
        ),
    ];
    for n in cases {
        assert_eq!(number_round_trip(&n), n);
    }
}

#[test]
fn number_encoding_is_canonical() {
    let s = rational_to_stash(&Rational::from_signeds(3i64, 7i64));
    assert!(s.sign);
    assert_eq!(s.num, vec![3]);
    assert_eq!(s.den, vec![7]);
    // reduced before encoding: 4/6 is 2/3
    let s = rational_to_stash(&Rational::from_signeds(-4i64, 6i64));
    assert!(!s.sign);
    assert_eq!(s.num, vec![2]);
    assert_eq!(s.den, vec![3]);
    // zero is non-negative with an empty numerator
    let s = rational_to_stash(&Rational::from_signeds(0i64, 5i64));
    assert!(s.sign);
    assert_eq!(s.num, Vec::<u64>::new());
    assert_eq!(s.den, vec![1]);
}

#[test]
fn concrete_record_scenario() {
    // {a = 3/7, b = [true, null]}
    let mut h = ValueHeap::new();
    let num = h.alloc_block(
        ValueOwned {
            pos: PosIdx(10),
            payload: ValuePayload::Number(number(true, vec![3], vec![7])),
        },
        1,
    );
    let arr = h.alloc_block(
        ValueOwned {
            pos: PosIdx(11),
            payload: ValuePayload::Array(vec![
                NickelValueRepr::Inline(InlineValue::True, PosIdx(12)),
                NickelValueRepr::Inline(InlineValue::Null, PosIdx(13)),
            ]),
        },
        1,
    );
    let rec = h.alloc_block(
        ValueOwned {
            pos: PosIdx(14),
            payload: ValuePayload::Record(vec![
                (b"a".to_vec(), NickelValueRepr::Block(num)),
                (b"b".to_vec(), NickelValueRepr::Block(arr)),
            ]),
        },
        1,
    );
    let v = NickelValueRepr::Block(rec);
    let blob = stash(&h, &v).unwrap();
    let (h2, v2) = unstash(&blob).unwrap();
    let entries = match payload_of(&h2, &v2) {
        ValuePayload::Record(es) => es,
        _ => panic!("expected a record"),
    };
    assert_eq!(entries.len(), 2);
    assert_eq!(entries[0].0, b"a".to_vec());
    assert_eq!(entries[1].0, b"b".to_vec());
    match payload_of(&h2, &entries[0].1) {
        ValuePayload::Number(n) => {
            assert!(n.sign);
            assert_eq!(n.num, vec![3]);
            assert_eq!(n.den, vec![7]);
        }
        _ => panic!("field a should be a number"),
    }
    match payload_of(&h2, &entries[1].1) {
        ValuePayload::Array(ws) => {
            assert_eq!(ws.len(), 2);
            assert_eq!(ws[0], NickelValueRepr::Inline(InlineValue::True, PosIdx(12)));
            assert_eq!(ws[1], NickelValueRepr::Inline(InlineValue::Null, PosIdx(13)));
        }
        _ => panic!("field b should be an array"),
    }
}

#[test]
fn sharing_is_preserved() {
    // a record whose two fields alias one array block
    let mut h = ValueHeap::new();
    let arr = h.alloc_block(
        ValueOwned {
            pos: PosIdx(20),
            payload: ValuePayload::Array(vec![NickelValueRepr::Inline(
                InlineValue::Null,
                PosIdx(21),
            )]),
        },
        1,
    );
    let first = NickelValueRepr::Block(arr);
    let second = h.clone_value(&first);
    assert_eq!(h.ref_count_of(arr), 2);
    let rec = h.alloc_block(
        ValueOwned {
            pos: PosIdx(22),
            payload: ValuePayload::Record(vec![(b"x".to_vec(), first), (b"y".to_vec(), second)]),
        },
        1,
    );
    let v = NickelValueRepr::Block(rec);
    let blob = stash(&h, &v).unwrap();
    let (mut h2, v2) = unstash(&blob).unwrap();
    // exactly one record block and one array block were rebuilt
    assert_eq!(h2.blocks.len(), 2);
    let (ia, ib) = match payload_of(&h2, &v2) {
        ValuePayload::Record(es) => {
            assert_eq!(es.len(), 2);
            match (&es[0].1, &es[1].1) {
                (NickelValueRepr::Block(a), NickelValueRepr::Block(b)) => (*a, *b),
                _ => panic!("both fields should be blocks"),
            }
        }
        _ => panic!("expected a record"),
    };
    // both fields alias the one rebuilt block, owned twice
    assert_eq!(ia, ib);
    assert_eq!(h2.ref_count_of(ia), 2);
    // dropping one extra handle must not free the block while shared
    let extra = h2.clone_value(&NickelValueRepr::Block(ia));
    assert_eq!(h2.ref_count_of(ia), 3);
    h2.drop_value(extra);
    assert_eq!(h2.ref_count_of(ia), 2);
    assert!(h2.blocks[ia].is_some());
}

#[test]
fn drop_of_last_handle_frees() {
    let mut h = ValueHeap::new();
    let i = h.alloc_block(
        ValueOwned { pos: PosIdx(1), payload: ValuePayload::Str(b"hello".to_vec()) },
        1,
    );
    assert_eq!(h.ref_count_of(i), 1);
    h.drop_value(NickelValueRepr::Block(i));
    assert!(h.blocks[i].is_none());
}

#[test]
fn drop_releases_children_recursively() {
    let mut h = ValueHeap::new();
    let child = h.alloc_block(
        ValueOwned { pos: PosIdx(1), payload: ValuePayload::SealingKey(9) },
        1,
    );
    let parent = h.alloc_block(
        ValueOwned {
            pos: PosIdx(2),
            payload: ValuePayload::Array(vec![NickelValueRepr::Block(child)]),
        },
        1,
    );
    // the child's only handle now lives inside the parent
    h.drop_value(NickelValueRepr::Block(parent));
    assert!(h.blocks[parent].is_none());
    assert!(h.blocks[child].is_none());
}

#[test]
fn thunk_payload_is_refused() {
    let mut h = ValueHeap::new();
    let i = h.alloc_block(ValueOwned { pos: PosIdx(1), payload: ValuePayload::Thunk }, 1);
    let r = stash(&h, &NickelValueRepr::Block(i));
    assert_eq!(r.unwrap_err(), StashError::UnsupportedPayload);
}

#[test]
fn foreign_and_sealing_round_trip() {
    let mut h = ValueHeap::new();
    let f = h.alloc_block(
        ValueOwned { pos: PosIdx(1), payload: ValuePayload::ForeignId(42) },
        1,
    );
    let blob = stash(&h, &NickelValueRepr::Block(f)).unwrap();
    let (h2, v2) = unstash(&blob).unwrap();
    match payload_of(&h2, &v2) {
        ValuePayload::ForeignId(x) => assert_eq!(*x, 42),
        _ => panic!("expected a foreign id"),
    }
    let s = h.alloc_block(
        ValueOwned { pos: PosIdx(2), payload: ValuePayload::SealingKey(u64::MAX) },
        1,
    );
    let blob = stash(&h, &NickelValueRepr::Block(s)).unwrap();
    let (h3, v3) = unstash(&blob).unwrap();
    match payload_of(&h3, &v3) {
        ValuePayload::SealingKey(x) => assert_eq!(*x, u64::MAX),
        _ => panic!("expected a sealing key"),
    }
}

#[test]
fn string_payload_round_trip() {
    let mut h = ValueHeap::new();
    let i = h.alloc_block(
        ValueOwned { pos: PosIdx(5), payload: ValuePayload::Str("hello".as_bytes().to_vec()) },
        1,
    );
    let blob = stash(&h, &NickelValueRepr::Block(i)).unwrap();
    let (h2, v2) = unstash(&blob).unwrap();
    match payload_of(&h2, &v2) {
        ValuePayload::Str(bs) => assert_eq!(bs, &"hello".as_bytes().to_vec()),
        _ => panic!("expected a string payload"),
    }
}

#[test]
fn idempotent_archiving() {
    let mut h = ValueHeap::new();
    let i = h.alloc_block(
        ValueOwned {
            pos: PosIdx(1),
            payload: ValuePayload::Array(vec![
                NickelValueRepr::Inline(InlineValue::False, PosIdx(2)),
            ]),
        },
        1,
    );
    let v = NickelValueRepr::Block(i);
    let (h2, v2) = round_trip(&h, &v).unwrap();
    let blob1 = stash(&h, &v).unwrap();
    let blob2 = stash(&h2, &v2).unwrap();
    assert_eq!(blob1, blob2);
    let (h3, v3) = round_trip_twice(&h, &v).unwrap();
    match payload_of(&h3, &v3) {
        ValuePayload::Array(ws) => {
            assert_eq!(ws[0], NickelValueRepr::Inline(InlineValue::False, PosIdx(2)));
        }
        _ => panic!("expected an array"),
    }
}

#[test]
fn truncated_blob_is_rejected() {
    let h = ValueHeap::new();
    let v = NickelValueRepr::Inline(InlineValue::True, PosIdx(0));
    let mut blob = stash(&h, &v).unwrap();
    blob.pop();
    assert!(unstash(&blob).is_err());
}

#[test]
fn flipped_tag_is_rejected() {
    let h = ValueHeap::new();
    let v = NickelValueRepr::Inline(InlineValue::True, PosIdx(0));
    let mut blob = stash(&h, &v).unwrap();
    // the root occurrence starts right after the zero block count
    blob[8] = 99;
    assert!(unstash(&blob).is_err());
}

#[test]
fn zeroed_length_is_rejected() {
    let mut h = ValueHeap::new();
    let i = h.alloc_block(
        ValueOwned {
            pos: PosIdx(0),
            payload: ValuePayload::Array(vec![
                NickelValueRepr::Inline(InlineValue::Null, PosIdx(1)),
                NickelValueRepr::Inline(InlineValue::True, PosIdx(2)),
            ]),
        },
        1,
    );
    let blob = stash(&h, &NickelValueRepr::Block(i)).unwrap();
    // block 0 lies after the count: position (8), tag (1), then its length
    let mut bad = blob.clone();
    for b in bad.iter_mut().skip(17).take(8) {
        *b = 0;
    }
    assert!(unstash(&bad).is_err());
}

#[test]
fn self_reference_is_rejected_as_cycle() {
    assert!(!NickelValueFlavor::allow_cycles());
    // one block whose array payload references itself: ordinal 0 inside block 0
    let mut blob: Vec<u8> = Vec::new();
    blob.extend_from_slice(&1u64.to_le_bytes()); // one block
    blob.extend_from_slice(&0u64.to_le_bytes()); // its position
    blob.push(18); // array payload
    blob.extend_from_slice(&1u64.to_le_bytes()); // one element
    blob.push(3); // a reference ...
    blob.extend_from_slice(&0u64.to_le_bytes()); // ... to block 0 itself
    blob.push(3); // root references block 0
    blob.extend_from_slice(&0u64.to_le_bytes());
    assert!(unstash(&blob).is_err());
}

#[test]
fn empty_blob_is_rejected() {
    let blob: Vec<u8> = Vec::new();
    assert!(unstash(&blob).is_err());
}

#[test]
fn trailing_bytes_are_rejected() {
    let h = ValueHeap::new();
    let v = NickelValueRepr::Inline(InlineValue::Null, PosIdx(0));
    let mut blob = stash(&h, &v).unwrap();
    blob.push(0);
    assert!(unstash(&blob).is_err());
}

#[test]
fn sharing_law_on_concrete_pair() {
    let mut h = ValueHeap::new();
    let shared = h.alloc_block(
        ValueOwned { pos: PosIdx(1), payload: ValuePayload::Str(b"shared".to_vec()) },
        1,
    );
    let first = NickelValueRepr::Block(shared);
    let second = h.clone_value(&first);
    let rec = h.alloc_block(
        ValueOwned {
            pos: PosIdx(2),
            payload: ValuePayload::Record(vec![(b"l".to_vec(), first), (b"r".to_vec(), second)]),
        },
        1,
    );
    let (h2, v2) = round_trip_preserves_sharing(&h, &NickelValueRepr::Block(rec)).unwrap();
    // the heap held exactly the pair, so exactly two blocks come back and
    // the shared one is owned exactly twice
    assert_eq!(h2.blocks.len(), 2);
    match payload_of(&h2, &v2) {
        ValuePayload::Record(es) => match (&es[0].1, &es[1].1) {
            (NickelValueRepr::Block(a), NickelValueRepr::Block(b)) => {
                assert_eq!(a, b);
                assert_eq!(h2.ref_count_of(*a), 2);
            }
            _ => panic!("both fields should be blocks"),
        },
        _ => panic!("expected a record"),
    }
}

#[test]
fn opaque_kind_payloads_round_trip() {
    let kinds: Vec<fn(Vec<u8>) -> ValuePayload> = vec![
        ValuePayload::Term,
        ValuePayload::Label,
        ValuePayload::EnumVariant,
        ValuePayload::CustomContract,
        ValuePayload::Type,
    ];
    for (n, make) in kinds.into_iter().enumerate() {
        let mut h = ValueHeap::new();
        let body = vec![n as u8, 1, 2, 3];
        let i = h.alloc_block(ValueOwned { pos: PosIdx(n as u32), payload: make(body.clone()) }, 1);
        let blob = stash(&h, &NickelValueRepr::Block(i)).unwrap();
        let (h2, v2) = unstash(&blob).unwrap();
        let got = match payload_of(&h2, &v2) {
            ValuePayload::Term(bs) => bs,
            ValuePayload::Label(bs) => bs,
            ValuePayload::EnumVariant(bs) => bs,
            ValuePayload::CustomContract(bs) => bs,
            ValuePayload::Type(bs) => bs,
            _ => panic!("expected an opaque payload"),
        };
        assert_eq!(got, &body);
    }
}
