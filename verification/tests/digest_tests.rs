use digest_codec::digest::Digest;
use digest_codec::item::{DigestItem, DigestItemRef, SealSignature, SEAL_SIGNATURE_LEN};
use digest_codec::text::to_hex_string;

fn round_trip(item: DigestItem) {
    let e = item.encode();
    let (decoded, consumed) = DigestItem::decode_at(&e, 0).expect("an encoded item decodes");
    assert_eq!(decoded, item);
    assert_eq!(consumed, e.len());
}

#[test]
fn should_serialize_digest() {
    let digest = Digest {
        logs: vec![
            DigestItem::AuthoritiesChange(vec![1]),
            DigestItem::ChangesTrieRoot(4),
            DigestItem::Other(vec![1, 2, 3]),
            DigestItem::Seal(Default::default(), SealSignature::default()),
        ],
    };

    assert_eq!(
        digest.to_json_string(),
        "{\"logs\":[\"0x010401000000\",\"0x0204000000\",\"0x000c010203\",\"0x050000000000000000000000000000000000000000000000000000000000000000000000000000000000000000000000000000000000000000000000000000000000000000\"]}",
    );
}

#[test]
fn round_trip_every_variant() {
    round_trip(DigestItem::AuthoritiesChange(vec![]));
    round_trip(DigestItem::AuthoritiesChange(vec![1, 2, 3, 0xFFFF_FFFF]));
    round_trip(DigestItem::ChangesTrieRoot(0));
    round_trip(DigestItem::ChangesTrieRoot(0xDEAD_BEEF));
    round_trip(DigestItem::Consensus(*b"aura", vec![9, 8, 7]));
    round_trip(DigestItem::Consensus([0, 1, 2, 3], vec![]));
    let mut sig = SealSignature::default();
    sig.bytes[0] = 0x11;
    sig.bytes[63] = 0x99;
    round_trip(DigestItem::Seal(*b"babe", sig));
    round_trip(DigestItem::PreRuntime(*b"slot", vec![42]));
    round_trip(DigestItem::Other(vec![]));
    round_trip(DigestItem::Other(vec![1, 2, 3]));
}

#[test]
fn round_trip_longer_payloads() {
    // two-byte compact length prefix
    round_trip(DigestItem::Other(vec![0xAB; 64]));
    round_trip(DigestItem::AuthoritiesChange((0..100u32).collect()));
    // four-byte compact length prefix
    round_trip(DigestItem::Other(vec![0xCD; 0x4000]));
}

#[test]
fn encoding_begins_with_variant_tag() {
    assert_eq!(DigestItem::Other(vec![5]).encode()[0], 0);
    assert_eq!(DigestItem::AuthoritiesChange(vec![1]).encode()[0], 1);
    assert_eq!(DigestItem::ChangesTrieRoot(7).encode()[0], 2);
    assert_eq!(DigestItem::Consensus(*b"test", vec![]).encode()[0], 4);
    assert_eq!(DigestItem::Seal(*b"test", SealSignature::default()).encode()[0], 5);
    assert_eq!(DigestItem::PreRuntime(*b"test", vec![]).encode()[0], 6);
}

#[test]
fn unknown_tags_are_rejected() {
    // the reserved tag 3, regardless of trailing bytes
    assert!(DigestItem::decode_at(&vec![3], 0).is_none());
    assert!(DigestItem::decode_at(&vec![3, 0, 0, 0, 0], 0).is_none());
    assert!(DigestItem::decode_at(&vec![3, 4, 1, 2, 3, 4], 0).is_none());
    // tags past the assigned range
    assert!(DigestItem::decode_at(&vec![7, 0], 0).is_none());
    assert!(DigestItem::decode_at(&vec![255, 1, 2, 3], 0).is_none());
}

#[test]
fn truncated_encodings_are_rejected() {
    let items = vec![
        DigestItem::AuthoritiesChange(vec![1, 2]),
        DigestItem::ChangesTrieRoot(4),
        DigestItem::Consensus(*b"aura", vec![1]),
        DigestItem::Seal(*b"babe", SealSignature::default()),
        DigestItem::PreRuntime(*b"slot", vec![2, 3]),
        DigestItem::Other(vec![1, 2, 3]),
    ];
    for item in items {
        let mut e = item.encode();
        e.pop();
        assert!(DigestItem::decode_at(&e, 0).is_none());
    }
}

#[test]
fn malformed_payloads_are_rejected() {
    // nothing at all
    assert!(DigestItem::decode_at(&vec![], 0).is_none());
    // tag only, payload missing
    assert!(DigestItem::decode_at(&vec![0], 0).is_none());
    assert!(DigestItem::decode_at(&vec![1], 0).is_none());
    assert!(DigestItem::decode_at(&vec![2], 0).is_none());
    // length prefix promising more bytes than remain
    assert!(DigestItem::decode_at(&vec![0, 16], 0).is_none());
    // authority count promising more entries than remain
    assert!(DigestItem::decode_at(&vec![1, 8, 1, 0, 0, 0], 0).is_none());
}

#[test]
fn trailing_bytes_are_left_unconsumed() {
    let item = DigestItem::Other(vec![9]);
    let mut e = item.encode();
    let own_len = e.len();
    e.push(0xFF);
    let (decoded, consumed) = DigestItem::decode_at(&e, 0).expect("decodes");
    assert_eq!(decoded, item);
    assert_eq!(consumed, own_len);
}

#[test]
fn container_preserves_push_order_and_pops_lifo() {
    let a = DigestItem::ChangesTrieRoot(1);
    let b = DigestItem::Other(vec![2]);
    let c = DigestItem::AuthoritiesChange(vec![3]);
    let mut digest = Digest::default();
    assert_eq!(digest.logs().len(), 0);
    digest.push(a.clone());
    digest.push(b.clone());
    digest.push(c.clone());
    assert_eq!(digest.logs(), &[a.clone(), b.clone(), c.clone()][..]);
    assert_eq!(digest.pop(), Some(c));
    assert_eq!(digest.pop(), Some(b));
    assert_eq!(digest.pop(), Some(a));
    assert_eq!(digest.pop(), None);
    assert_eq!(digest.logs().len(), 0);
}

#[test]
fn container_codec_round_trip() {
    let digest = Digest {
        logs: vec![
            DigestItem::AuthoritiesChange(vec![1]),
            DigestItem::ChangesTrieRoot(4),
            DigestItem::Other(vec![1, 2, 3]),
            DigestItem::Seal(Default::default(), SealSignature::default()),
        ],
    };
    let e = digest.encode();
    let (decoded, consumed) = Digest::decode_at(&e, 0).expect("an encoded digest decodes");
    assert_eq!(decoded, digest);
    assert_eq!(consumed, e.len());

    let empty = Digest::default();
    let e = empty.encode();
    assert_eq!(e, vec![0]);
    let (decoded, consumed) = Digest::decode_at(&e, 0).expect("the empty digest decodes");
    assert_eq!(decoded, empty);
    assert_eq!(consumed, 1);
}

#[test]
fn container_decode_rejects_missing_items() {
    // count of two, but only one item follows
    let one = DigestItem::ChangesTrieRoot(9).encode();
    let mut buf = vec![8u8]; // compact encoding of a count of two
    buf.extend_from_slice(&one);
    assert!(Digest::decode_at(&buf, 0).is_none());
}

#[test]
fn accessors_match_only_their_variant() {
    let other = DigestItem::Other(vec![1, 2, 3]);
    assert_eq!(other.as_other(), Some(&vec![1, 2, 3]));
    assert_eq!(other.as_authorities_change(), None);
    assert_eq!(other.as_changes_trie_root(), None);
    assert_eq!(other.as_pre_runtime(), None);

    let auth = DigestItem::AuthoritiesChange(vec![4, 5]);
    assert_eq!(auth.as_authorities_change(), Some(&[4u32, 5][..]));
    assert_eq!(auth.as_other(), None);
    assert_eq!(auth.as_changes_trie_root(), None);
    assert_eq!(auth.as_pre_runtime(), None);

    let root = DigestItem::ChangesTrieRoot(77);
    assert_eq!(root.as_changes_trie_root(), Some(&77));
    assert_eq!(root.as_other(), None);
    assert_eq!(root.as_authorities_change(), None);
    assert_eq!(root.as_pre_runtime(), None);

    let pre = DigestItem::PreRuntime(*b"slot", vec![8]);
    assert_eq!(pre.as_pre_runtime(), Some((*b"slot", &[8u8][..])));
    assert_eq!(pre.as_other(), None);
    assert_eq!(pre.as_authorities_change(), None);
    assert_eq!(pre.as_changes_trie_root(), None);

    let seal = DigestItem::Seal(*b"babe", SealSignature::default());
    assert_eq!(seal.as_other(), None);
    assert_eq!(seal.as_authorities_change(), None);
    assert_eq!(seal.as_changes_trie_root(), None);
    assert_eq!(seal.as_pre_runtime(), None);

    let cons = DigestItem::Consensus(*b"aura", vec![6]);
    assert_eq!(cons.as_other(), None);
    assert_eq!(cons.as_authorities_change(), None);
    assert_eq!(cons.as_changes_trie_root(), None);
    assert_eq!(cons.as_pre_runtime(), None);
}

#[test]
fn reference_accessors_match_only_their_variant() {
    let authorities = vec![1u32, 2];
    let r = DigestItemRef::AuthoritiesChange(&authorities);
    assert_eq!(r.as_authorities_change(), Some(&[1u32, 2][..]));
    assert_eq!(r.as_changes_trie_root(), None);
    assert_eq!(r.as_pre_runtime(), None);

    let hash = 5u32;
    let r = DigestItemRef::ChangesTrieRoot(&hash);
    assert_eq!(r.as_changes_trie_root(), Some(&5));
    assert_eq!(r.as_authorities_change(), None);
    assert_eq!(r.as_pre_runtime(), None);

    let id = *b"slot";
    let data = vec![7u8, 8];
    let r = DigestItemRef::PreRuntime(&id, &data);
    assert_eq!(r.as_pre_runtime(), Some((*b"slot", &[7u8, 8][..])));
    assert_eq!(r.as_authorities_change(), None);
    assert_eq!(r.as_changes_trie_root(), None);
}

#[test]
fn reference_encoding_equals_owned_encoding() {
    let authorities = vec![1u32];
    assert_eq!(
        DigestItemRef::AuthoritiesChange(&authorities).encode(),
        DigestItem::AuthoritiesChange(authorities.clone()).encode(),
    );
    let id = *b"aura";
    let data = vec![1u8, 2];
    assert_eq!(
        DigestItemRef::Consensus(&id, &data).encode(),
        DigestItem::Consensus(id, data.clone()).encode(),
    );
}

#[test]
fn fixture_items_have_exact_hex_forms() {
    assert_eq!(DigestItem::AuthoritiesChange(vec![1]).to_hex(), "0x010401000000");
    assert_eq!(DigestItem::ChangesTrieRoot(4).to_hex(), "0x0204000000");
    assert_eq!(DigestItem::Other(vec![1, 2, 3]).to_hex(), "0x000c010203");
    let seal_hex = DigestItem::Seal(Default::default(), SealSignature::default()).to_hex();
    assert_eq!(seal_hex.len(), 2 + 2 * (1 + 4 + SEAL_SIGNATURE_LEN));
    assert!(seal_hex.starts_with("0x05"));
    assert!(seal_hex[4..].chars().all(|c| c == '0'));
}

#[test]
fn hex_form_is_prefixed_lower_case() {
    assert_eq!(to_hex_string(&vec![]), "0x");
    assert_eq!(to_hex_string(&vec![0x00]), "0x00");
    assert_eq!(to_hex_string(&vec![0xAB, 0x01, 0xFF]), "0xab01ff");
}

#[test]
fn default_signature_is_zero_filled() {
    let sig = SealSignature::default();
    assert_eq!(sig.bytes.len(), SEAL_SIGNATURE_LEN);
    assert!(sig.bytes.iter().all(|b| *b == 0));
}

#[test]
fn well_formedness_check_follows_the_length_limits() {
    assert!(DigestItem::Other(vec![1]).check_wf());
    assert!(DigestItem::Seal(*b"babe", SealSignature::default()).check_wf());
    let short = SealSignature { bytes: vec![0; 10] };
    assert!(!DigestItem::Seal(*b"babe", short).check_wf());
}

#[test]
fn decode_works_at_an_offset() {
    let item = DigestItem::PreRuntime(*b"alep", vec![1, 2]);
    let mut buf = vec![0xEE, 0xEE, 0xEE];
    buf.extend_from_slice(&item.encode());
    let (decoded, consumed) = DigestItem::decode_at(&buf, 3).expect("decodes at offset");
    assert_eq!(decoded, item);
    assert_eq!(consumed, buf.len());
}

#[test]
fn truncated_container_encoding_is_rejected() {
    let digest = Digest {
        logs: vec![
            DigestItem::ChangesTrieRoot(1),
            DigestItem::Other(vec![5, 6]),
        ],
    };
    let mut e = digest.encode();
    e.pop();
    assert!(Digest::decode_at(&e, 0).is_none());
}

#[test]
fn one_byte_length_prefix_boundary() {
    round_trip(DigestItem::Other(vec![0x5A; 63]));
    let e = DigestItem::Other(vec![0x5A; 63]).encode();
    // tag, one compact byte, then the payload
    assert_eq!(e.len(), 1 + 1 + 63);
    let e = DigestItem::Other(vec![0x5A; 64]).encode();
    assert_eq!(e.len(), 1 + 2 + 64);
}
