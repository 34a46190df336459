use retia_core::memcmp::{decode_bytes, encode_bytes};

#[test]
fn encode_decode_bytes() {
    let target = b"Lorem ipsum dolor sit amet, consectetur adipiscing elit...";
    for i in 0..target.len() {
        let bs = &target[i..];
        let mut encoder: Vec<u8> = vec![];
        encode_bytes(&mut encoder, bs);
        let (decoded, remaining) = decode_bytes(&encoder);
        assert!(remaining.is_empty());
        assert_eq!(bs, decoded);

        let mut encoder: Vec<u8> = vec![];
        encode_bytes(&mut encoder, target);
        encode_bytes(&mut encoder, bs);
        encode_bytes(&mut encoder, bs);
        encode_bytes(&mut encoder, target);

        let (decoded, remaining) = decode_bytes(&encoder);
        assert_eq!(&target[..], decoded);

        let (decoded, remaining) = decode_bytes(remaining);
        assert_eq!(bs, decoded);

        let (decoded, remaining) = decode_bytes(remaining);
        assert_eq!(bs, decoded);

        let (decoded, remaining) = decode_bytes(remaining);
        assert_eq!(&target[..], decoded);
        assert!(remaining.is_empty());
    }
}

#[test]
fn encoding_of_short_and_group_sized_keys() {
    let mut out = vec![];
    encode_bytes(&mut out, b"");
    assert_eq!(out, vec![0, 0, 0, 0, 0, 0, 0, 0, 247]);

    let mut out = vec![];
    encode_bytes(&mut out, &[1, 2, 3]);
    assert_eq!(out, vec![1, 2, 3, 0, 0, 0, 0, 0, 250]);

    let mut out = vec![];
    encode_bytes(&mut out, &[1, 2, 3, 4, 5, 6, 7, 8]);
    assert_eq!(
        out,
        vec![1, 2, 3, 4, 5, 6, 7, 8, 255, 0, 0, 0, 0, 0, 0, 0, 0, 247]
    );

    let mut out = vec![9];
    encode_bytes(&mut out, &[1, 2, 3, 4, 5, 6, 7, 8, 9]);
    assert_eq!(
        out,
        vec![9, 1, 2, 3, 4, 5, 6, 7, 8, 255, 9, 0, 0, 0, 0, 0, 0, 0, 248]
    );
}

#[test]
fn decode_leaves_what_follows() {
    let mut out = vec![];
    encode_bytes(&mut out, b"key");
    out.extend_from_slice(&[42, 43]);
    let (decoded, rest) = decode_bytes(&out);
    assert_eq!(decoded, b"key".to_vec());
    assert_eq!(rest, &[42, 43]);
}

#[test]
fn encodings_sort_like_keys() {
    let keys: Vec<Vec<u8>> = vec![
        vec![],
        vec![0],
        vec![0, 0],
        vec![0, 0, 0, 0, 0, 0, 0, 0],
        vec![0, 0, 0, 0, 0, 0, 0, 0, 0],
        vec![1],
        vec![1, 0],
        vec![1, 2, 3, 4, 5, 6, 7],
        vec![1, 2, 3, 4, 5, 6, 7, 8],
        vec![1, 2, 3, 4, 5, 6, 7, 8, 0],
        vec![1, 2, 3, 4, 5, 6, 7, 9],
        vec![2],
        vec![255, 255, 255, 255, 255, 255, 255, 255, 255],
    ];
    let mut sorted_keys = keys.clone();
    sorted_keys.sort();
    let mut encoded: Vec<Vec<u8>> = sorted_keys
        .iter()
        .map(|k| {
            let mut out = vec![];
            encode_bytes(&mut out, k);
            out
        })
        .collect();
    let in_key_order = encoded.clone();
    encoded.sort();
    assert_eq!(encoded, in_key_order);
    for (a, b) in in_key_order.iter().zip(in_key_order.iter().skip(1)) {
        assert!(a < b);
    }
}
