use p2wsh_utxo::codec::{decode_records, encode_records};
use p2wsh_utxo::utxo::{UTXOResults, UTXO};

fn sample() -> Vec<UTXO> {
    vec![
        UTXO {
            block_height: 691709,
            id: Some("abc".to_string()),
            block_index: 1160,
            transaction_index: 1,
            amount: Some(5000),
        },
        UTXO { block_height: 1, id: None, block_index: 2, transaction_index: 3, amount: None },
        UTXO {
            block_height: u32::MAX,
            id: Some("é€".to_string()),
            block_index: u16::MAX,
            transaction_index: 0,
            amount: Some(usize::MAX),
        },
    ]
}

#[test]
fn binary_round_trip_keeps_optional_fields() {
    let v = sample();
    let bytes = encode_records(&v);
    assert_eq!(decode_records(&bytes), Some(v));
}

#[test]
fn binary_round_trip_of_nothing() {
    let v: Vec<UTXO> = Vec::new();
    let bytes = encode_records(&v);
    assert_eq!(bytes, vec![0u8; 8]);
    assert_eq!(decode_records(&bytes), Some(v));
}

#[test]
fn binary_layout_matches_bincode() {
    let v = sample();
    let tuples: Vec<(u32, Option<String>, u16, u16, Option<usize>)> = v
        .iter()
        .map(|u| (u.block_height, u.id.clone(), u.block_index, u.transaction_index, u.amount))
        .collect();
    assert_eq!(encode_records(&v), bincode::serialize(&tuples).unwrap());
}

#[test]
fn binary_exact_bytes_of_one_record() {
    let v = vec![UTXO {
        block_height: 100,
        id: Some("ab".to_string()),
        block_index: 7,
        transaction_index: 2,
        amount: None,
    }];
    let expected: Vec<u8> = vec![
        1, 0, 0, 0, 0, 0, 0, 0, // count
        100, 0, 0, 0, // height
        1, 2, 0, 0, 0, 0, 0, 0, 0, b'a', b'b', // id
        7, 0, // position
        2, 0, // output index
        0, // no amount
    ];
    assert_eq!(encode_records(&v), expected);
}

#[test]
fn binary_rejects_malformed_input() {
    let bytes = encode_records(&sample());
    assert_eq!(decode_records(&bytes[..bytes.len() - 1]), None);
    let mut extra = bytes.clone();
    extra.push(0);
    assert_eq!(decode_records(&extra), None);
    let mut bad_tag = encode_records(&vec![UTXO {
        block_height: 1,
        id: None,
        block_index: 1,
        transaction_index: 1,
        amount: None,
    }]);
    bad_tag[12] = 2;
    assert_eq!(decode_records(&bad_tag), None);
    let mut bad_utf8 = encode_records(&vec![UTXO {
        block_height: 1,
        id: Some("a".to_string()),
        block_index: 1,
        transaction_index: 1,
        amount: None,
    }]);
    bad_utf8[21] = 0xff;
    assert_eq!(decode_records(&bad_utf8), None);
    assert_eq!(decode_records(&[]), None);
}

#[test]
fn results_from_encoded_artifact() {
    let v = sample();
    let r = UTXOResults::from_bytes(&encode_records(&v)).unwrap();
    assert_eq!(r.results(), v);
    assert!(UTXOResults::from_bytes(&[1, 2, 3]).is_none());
}
