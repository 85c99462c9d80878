use p2wsh_utxo::utxo::{scid_from_parts, UTXOResults, UTXO};

#[test]
fn scid_test() {
    let utxo1 = UTXO {
        id: None,
        block_height: 691709,
        block_index: 1160,
        transaction_index: 1,
        amount: None,
    };

    assert_eq!(760542088613330945, utxo1.scid());
}

#[test]
fn returns_results() {
    let utxo1 = UTXO {
        id: None,
        block_height: 1,
        block_index: 1,
        transaction_index: 0,
        amount: None,
    };

    let results = vec![utxo1.clone()];

    let utxo_results = UTXOResults { results };
    assert_eq!(utxo_results.results()[0], utxo1.clone());
}

#[test]
fn scid_parts_unpack_by_shifts() {
    let s = scid_from_parts(691709, 1160, 1);
    assert_eq!(s >> 40, 691709);
    assert_eq!((s >> 16) & 0xff_ffff, 1160);
    assert_eq!(s & 0xffff, 1);
}

#[test]
fn scid_of_largest_fields() {
    let s = scid_from_parts(0xff_ffff, 0xff_ffff, 0xffff);
    assert_eq!(s, u64::MAX);
    assert_eq!(scid_from_parts(0, 0, 0), 0);
    assert_eq!(scid_from_parts(1, 0, 0), 1u64 << 40);
}

#[test]
fn results_copy_keeps_every_field() {
    let a = UTXO {
        id: Some("ab".to_string()),
        block_height: 7,
        block_index: 3,
        transaction_index: 9,
        amount: Some(42),
    };
    let b = UTXO { id: None, block_height: 8, block_index: 0, transaction_index: 0, amount: None };
    let r = UTXOResults { results: vec![a.clone(), b.clone()] };
    assert_eq!(r.results(), vec![a, b]);
}
