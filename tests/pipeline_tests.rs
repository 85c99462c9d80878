use p2wsh_utxo::index::{Index, IndexBuilder, UtxoRecord};
use p2wsh_utxo::pipeline::{
    enrich_record, Minimization, OutputBatch, OutputFormat, Pipeline, PositionRecord, BATCH_SIZE,
};
use p2wsh_utxo::utxo::UTXO;

fn rec(txid: &str, vout: u16, height: u32, amount: usize) -> UtxoRecord {
    UtxoRecord { txid: txid.to_string(), vout, height, amount }
}

fn pos(txid: &str, position: u16) -> PositionRecord {
    PositionRecord { txid: txid.to_string(), position }
}

fn build(records: Vec<UtxoRecord>) -> Index {
    let mut b = IndexBuilder::new();
    for r in records {
        b.add(r);
    }
    b.finish()
}

#[test]
fn end_to_end_single_match() {
    let index = build(vec![rec("abc", 2, 100, 5000)]);
    let mut p = Pipeline::new(index, OutputFormat::Json, Minimization::Full);
    let parts = p.feed(&pos("abc", 7));
    assert!(parts.is_empty());
    assert_eq!(p.matched(), 1);
    let last = p.finish();
    assert_eq!(
        last,
        vec![UTXO {
            block_height: 100,
            id: Some("abc".to_string()),
            block_index: 7,
            transaction_index: 2,
            amount: Some(5000),
        }]
    );
}

#[test]
fn lookup_keeps_insertion_order() {
    let index = build(vec![rec("a", 0, 1, 10), rec("b", 5, 2, 20), rec("a", 3, 1, 30)]);
    assert_eq!(index.len(), 3);
    let a = index.lookup("a").unwrap();
    assert_eq!(a, &vec![0usize, 2]);
    assert_eq!(index.record(a[1]).vout, 3);
    assert_eq!(index.lookup("b").unwrap(), &vec![1usize]);
    assert!(index.lookup("c").is_none());
}

#[test]
fn from_records_matches_builder() {
    let index = Index::from_records(vec![rec("x", 1, 5, 6), rec("x", 2, 5, 7)]);
    assert_eq!(index.lookup("x").unwrap(), &vec![0usize, 1]);
}

#[test]
fn miss_yields_nothing() {
    let index = build(vec![rec("abc", 2, 100, 5000)]);
    let mut p = Pipeline::new(index, OutputFormat::Json, Minimization::Full);
    assert!(p.feed(&pos("zzz", 1)).is_empty());
    assert_eq!(p.matched(), 0);
    assert!(p.finish().is_empty());
}

#[test]
fn one_entry_many_outputs() {
    let index = build(vec![rec("t", 0, 9, 1), rec("u", 1, 9, 2), rec("t", 4, 9, 3)]);
    let mut p = Pipeline::new(index, OutputFormat::Bin, Minimization::Full);
    assert!(p.feed(&pos("t", 11)).is_empty());
    let all = p.finish();
    assert_eq!(all.len(), 2);
    assert_eq!(all[0].transaction_index, 0);
    assert_eq!(all[1].transaction_index, 4);
    assert_eq!(all[1].amount, Some(3));
    assert_eq!(all[1].block_index, 11);
}

#[test]
fn minimized_mode_drops_id_and_amount() {
    let index = build(vec![rec("abc", 2, 100, 5000)]);
    let mut p = Pipeline::new(index, OutputFormat::Json, Minimization::Minimized);
    p.feed(&pos("abc", 7));
    let last = p.finish();
    assert_eq!(
        last,
        vec![UTXO { block_height: 100, id: None, block_index: 7, transaction_index: 2, amount: None }]
    );
}

#[test]
fn full_mode_keeps_id_and_amount() {
    let r = enrich_record(&rec("q", 1, 2, 3), 4, Minimization::Full);
    assert_eq!(r.id, Some("q".to_string()));
    assert_eq!(r.amount, Some(3));
}

fn feed_matches(format: OutputFormat, n: usize) -> (Vec<Vec<UTXO>>, Vec<UTXO>) {
    let index = build(vec![rec("abc", 2, 100, 5000)]);
    let mut p = Pipeline::new(index, format, Minimization::Full);
    let mut parts = Vec::new();
    for i in 0..n {
        parts.extend(p.feed(&pos("abc", (i % 60000) as u16)));
    }
    (parts, p.finish())
}

#[test]
fn exactly_one_batch_is_one_part() {
    let (parts, rest) = feed_matches(OutputFormat::Json, 10_000);
    assert_eq!(parts.len(), 1);
    assert_eq!(parts[0].len(), 10_000);
    assert!(rest.is_empty());
}

#[test]
fn one_past_a_batch_is_two_parts() {
    let (parts, rest) = feed_matches(OutputFormat::Json, 10_001);
    assert_eq!(parts.len(), 1);
    assert_eq!(parts[0].len(), 10_000);
    assert_eq!(rest.len(), 1);
    assert_eq!(rest[0].block_index, 10_000);
}

#[test]
fn binary_mode_never_splits() {
    let (parts, rest) = feed_matches(OutputFormat::Bin, 10_001);
    assert!(parts.is_empty());
    assert_eq!(rest.len(), 10_001);
}

#[test]
fn batch_fills_and_flushes() {
    let mut b = OutputBatch::new(2);
    let u = UTXO { block_height: 1, id: None, block_index: 1, transaction_index: 1, amount: None };
    b.append(u.clone());
    assert!(!b.is_full());
    b.append(u.clone());
    assert!(b.is_full());
    assert_eq!(b.flush().len(), 2);
    assert_eq!(b.len(), 0);
    assert_eq!(BATCH_SIZE, 10_000);
}

#[test]
fn mode_and_format_names() {
    assert_eq!(Minimization::from_name("full"), Minimization::Full);
    assert_eq!(Minimization::from_name("min"), Minimization::Minimized);
    assert_eq!(Minimization::from_name("Full"), Minimization::Minimized);
    assert_eq!(OutputFormat::from_name("json"), Some(OutputFormat::Json));
    assert_eq!(OutputFormat::from_name("bin"), Some(OutputFormat::Bin));
    assert_eq!(OutputFormat::from_name("csv"), None);
}
