use vstd::prelude::*;
use std::collections::HashMap;

verus! {

/// One unspent output as read from the snapshot dump.
#[derive(Clone, Debug, PartialEq, Eq)]
pub struct UtxoRecord {
    pub txid: String,
    pub vout: u16,
    pub height: u32,
    pub amount: usize,
}

impl UtxoRecord {
    /// A field-by-field copy of this record.
    pub fn duplicate(&self) -> (r: UtxoRecord)
        ensures
            r == *self,
    {
        UtxoRecord { txid: self.txid.clone(), vout: self.vout, height: self.height, amount: self.amount }
    }
}

/// The positions, in increasing order, of the records whose transaction id
/// is `txid`.
pub open spec fn matching_positions(records: Seq<UtxoRecord>, txid: Seq<char>) -> Seq<usize>
    decreases records.len(),
{
    if records.len() == 0 {
        Seq::empty()
    } else {
        let before = matching_positions(records.drop_last(), txid);
        if records.last().txid@ == txid {
            before.push((records.len() - 1) as usize)
        } else {
            before
        }
    }
}

/// The records whose transaction id is `txid`, in the order they were added.
pub open spec fn records_with_txid(records: Seq<UtxoRecord>, txid: Seq<char>) -> Seq<UtxoRecord> {
    records.filter(|r: UtxoRecord| r.txid@ == txid)
}

/// Looking up a transaction id yields, record for record and in insertion
/// order, exactly the records that carry that id: as many as share it.
pub proof fn lemma_lookup_is_filter(records: Seq<UtxoRecord>, txid: Seq<char>)
    requires
        records.len() <= usize::MAX,
    ensures
        matching_positions(records, txid).map_values(|i: usize| records[i as int])
            == records_with_txid(records, txid),
        matching_positions(records, txid).len() == records_with_txid(records, txid).len(),
        forall|j: int|
            0 <= j < matching_positions(records, txid).len() ==> matching_positions(records, txid)[j]
                < records.len(),
    decreases records.len(),
{
    reveal_with_fuel(Seq::filter, 1);
    if records.len() > 0 {
        let rest = records.drop_last();
        lemma_lookup_is_filter(rest, txid);
        let before = matching_positions(rest, txid);
        assert(before.map_values(|i: usize| rest[i as int]) =~= before.map_values(
            |i: usize| records[i as int],
        ));
        if records.last().txid@ == txid {
            let n = (records.len() - 1) as usize;
            assert(matching_positions(records, txid) == before.push(n));
            assert(matching_positions(records, txid).map_values(|i: usize| records[i as int]).last()
                == records.last());
            assert(matching_positions(records, txid).map_values(|i: usize| records[i as int])
                =~= before.map_values(|i: usize| records[i as int]).push(records.last()));
        }
    }
}

/// A hash table from transaction id to the positions of its records.
#[verifier::external_body]
pub struct TxidTable {
    map: HashMap<String, Vec<usize>>,
}

/// What a `TxidTable` holds: each transaction id with its list of positions.
pub uninterp spec fn txid_table_contents(t: TxidTable) -> Map<Seq<char>, Seq<usize>>;

/// Relies on `HashMap::new`: a new table is empty.
#[verifier::external_body]
fn table_new() -> (r: TxidTable)
    ensures
        txid_table_contents(r) =~= Map::empty(),
{
    TxidTable { map: HashMap::new() }
}

/// Relies on `HashMap::remove`: takes out the list kept under `txid`, if
/// the key is there; other keys keep their lists.
#[verifier::external_body]
fn table_remove(t: &mut TxidTable, txid: &str) -> (r: Option<Vec<usize>>)
    ensures
        match r {
            Some(v) => txid_table_contents(*old(t)).contains_key(txid@) && v@
                == txid_table_contents(*old(t))[txid@],
            None => !txid_table_contents(*old(t)).contains_key(txid@),
        },
        txid_table_contents(*final(t)) == txid_table_contents(*old(t)).remove(txid@),
{
    t.map.remove(txid)
}

/// Relies on `HashMap::insert`: the list is kept under `txid`, in place of
/// any earlier one; other keys keep their lists.
#[verifier::external_body]
fn table_insert(t: &mut TxidTable, txid: String, positions: Vec<usize>)
    ensures
        txid_table_contents(*final(t)) == txid_table_contents(*old(t)).insert(txid@, positions@),
{
    t.map.insert(txid, positions);
}

/// Relies on `HashMap::get`: the list kept under `txid`, if the key is there.
#[verifier::external_body]
fn table_get<'a>(t: &'a TxidTable, txid: &str) -> (r: Option<&'a Vec<usize>>)
    ensures
        match r {
            Some(v) => txid_table_contents(*t).contains_key(txid@) && v@
                == txid_table_contents(*t)[txid@],
            None => !txid_table_contents(*t).contains_key(txid@),
        },
{
    t.map.get(txid)
}

/// Whether `table` lists, for each transaction id of `records`, exactly the
/// positions of its records, and holds no other key.
pub open spec fn table_matches(table: Map<Seq<char>, Seq<usize>>, records: Seq<UtxoRecord>) -> bool {
    forall|k: Seq<char>|
        #![trigger table.contains_key(k)]
        #![trigger matching_positions(records, k)]
        (table.contains_key(k) <==> matching_positions(records, k).len() > 0) && (
        table.contains_key(k) ==> table[k] == matching_positions(records, k))
}

/// Collects the snapshot's records before the join; `finish` turns it into
/// an `Index` that can no longer change.
pub struct IndexBuilder {
    records: Vec<UtxoRecord>,
    table: TxidTable,
}

/// The transaction-id index over the snapshot's records.
pub struct Index {
    records: Vec<UtxoRecord>,
    table: TxidTable,
}

impl IndexBuilder {
    /// The records added so far, in order.
    pub closed spec fn view(&self) -> Seq<UtxoRecord> {
        self.records@
    }

    pub closed spec fn wf(&self) -> bool {
        table_matches(txid_table_contents(self.table), self.records@)
    }

    /// A builder with no records.
    pub fn new() -> (b: IndexBuilder)
        ensures
            b.wf(),
            b@ == Seq::<UtxoRecord>::empty(),
    {
        IndexBuilder { records: Vec::new(), table: table_new() }
    }

    /// Adds one record after those already added.
    pub fn add(&mut self, record: UtxoRecord)
        requires
            old(self).wf(),
            old(self)@.len() < usize::MAX,
        ensures
            final(self).wf(),
            final(self)@ == old(self)@.push(record),
    {
        let position = self.records.len();
        let ghost old_records = self.records@;
        let ghost old_table = txid_table_contents(self.table);
        let mut positions = match table_remove(&mut self.table, record.txid.as_str()) {
            Some(v) => v,
            None => Vec::new(),
        };
        positions.push(position);
        table_insert(&mut self.table, record.txid.clone(), positions);
        let ghost key = record.txid@;
        assert(txid_table_contents(self.table) =~= old_table.insert(
            key,
            if old_table.contains_key(key) {
                old_table[key].push(position)
            } else {
                seq![position]
            },
        ));
        self.records.push(record);
        proof {
            let new_records = self.records@;
            let new_table = txid_table_contents(self.table);
            assert(new_records.drop_last() =~= old_records);
            assert forall|k: Seq<char>|
                #![trigger new_table.contains_key(k)]
                #![trigger matching_positions(new_records, k)]
                (new_table.contains_key(k) <==> matching_positions(new_records, k).len() > 0) && (
                new_table.contains_key(k) ==> new_table[k] == matching_positions(new_records, k))
            by {
                assert(matching_positions(old_records, k).len() > 0 <==> old_table.contains_key(k));
                if k == key {
                    assert(matching_positions(new_records, k) == matching_positions(old_records, k).push(position));
                    if !old_table.contains_key(k) {
                        assert(matching_positions(old_records, k) =~= Seq::<usize>::empty());
                        assert(seq![position] =~= Seq::<usize>::empty().push(position));
                    }
                } else {
                    assert(matching_positions(new_records, k) == matching_positions(old_records, k));
                }
            }
        }
    }

    /// Ends the build: the index holds exactly the records added.
    pub fn finish(self) -> (idx: Index)
        requires
            self.wf(),
        ensures
            idx.wf(),
            idx@ == self@,
    {
        Index { records: self.records, table: self.table }
    }
}

impl Index {
    /// The indexed records, in the order they were added.
    pub closed spec fn view(&self) -> Seq<UtxoRecord> {
        self.records@
    }

    pub closed spec fn wf(&self) -> bool {
        table_matches(txid_table_contents(self.table), self.records@)
    }

    /// Builds the index of `records`, keeping their order.
    pub fn from_records(records: Vec<UtxoRecord>) -> (idx: Index)
        ensures
            idx.wf(),
            idx@ == records@,
    {
        let mut b = IndexBuilder::new();
        let mut i: usize = 0;
        while i < records.len()
            invariant
                b.wf(),
                i <= records@.len(),
                b@ == records@.subrange(0, i as int),
            decreases records@.len() - i,
        {
            b.add(records[i].duplicate());
            i = i + 1;
            assert(b@ =~= records@.subrange(0, i as int));
        }
        assert(b@ =~= records@);
        b.finish()
    }

    /// The number of indexed records.
    pub fn len(&self) -> (n: usize)
        ensures
            n == self@.len(),
    {
        self.records.len()
    }

    /// The record at `position`.
    pub fn record(&self, position: usize) -> (r: &UtxoRecord)
        requires
            position < self@.len(),
        ensures
            *r == self@[position as int],
    {
        &self.records[position]
    }

    /// The positions of the records with transaction id `txid`, in the
    /// order they were added; `None` when there is none.
    pub fn lookup(&self, txid: &str) -> (r: Option<&Vec<usize>>)
        requires
            self.wf(),
        ensures
            match r {
                Some(v) => v@ == matching_positions(self@, txid@) && v@.len() > 0,
                None => matching_positions(self@, txid@).len() == 0,
            },
            self@.len() <= usize::MAX,
    {
        let _n = self.records.len();
        let r = table_get(&self.table, txid);
        proof {
            let t = txid_table_contents(self.table);
            assert(t.contains_key(txid@) <==> matching_positions(self@, txid@).len() > 0);
        }
        r
    }
}

} // verus!
