use vstd::prelude::*;
use crate::index::{Index, UtxoRecord, matching_positions};
use crate::utxo::UTXO;

verus! {

/// How many records a textual output part holds.
pub const BATCH_SIZE: usize = 10000;

/// One entry of the block-position dump.
#[derive(Clone, Debug, PartialEq, Eq)]
pub struct PositionRecord {
    pub txid: String,
    pub position: u16,
}

/// Which optional fields an enriched record carries.
#[derive(Clone, Copy, Debug, PartialEq, Eq, Structural)]
pub enum Minimization {
    /// Transaction id and amount are kept.
    Full,
    /// Transaction id and amount are left out.
    Minimized,
}

/// How the output is written.
#[derive(Clone, Copy, Debug, PartialEq, Eq, Structural)]
pub enum OutputFormat {
    /// Pretty-printed parts of at most `BATCH_SIZE` records each.
    Json,
    /// One binary artifact with every record.
    Bin,
}

/// Whether two strings hold the same characters.
fn same_text(a: &str, b: &str) -> (r: bool)
    ensures
        r == (a@ == b@),
{
    let x = a.to_owned();
    let y = b.to_owned();
    x.eq(&y)
}

impl Minimization {
    /// `"full"` keeps every field; any other name minimizes.
    pub fn from_name(name: &str) -> (r: Minimization)
        ensures
            r == Minimization::Full <==> name@ == "full"@,
    {
        if same_text(name, "full") {
            Minimization::Full
        } else {
            Minimization::Minimized
        }
    }
}

impl OutputFormat {
    /// `"json"` or `"bin"`; any other name is refused.
    pub fn from_name(name: &str) -> (r: Option<OutputFormat>)
        ensures
            r == Some(OutputFormat::Json) <==> name@ == "json"@,
            r == Some(OutputFormat::Bin) <==> name@ == "bin"@,
            r is None <==> (name@ != "json"@ && name@ != "bin"@),
    {
        proof {
            reveal_strlit("json");
            reveal_strlit("bin");
            assert("json"@ != "bin"@) by {
                assert("json"@.len() != "bin"@.len());
            }
        }
        if same_text(name, "json") {
            Some(OutputFormat::Json)
        } else if same_text(name, "bin") {
            Some(OutputFormat::Bin)
        } else {
            None
        }
    }
}

/// The enriched record made from one snapshot record and the position of
/// its transaction in the block.
pub open spec fn enrich(record: UtxoRecord, position: u16, mode: Minimization) -> UTXO {
    UTXO {
        block_height: record.height,
        id: if mode == Minimization::Full { Some(record.txid) } else { None },
        block_index: position,
        transaction_index: record.vout,
        amount: if mode == Minimization::Full { Some(record.amount) } else { None },
    }
}

/// The records a position entry yields against the index's records: one
/// per snapshot record with the same transaction id, in insertion order.
pub open spec fn produced(
    records: Seq<UtxoRecord>,
    txid: Seq<char>,
    position: u16,
    mode: Minimization,
) -> Seq<UTXO> {
    matching_positions(records, txid).map_values(
        |i: usize| enrich(records[i as int], position, mode),
    )
}

/// The records of a list of output parts, one part after the other.
pub open spec fn concat(parts: Seq<Vec<UTXO>>) -> Seq<UTXO>
    decreases parts.len(),
{
    if parts.len() == 0 {
        Seq::empty()
    } else {
        concat(parts.drop_last()) + parts.last()@
    }
}

/// A count that stops at `u64::MAX`.
pub open spec fn capped(n: nat) -> u64 {
    if n > u64::MAX { u64::MAX } else { n as u64 }
}

/// Builds the enriched record for `record` at `position`.
pub fn enrich_record(record: &UtxoRecord, position: u16, mode: Minimization) -> (r: UTXO)
    ensures
        r == enrich(*record, position, mode),
{
    let full = match mode {
        Minimization::Full => true,
        Minimization::Minimized => false,
    };
    UTXO {
        block_height: record.height,
        id: if full { Some(record.txid.clone()) } else { None },
        block_index: position,
        transaction_index: record.vout,
        amount: if full { Some(record.amount) } else { None },
    }
}

/// A position entry whose transaction id is not in the index yields no
/// record.
pub proof fn lemma_miss_yields_nothing(
    records: Seq<UtxoRecord>,
    txid: Seq<char>,
    position: u16,
    mode: Minimization,
)
    requires
        forall|i: int| 0 <= i < records.len() ==> records[i].txid@ != txid,
    ensures
        produced(records, txid, position, mode) == Seq::<UTXO>::empty(),
    decreases records.len(),
{
    if records.len() > 0 {
        lemma_miss_yields_nothing(records.drop_last(), txid, position, mode);
    }
    assert(produced(records, txid, position, mode) =~= Seq::<UTXO>::empty());
}

/// In full mode every yielded record has its transaction id and amount;
/// otherwise none has either.
pub proof fn lemma_minimization(
    records: Seq<UtxoRecord>,
    txid: Seq<char>,
    position: u16,
    mode: Minimization,
)
    ensures
        forall|j: int|
            #![trigger produced(records, txid, position, mode)[j]]
            0 <= j < produced(records, txid, position, mode).len() ==> if mode
                == Minimization::Full {
                produced(records, txid, position, mode)[j].id is Some && produced(
                    records,
                    txid,
                    position,
                    mode,
                )[j].amount is Some
            } else {
                produced(records, txid, position, mode)[j].id is None && produced(
                    records,
                    txid,
                    position,
                    mode,
                )[j].amount is None
            },
{
}

/// A bounded buffer of enriched records: filled by `append`, emptied by
/// `flush` once it holds `bound` records.
pub struct OutputBatch {
    records: Vec<UTXO>,
    bound: usize,
}

impl OutputBatch {
    /// The buffered records, oldest first.
    pub closed spec fn view(&self) -> Seq<UTXO> {
        self.records@
    }

    /// How many records make the batch full.
    pub closed spec fn bound(&self) -> nat {
        self.bound as nat
    }

    /// An empty batch that is full at `bound` records.
    pub fn new(bound: usize) -> (b: OutputBatch)
        ensures
            b@ == Seq::<UTXO>::empty(),
            b.bound() == bound,
    {
        OutputBatch { records: Vec::new(), bound }
    }

    /// The number of buffered records.
    pub fn len(&self) -> (n: usize)
        ensures
            n == self@.len(),
    {
        self.records.len()
    }

    /// Whether the batch has reached its bound.
    pub fn is_full(&self) -> (r: bool)
        ensures
            r == (self@.len() >= self.bound()),
    {
        self.records.len() >= self.bound
    }

    /// Adds a record after those buffered.
    pub fn append(&mut self, record: UTXO)
        ensures
            final(self)@ == old(self)@.push(record),
            final(self).bound() == old(self).bound(),
    {
        self.records.push(record);
    }

    /// Hands out the buffered records and leaves the batch empty.
    pub fn flush(&mut self) -> (r: Vec<UTXO>)
        ensures
            r@ == old(self)@,
            final(self)@ == Seq::<UTXO>::empty(),
            final(self).bound() == old(self).bound(),
    {
        let mut taken: Vec<UTXO> = Vec::new();
        std::mem::swap(&mut taken, &mut self.records);
        taken
    }
}

/// The join of a position dump against a built index: it turns each
/// position entry into enriched records and hands out full parts.
pub struct Pipeline {
    index: Index,
    mode: Minimization,
    format: OutputFormat,
    batch: OutputBatch,
    matched: u64,
    emitted: Ghost<Seq<UTXO>>,
    flushed: Ghost<Seq<UTXO>>,
}

impl Pipeline {
    /// The records of the index being joined against.
    pub closed spec fn records(&self) -> Seq<UtxoRecord> {
        self.index@
    }

    pub closed spec fn mode(&self) -> Minimization {
        self.mode
    }

    pub closed spec fn format(&self) -> OutputFormat {
        self.format
    }

    /// Every record yielded so far, in order.
    pub closed spec fn emitted(&self) -> Seq<UTXO> {
        self.emitted@
    }

    /// The records already handed out in full parts, in order.
    pub closed spec fn flushed(&self) -> Seq<UTXO> {
        self.flushed@
    }

    /// The records yielded and not yet handed out.
    pub closed spec fn pending(&self) -> Seq<UTXO> {
        self.batch@
    }

    pub closed spec fn wf(&self) -> bool {
        &&& self.index.wf()
        &&& self.batch.bound() == BATCH_SIZE
        &&& self.flushed@ + self.batch@ == self.emitted@
        &&& self.matched == capped(self.emitted@.len())
        &&& self.format == OutputFormat::Json ==> self.batch@.len() < BATCH_SIZE
        &&& self.format == OutputFormat::Bin ==> self.flushed@ == Seq::<UTXO>::empty()
    }

    /// A join against `index` that has yielded nothing yet.
    pub fn new(index: Index, format: OutputFormat, mode: Minimization) -> (p: Pipeline)
        requires
            index.wf(),
        ensures
            p.wf(),
            p.records() == index@,
            p.format() == format,
            p.mode() == mode,
            p.emitted() == Seq::<UTXO>::empty(),
            p.flushed() == Seq::<UTXO>::empty(),
    {
        let p = Pipeline {
            index,
            mode,
            format,
            batch: OutputBatch::new(BATCH_SIZE),
            matched: 0,
            emitted: Ghost(Seq::empty()),
            flushed: Ghost(Seq::empty()),
        };
        assert(p.flushed@ + p.batch@ =~= p.emitted@);
        p
    }

    /// How many records have been yielded, stopping at `u64::MAX`.
    pub fn matched(&self) -> (n: u64)
        requires
            self.wf(),
        ensures
            n == capped(self.emitted().len()),
    {
        self.matched
    }

    /// Joins one position entry: appends one enriched record per snapshot
    /// record of its transaction, and hands out each part that became full
    /// (textual output only).
    pub fn feed(&mut self, entry: &PositionRecord) -> (parts: Vec<Vec<UTXO>>)
        requires
            old(self).wf(),
        ensures
            final(self).wf(),
            final(self).records() == old(self).records(),
            final(self).mode() == old(self).mode(),
            final(self).format() == old(self).format(),
            final(self).emitted() == old(self).emitted() + produced(
                old(self).records(),
                entry.txid@,
                entry.position,
                old(self).mode(),
            ),
            final(self).flushed() == old(self).flushed() + concat(parts@),
            final(self).flushed() + final(self).pending() == final(self).emitted(),
            final(self).format() == OutputFormat::Json ==> final(self).pending().len() < BATCH_SIZE,
            final(self).format() == OutputFormat::Bin ==> final(self).pending()
                == final(self).emitted(),
            forall|i: int| 0 <= i < parts@.len() ==> (#[trigger] parts@[i])@.len() == BATCH_SIZE,
            old(self).format() == OutputFormat::Bin ==> parts@.len() == 0,
    {
        let mut parts: Vec<Vec<UTXO>> = Vec::new();
        let ghost all = produced(self.index@, entry.txid@, entry.position, self.mode);
        let ghost batch0 = self.batch@;
        let ghost emitted0 = self.emitted@;
        let ghost flushed0 = self.flushed@;
        let ghost index0 = self.index@;
        let ghost mode0 = self.mode;
        let ghost format0 = self.format;
        match self.index.lookup(entry.txid.as_str()) {
            None => {
                assert(all =~= Seq::<UTXO>::empty());
                assert(concat(parts@) =~= Seq::<UTXO>::empty());
                assert(self.emitted@ + all =~= self.emitted@);
                assert(self.flushed@ + concat(parts@) =~= self.flushed@);
            },
            Some(positions) => {
                proof {
                    crate::index::lemma_lookup_is_filter(self.index@, entry.txid@);
                }
                let mut j: usize = 0;
                while j < positions.len()
                    invariant
                        self.index.wf(),
                        self.index@ == index0,
                        self.mode == mode0,
                        self.format == format0,
                        positions@ == matching_positions(self.index@, entry.txid@),
                        all == produced(self.index@, entry.txid@, entry.position, self.mode),
                        forall|k: int|
                            0 <= k < positions@.len() ==> positions@[k] < self.index@.len(),
                        j <= positions@.len(),
                        self.batch.bound() == BATCH_SIZE,
                        concat(parts@) + self.batch@ == batch0 + all.subrange(0, j as int),
                        forall|i: int|
                            0 <= i < parts@.len() ==> (#[trigger] parts@[i])@.len() == BATCH_SIZE,
                        self.format == OutputFormat::Json ==> self.batch@.len() < BATCH_SIZE,
                        self.format == OutputFormat::Bin ==> parts@.len() == 0,
                        self.matched == capped((emitted0.len() + j) as nat),
                    decreases positions@.len() - j,
                {
                    let record = self.index.record(positions[j]);
                    let e = enrich_record(record, entry.position, self.mode);
                    let ghost before = concat(parts@) + self.batch@;
                    self.batch.append(e);
                    self.matched = self.matched.saturating_add(1);
                    assert(all[j as int] == e);
                    assert(batch0 + all.subrange(0, j + 1) =~= (batch0 + all.subrange(0, j as int)).push(e));
                    if self.format == OutputFormat::Json && self.batch.is_full() {
                        let part = self.batch.flush();
                        let ghost parts_before = parts@;
                        parts.push(part);
                        assert(parts@.drop_last() =~= parts_before);
                        assert(concat(parts@) + self.batch@ =~= concat(parts_before) + part@);
                    }
                    j = j + 1;
                }
                assert(all.subrange(0, j as int) =~= all);
            },
        }
        proof {
            self.emitted@ = emitted0 + all;
            self.flushed@ = flushed0 + concat(parts@);
            assert(self.flushed@ + self.batch@ =~= flushed0 + (concat(parts@) + self.batch@));
            if self.format == OutputFormat::Bin {
                assert(concat(parts@) =~= Seq::<UTXO>::empty());
                assert(self.flushed@ =~= flushed0);
            }
            assert(flushed0 + batch0 == emitted0);
            assert(concat(parts@) + self.batch@ == batch0 + all);
            assert(self.flushed@ + self.batch@ =~= flushed0 + batch0 + all);
        }
        parts
    }

    /// Ends the join and hands out what is left: for textual output the
    /// last part (possibly empty), for binary output every record yielded.
    pub fn finish(self) -> (rest: Vec<UTXO>)
        requires
            self.wf(),
        ensures
            self.flushed() + rest@ == self.emitted(),
            self.format() == OutputFormat::Bin ==> rest@ == self.emitted(),
            self.format() == OutputFormat::Json ==> rest@.len() < BATCH_SIZE,
    {
        let mut batch = self.batch;
        batch.flush()
    }
}

} // verus!
