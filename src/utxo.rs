use vstd::prelude::*;
use crate::codec::{decode_records, decoded_records, enc_records, records_fit};

verus! {

/// Maximum vout index that can be used in a `short_channel_id`. This
/// value is based on the 2-bytes available for the vout index.
pub const MAX_SCID_VOUT_INDEX: u64 = 0xffff;

/// Packs a block height, a position in the block and an output index into
/// one 64-bit locator: height in the top bits, position in the next 24 bits,
/// output index in the low 16 bits.
pub open spec fn scid_spec(block: u64, tx_index: u64, vout_index: u64) -> u64 {
    (block << 40u64) | (tx_index << 16u64) | vout_index
}

/// The block height read back out of a locator.
pub open spec fn scid_block(scid: u64) -> u64 {
    scid >> 40u64
}

/// The in-block position read back out of a locator.
pub open spec fn scid_tx_index(scid: u64) -> u64 {
    (scid >> 16u64) & 0xff_ffffu64
}

/// The output index read back out of a locator.
pub open spec fn scid_vout(scid: u64) -> u64 {
    scid & 0xffffu64
}

/// Whether the three parts fit their fields of the locator.
pub open spec fn scid_parts_fit(block: u64, tx_index: u64, vout_index: u64) -> bool {
    block < 0x100_0000 && tx_index < 0x100_0000 && vout_index <= MAX_SCID_VOUT_INDEX
}

/// Packing parts that fit their fields and reading them back by shifts and
/// masks gives back each part unchanged.
pub proof fn lemma_scid_round_trip(block: u64, tx_index: u64, vout_index: u64)
    requires
        scid_parts_fit(block, tx_index, vout_index),
    ensures
        scid_block(scid_spec(block, tx_index, vout_index)) == block,
        scid_tx_index(scid_spec(block, tx_index, vout_index)) == tx_index,
        scid_vout(scid_spec(block, tx_index, vout_index)) == vout_index,
{
    assert(((block << 40u64) | (tx_index << 16u64) | vout_index) >> 40u64 == block) by (bit_vector)
        requires
            block < 0x100_0000u64,
            tx_index < 0x100_0000u64,
            vout_index <= 0xffffu64,
    ;
    assert((((block << 40u64) | (tx_index << 16u64) | vout_index) >> 16u64) & 0xff_ffffu64
        == tx_index) by (bit_vector)
        requires
            block < 0x100_0000u64,
            tx_index < 0x100_0000u64,
            vout_index <= 0xffffu64,
    ;
    assert(((block << 40u64) | (tx_index << 16u64) | vout_index) & 0xffffu64 == vout_index)
        by (bit_vector)
        requires
            block < 0x100_0000u64,
            tx_index < 0x100_0000u64,
            vout_index <= 0xffffu64,
    ;
}

/// Parts that fit their fields pack to the plain sum
/// `block * 2^40 + tx_index * 2^16 + vout_index`.
pub proof fn lemma_scid_value(block: u64, tx_index: u64, vout_index: u64)
    requires
        scid_parts_fit(block, tx_index, vout_index),
    ensures
        scid_spec(block, tx_index, vout_index) as int == block as int * 0x100_0000_0000
            + tx_index as int * 0x1_0000 + vout_index as int,
{
    assert(((block << 40u64) | (tx_index << 16u64) | vout_index) == block * 0x100_0000_0000u64
        + tx_index * 0x1_0000u64 + vout_index) by (bit_vector)
        requires
            block < 0x100_0000u64,
            tx_index < 0x100_0000u64,
            vout_index <= 0xffffu64,
    ;
    assert(block * 0x100_0000_0000 + tx_index * 0x1_0000 + vout_index < 0x1_0000_0000_0000_0000)
        by (nonlinear_arith)
        requires
            block < 0x100_0000,
            tx_index < 0x100_0000,
            vout_index <= 0xffff,
    ;
}

/// Packs the three parts of a short channel id into one integer.
pub fn scid_from_parts(block: u64, tx_index: u64, vout_index: u64) -> (r: u64)
    ensures
        r == scid_spec(block, tx_index, vout_index),
{
    (block << 40u64) | (tx_index << 16u64) | vout_index
}

/// UTXO represents an Unspent transaction Output.
/// `id` or `amount` might not be filled in if the
/// results were generated with minimized data.
#[derive(Clone, Debug, PartialEq, Eq)]
pub struct UTXO {
    pub block_height: u32,
    pub id: Option<String>,
    pub block_index: u16,
    pub transaction_index: u16,
    pub amount: Option<usize>,
}

/// The value of a `UTXO`, with the transaction id as its characters.
pub struct UtxoView {
    pub block_height: u32,
    pub id: Option<Seq<char>>,
    pub block_index: u16,
    pub transaction_index: u16,
    pub amount: Option<usize>,
}

impl View for UTXO {
    type V = UtxoView;

    open spec fn view(&self) -> UtxoView {
        UtxoView {
            block_height: self.block_height,
            id: match self.id {
                Some(s) => Some(s@),
                None => None,
            },
            block_index: self.block_index,
            transaction_index: self.transaction_index,
            amount: self.amount,
        }
    }
}

/// The values of a sequence of records.
pub open spec fn views(records: Seq<UTXO>) -> Seq<UtxoView> {
    records.map_values(|u: UTXO| u@)
}

impl UTXO {
    /// The short channel id of this output as a spec value.
    pub open spec fn scid_view(&self) -> u64 {
        scid_spec(self.block_height as u64, self.block_index as u64, self.transaction_index as u64)
    }

    /// This generates what the short channel id
    /// should be if this was used inside a lightning
    /// channel.
    pub fn scid(&self) -> (r: u64)
        ensures
            r == self.scid_view(),
            self.block_height < 0x100_0000 ==> r as int == self.block_height as int
                * 0x100_0000_0000 + self.block_index as int * 0x1_0000
                + self.transaction_index as int,
    {
        proof {
            if self.block_height < 0x100_0000 {
                lemma_scid_value(
                    self.block_height as u64,
                    self.block_index as u64,
                    self.transaction_index as u64,
                );
            }
        }
        scid_from_parts(
            self.block_height as u64,
            self.block_index as u64,
            self.transaction_index as u64,
        )
    }

    /// A field-by-field copy of this record.
    pub fn duplicate(&self) -> (r: UTXO)
        ensures
            r == *self,
    {
        let id = match &self.id {
            Some(s) => Some(s.clone()),
            None => None,
        };
        UTXO {
            block_height: self.block_height,
            id,
            block_index: self.block_index,
            transaction_index: self.transaction_index,
            amount: self.amount,
        }
    }
}

/// UTXOResults holds a vector of `UTXO`s that represent P2WSH
/// bitcoin transactions that have not been spent yet.
///
/// The results may not be quite up to date. Some of the transactions
/// might have been spent and new ones may have been created.
/// Do not rely on it being exact.
pub struct UTXOResults {
    pub results: Vec<UTXO>,
}

impl UTXOResults {
    /// Decodes a binary artifact of records into a `UTXOResults`; `None`
    /// when the bytes are not exactly such an artifact.
    pub fn from_bytes(bytes: &[u8]) -> (r: Option<UTXOResults>)
        ensures
            match r {
                Some(x) => decoded_records(bytes@) == Some(views(x.results@)),
                None => decoded_records(bytes@) is None,
            },
            forall|us: Seq<UtxoView>|
                records_fit(us) && enc_records(us) == bytes@ ==> (r matches Some(x) && views(
                    x.results@,
                ) == us),
    {
        match decode_records(bytes) {
            Some(results) => Some(UTXOResults { results }),
            None => None,
        }
    }

    /// Returns a copy of the vector of the P2WSH UTXOs.
    pub fn results(&self) -> (r: Vec<UTXO>)
        ensures
            r@ == self.results@,
    {
        let mut out: Vec<UTXO> = Vec::new();
        let mut i: usize = 0;
        while i < self.results.len()
            invariant
                i <= self.results@.len(),
                out@ == self.results@.subrange(0, i as int),
            decreases self.results@.len() - i,
        {
            out.push(self.results[i].duplicate());
            i = i + 1;
            assert(out@ =~= self.results@.subrange(0, i as int));
        }
        assert(out@ =~= self.results@);
        out
    }
}

} // verus!
