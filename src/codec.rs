//! The binary artifact format: a little-endian, length-prefixed encoding of
//! a sequence of enriched records, with a presence tag before each optional
//! field.
use vstd::prelude::*;
use vstd::utf8::*;
use crate::utxo::{UTXO, UtxoView, views};

verus! {

/// `256` to the power `n`.
pub open spec fn pow256(n: nat) -> nat
    decreases n,
{
    if n == 0 { 1 } else { 256 * pow256((n - 1) as nat) }
}

/// The low `n` bytes of `v`, least significant first.
pub open spec fn le_bytes(v: nat, n: nat) -> Seq<u8>
    decreases n,
{
    if n == 0 {
        Seq::empty()
    } else {
        seq![(v % 256) as u8] + le_bytes(v / 256, (n - 1) as nat)
    }
}

/// The number whose bytes, least significant first, are `b`.
pub open spec fn le_value(b: Seq<u8>) -> nat
    decreases b.len(),
{
    if b.len() == 0 { 0 } else { b[0] as nat + 256 * le_value(b.drop_first()) }
}

proof fn lemma_pow256_values()
    ensures
        pow256(2) == 0x1_0000,
        pow256(4) == 0x1_0000_0000,
        pow256(8) == 0x1_0000_0000_0000_0000,
{
    reveal_with_fuel(pow256, 9);
}

proof fn lemma_le_bytes_len(v: nat, n: nat)
    ensures
        le_bytes(v, n).len() == n,
    decreases n,
{
    if n > 0 {
        lemma_le_bytes_len(v / 256, (n - 1) as nat);
    }
}

/// Reading back the `n` bytes of a value below `256^n` gives the value.
proof fn lemma_le_round_trip(v: nat, n: nat)
    requires
        v < pow256(n),
    ensures
        le_bytes(v, n).len() == n,
        le_value(le_bytes(v, n)) == v,
    decreases n,
{
    lemma_le_bytes_len(v, n);
    if n > 0 {
        let p = pow256((n - 1) as nat);
        assert(v / 256 < p) by (nonlinear_arith)
            requires
                v < 256 * p,
        ;
        lemma_le_round_trip(v / 256, (n - 1) as nat);
        assert(le_bytes(v, n).drop_first() =~= le_bytes(v / 256, (n - 1) as nat));
        assert(v == v % 256 + 256 * (v / 256)) by (nonlinear_arith);
    } else {
        assert(v == 0);
    }
}

/// Writing back the value of some bytes gives the same bytes.
proof fn lemma_le_value_bytes(b: Seq<u8>)
    ensures
        le_value(b) < pow256(b.len()),
        le_bytes(le_value(b), b.len()) == b,
    decreases b.len(),
{
    if b.len() > 0 {
        let rest = b.drop_first();
        lemma_le_value_bytes(rest);
        let w = le_value(rest);
        let v = le_value(b);
        let p = pow256(rest.len());
        assert(v == b[0] as nat + 256 * w);
        assert(v % 256 == b[0] as nat && v / 256 == w) by (nonlinear_arith)
            requires
                v == b[0] as nat + 256 * w,
                b[0] < 256,
        ;
        assert(v < 256 * p) by (nonlinear_arith)
            requires
                v == b[0] as nat + 256 * w,
                b[0] < 256,
                w < p,
        ;
        assert(le_bytes(v, b.len()) =~= seq![b[0]] + rest);
        assert(seq![b[0]] + rest =~= b);
    } else {
        assert(le_bytes(0, 0) =~= b);
    }
}

/// Appends the low `n` bytes of `v`, least significant first.
fn push_le(out: &mut Vec<u8>, v: u64, n: usize)
    ensures
        final(out)@ == old(out)@ + le_bytes(v as nat, n as nat),
{
    let mut x: u64 = v;
    let mut i: usize = 0;
    while i < n
        invariant
            i <= n,
            old(out)@ + le_bytes(v as nat, n as nat) == out@ + le_bytes(x as nat, (n - i) as nat),
        decreases n - i,
    {
        let ghost before = out@;
        out.push((x % 256) as u8);
        assert(le_bytes(x as nat, (n - i) as nat) == seq![((x as nat) % 256) as u8] + le_bytes(
            (x as nat) / 256,
            (n - i - 1) as nat,
        ));
        x = x / 256;
        i = i + 1;
        assert(before + (seq![out@.last()] + le_bytes(x as nat, (n - i) as nat)) =~= out@
            + le_bytes(x as nat, (n - i) as nat));
    }
    assert(le_bytes(x as nat, 0) =~= Seq::<u8>::empty());
    assert(out@ + Seq::<u8>::empty() =~= out@);
}

/// An optional transaction id: tag `0`, or tag `1`, the byte length as
/// eight bytes and the UTF-8 bytes.
pub open spec fn enc_id(id: Option<Seq<char>>) -> Seq<u8> {
    match id {
        None => seq![0u8],
        Some(s) => seq![1u8] + le_bytes(encode_utf8(s).len(), 8) + encode_utf8(s),
    }
}

/// An optional amount: tag `0`, or tag `1` and the amount as eight bytes.
pub open spec fn enc_amount(amount: Option<usize>) -> Seq<u8> {
    match amount {
        None => seq![0u8],
        Some(a) => seq![1u8] + le_bytes(a as nat, 8),
    }
}

/// One record: height (4 bytes), id, position (2 bytes), output index
/// (2 bytes), amount.
pub open spec fn enc_record(u: UtxoView) -> Seq<u8> {
    le_bytes(u.block_height as nat, 4) + enc_id(u.id) + le_bytes(u.block_index as nat, 2)
        + le_bytes(u.transaction_index as nat, 2) + enc_amount(u.amount)
}

/// The records one after the other.
pub open spec fn enc_list(us: Seq<UtxoView>) -> Seq<u8>
    decreases us.len(),
{
    if us.len() == 0 {
        Seq::empty()
    } else {
        enc_list(us.drop_last()) + enc_record(us.last())
    }
}

/// A whole artifact: the record count as eight bytes, then the records.
pub open spec fn enc_records(us: Seq<UtxoView>) -> Seq<u8> {
    le_bytes(us.len(), 8) + enc_list(us)
}

/// Whether a record's variable-length part has a length that its
/// eight-byte prefix can hold.
pub open spec fn record_fits(u: UtxoView) -> bool {
    match u.id {
        Some(s) => encode_utf8(s).len() < pow256(8),
        None => true,
    }
}

/// Whether every record fits and the count fits its prefix.
pub open spec fn records_fit(us: Seq<UtxoView>) -> bool {
    &&& us.len() < pow256(8)
    &&& forall|i: int| 0 <= i < us.len() ==> record_fits(#[trigger] us[i])
}

/// The value of the first `n` bytes and the bytes after them.
pub open spec fn take_le(b: Seq<u8>, n: nat) -> Option<(nat, Seq<u8>)> {
    if n <= b.len() {
        Some((le_value(b.take(n as int)), b.skip(n as int)))
    } else {
        None
    }
}

/// Reads an optional transaction id off the front of `b`.
pub open spec fn take_id(b: Seq<u8>) -> Option<(Option<Seq<char>>, Seq<u8>)> {
    if b.len() == 0 {
        None
    } else if b[0] == 0 {
        Some((None, b.skip(1)))
    } else if b[0] == 1 {
        match take_le(b.skip(1), 8) {
            None => None,
            Some((l, r)) => if l <= r.len() && valid_utf8(r.take(l as int)) {
                Some((Some(decode_utf8(r.take(l as int))), r.skip(l as int)))
            } else {
                None
            },
        }
    } else {
        None
    }
}

/// Reads an optional amount off the front of `b`.
pub open spec fn take_amount(b: Seq<u8>) -> Option<(Option<usize>, Seq<u8>)> {
    if b.len() == 0 {
        None
    } else if b[0] == 0 {
        Some((None, b.skip(1)))
    } else if b[0] == 1 {
        match take_le(b.skip(1), 8) {
            None => None,
            Some((a, r)) => if a <= usize::MAX {
                Some((Some(a as usize), r))
            } else {
                None
            },
        }
    } else {
        None
    }
}

/// Reads one record off the front of `b`.
pub open spec fn take_record(b: Seq<u8>) -> Option<(UtxoView, Seq<u8>)> {
    match take_le(b, 4) {
        None => None,
        Some((h, r1)) => match take_id(r1) {
            None => None,
            Some((id, r2)) => match take_le(r2, 2) {
                None => None,
                Some((bi, r3)) => match take_le(r3, 2) {
                    None => None,
                    Some((ti, r4)) => match take_amount(r4) {
                        None => None,
                        Some((a, r5)) => Some(
                            (
                                UtxoView {
                                    block_height: h as u32,
                                    id,
                                    block_index: bi as u16,
                                    transaction_index: ti as u16,
                                    amount: a,
                                },
                                r5,
                            ),
                        ),
                    },
                },
            },
        },
    }
}

/// Reads `count` records off the front of `b`.
pub open spec fn take_list(b: Seq<u8>, count: nat) -> Option<(Seq<UtxoView>, Seq<u8>)>
    decreases count,
{
    if count == 0 {
        Some((Seq::empty(), b))
    } else {
        match take_list(b, (count - 1) as nat) {
            None => None,
            Some((us, r)) => match take_record(r) {
                None => None,
                Some((u, r2)) => Some((us.push(u), r2)),
            },
        }
    }
}

/// The records that a whole artifact holds, if it is well formed.
pub open spec fn decoded_records(b: Seq<u8>) -> Option<Seq<UtxoView>> {
    match take_le(b, 8) {
        None => None,
        Some((c, r)) => match take_list(r, c) {
            None => None,
            Some((us, r2)) => if r2.len() == 0 {
                Some(us)
            } else {
                None
            },
        },
    }
}

proof fn lemma_take_le_of(v: nat, n: nat, rest: Seq<u8>)
    requires
        v < pow256(n),
    ensures
        take_le(le_bytes(v, n) + rest, n) == Some((v, rest)),
{
    lemma_le_round_trip(v, n);
    assert((le_bytes(v, n) + rest).take(n as int) =~= le_bytes(v, n));
    assert((le_bytes(v, n) + rest).skip(n as int) =~= rest);
}

proof fn lemma_take_le_back(b: Seq<u8>, n: nat, v: nat, rest: Seq<u8>)
    requires
        take_le(b, n) == Some((v, rest)),
    ensures
        v < pow256(n),
        b == le_bytes(v, n) + rest,
{
    lemma_le_value_bytes(b.take(n as int));
    assert(b =~= b.take(n as int) + b.skip(n as int));
}

proof fn lemma_take_id_of(id: Option<Seq<char>>, rest: Seq<u8>)
    requires
        record_fits(UtxoView { block_height: 0, id, block_index: 0, transaction_index: 0, amount: None }),
    ensures
        take_id(enc_id(id) + rest) == Some((id, rest)),
{
    let b = enc_id(id) + rest;
    match id {
        None => {
            assert(b.skip(1) =~= rest);
        },
        Some(s) => {
            let e = encode_utf8(s);
            let tail = e + rest;
            assert(b.skip(1) =~= le_bytes(e.len(), 8) + tail);
            lemma_take_le_of(e.len(), 8, tail);
            assert(tail.take(e.len() as int) =~= e);
            assert(tail.skip(e.len() as int) =~= rest);
            encode_utf8_valid_utf8(s);
            encode_utf8_decode_utf8(s);
        },
    }
}

proof fn lemma_take_amount_of(amount: Option<usize>, rest: Seq<u8>)
    ensures
        take_amount(enc_amount(amount) + rest) == Some((amount, rest)),
{
    lemma_pow256_values();
    let b = enc_amount(amount) + rest;
    match amount {
        None => {
            assert(b.skip(1) =~= rest);
        },
        Some(a) => {
            assert(b.skip(1) =~= le_bytes(a as nat, 8) + rest);
            lemma_take_le_of(a as nat, 8, rest);
        },
    }
}

proof fn lemma_take_record_of(u: UtxoView, rest: Seq<u8>)
    requires
        record_fits(u),
    ensures
        take_record(enc_record(u) + rest) == Some((u, rest)),
{
    lemma_pow256_values();
    let h = le_bytes(u.block_height as nat, 4);
    let bi = le_bytes(u.block_index as nat, 2);
    let ti = le_bytes(u.transaction_index as nat, 2);
    let r4 = enc_amount(u.amount) + rest;
    let r3 = ti + r4;
    let r2 = bi + r3;
    let r1 = enc_id(u.id) + r2;
    assert(enc_record(u) + rest =~= h + r1);
    lemma_take_le_of(u.block_height as nat, 4, r1);
    lemma_take_id_of(u.id, r2);
    lemma_take_le_of(u.block_index as nat, 2, r3);
    lemma_take_le_of(u.transaction_index as nat, 2, r4);
    lemma_take_amount_of(u.amount, rest);
}

proof fn lemma_take_id_back(b: Seq<u8>, id: Option<Seq<char>>, rest: Seq<u8>)
    requires
        take_id(b) == Some((id, rest)),
    ensures
        record_fits(UtxoView { block_height: 0, id, block_index: 0, transaction_index: 0, amount: None }),
        b == enc_id(id) + rest,
{
    if b[0] == 0 {
        assert(b =~= seq![0u8] + rest);
    } else {
        let after = b.skip(1);
        let (l, r) = take_le(after, 8)->0;
        lemma_take_le_back(after, 8, l, r);
        let t = r.take(l as int);
        decode_utf8_encode_utf8(t);
        assert(r =~= t + rest);
        assert(b =~= seq![1u8] + after);
        assert(b =~= enc_id(id) + rest);
    }
}

proof fn lemma_take_amount_back(b: Seq<u8>, amount: Option<usize>, rest: Seq<u8>)
    requires
        take_amount(b) == Some((amount, rest)),
    ensures
        b == enc_amount(amount) + rest,
{
    if b[0] == 0 {
        assert(b =~= seq![0u8] + rest);
    } else {
        let (a, r) = take_le(b.skip(1), 8)->0;
        lemma_take_le_back(b.skip(1), 8, a, r);
        assert(b =~= seq![1u8] + b.skip(1));
        assert(b =~= enc_amount(amount) + rest);
    }
}

#[verifier::spinoff_prover]
#[verifier::rlimit(50)]
proof fn lemma_take_record_back(b: Seq<u8>, u: UtxoView, rest: Seq<u8>)
    requires
        take_record(b) == Some((u, rest)),
    ensures
        record_fits(u),
        b == enc_record(u) + rest,
{
    lemma_pow256_values();
    let (h, r1) = take_le(b, 4)->0;
    lemma_take_le_back(b, 4, h, r1);
    let (id, r2) = take_id(r1)->0;
    lemma_take_id_back(r1, id, r2);
    let (bi, r3) = take_le(r2, 2)->0;
    lemma_take_le_back(r2, 2, bi, r3);
    let (ti, r4) = take_le(r3, 2)->0;
    lemma_take_le_back(r3, 2, ti, r4);
    lemma_take_amount_back(r4, u.amount, rest);
    assert(b =~= enc_record(u) + rest);
}

proof fn lemma_take_list_of(us: Seq<UtxoView>, rest: Seq<u8>)
    requires
        forall|i: int| 0 <= i < us.len() ==> record_fits(#[trigger] us[i]),
    ensures
        take_list(enc_list(us) + rest, us.len()) == Some((us, rest)),
    decreases us.len(),
{
    if us.len() > 0 {
        let init = us.drop_last();
        let tail = enc_record(us.last()) + rest;
        assert(enc_list(us) + rest =~= enc_list(init) + tail);
        lemma_take_list_of(init, tail);
        assert(record_fits(us[us.len() - 1]));
        lemma_take_record_of(us.last(), rest);
        assert(init.push(us.last()) =~= us);
    } else {
        assert(enc_list(us) + rest =~= rest);
        assert(us =~= Seq::<UtxoView>::empty());
    }
}

proof fn lemma_take_list_back(b: Seq<u8>, count: nat, us: Seq<UtxoView>, rest: Seq<u8>)
    requires
        take_list(b, count) == Some((us, rest)),
    ensures
        us.len() == count,
        forall|i: int| 0 <= i < us.len() ==> record_fits(#[trigger] us[i]),
        b == enc_list(us) + rest,
    decreases count,
{
    if count > 0 {
        let (init, r) = take_list(b, (count - 1) as nat)->0;
        lemma_take_list_back(b, (count - 1) as nat, init, r);
        let (u, r2) = take_record(r)->0;
        lemma_take_record_back(r, u, r2);
        assert(us == init.push(u));
        assert(us.drop_last() =~= init);
        assert(b =~= enc_list(us) + rest);
    } else {
        assert(b =~= enc_list(us) + rest);
    }
}

/// Decoding the encoding of records that fit gives back the same records,
/// with each optional field present or absent as before.
pub proof fn lemma_round_trip(us: Seq<UtxoView>)
    requires
        records_fit(us),
    ensures
        decoded_records(enc_records(us)) == Some(us),
{
    lemma_take_le_of(us.len(), 8, enc_list(us));
    lemma_take_list_of(us, Seq::empty());
    assert(enc_list(us) + Seq::<u8>::empty() =~= enc_list(us));
}

/// Whatever decodes is exactly the encoding of what it decodes to.
pub proof fn lemma_decoded_is_encoding(b: Seq<u8>, us: Seq<UtxoView>)
    requires
        decoded_records(b) == Some(us),
    ensures
        records_fit(us),
        enc_records(us) == b,
{
    let (c, r) = take_le(b, 8)->0;
    lemma_take_le_back(b, 8, c, r);
    let (us2, r2) = take_list(r, c)->0;
    lemma_take_list_back(r, c, us2, r2);
    assert(r =~= enc_list(us));
}

proof fn lemma_pow256_small(j: nat)
    requires
        j <= 7,
    ensures
        pow256(j) <= 0x100_0000_0000_0000,
{
    reveal_with_fuel(pow256, 8);
}

proof fn lemma_take_list_stuck(b: Seq<u8>, k: nat, m: nat)
    requires
        take_list(b, k) is None,
        k <= m,
    ensures
        take_list(b, m) is None,
    decreases m - k,
{
    if k < m {
        lemma_take_list_stuck(b, k, (m - 1) as nat);
    }
}

/// The characters of an optional transaction id.
pub open spec fn id_view(id: Option<String>) -> Option<Seq<char>> {
    match id {
        Some(s) => Some(s@),
        None => None,
    }
}

/// Relies on `String::from_utf8`: it succeeds exactly when the bytes are
/// valid UTF-8, and the string then holds the characters they encode.
#[verifier::external_body]
fn string_from_utf8(bytes: Vec<u8>) -> (r: Option<String>)
    ensures
        r is Some <==> valid_utf8(bytes@),
        r matches Some(s) ==> s@ == decode_utf8(bytes@),
{
    String::from_utf8(bytes).ok()
}

/// Appends the encoding of one record.
fn push_record(out: &mut Vec<u8>, u: &UTXO)
    ensures
        final(out)@ == old(out)@ + enc_record(u@),
{
    let ghost start = out@;
    push_le(out, u.block_height as u64, 4);
    let ghost after_height = out@;
    match &u.id {
        None => {
            out.push(0u8);
        },
        Some(s) => {
            out.push(1u8);
            let bytes = s.as_str().as_bytes();
            assert(bytes@ == encode_utf8(s@));
            push_le(out, bytes.len() as u64, 8);
            let ghost before_text = out@;
            let mut i: usize = 0;
            while i < bytes.len()
                invariant
                    i <= bytes@.len(),
                    out@ == before_text + bytes@.take(i as int),
                decreases bytes@.len() - i,
            {
                out.push(bytes[i]);
                i = i + 1;
                assert(out@ =~= before_text + bytes@.take(i as int));
            }
            assert(bytes@.take(i as int) =~= bytes@);
        },
    }
    assert(out@ =~= after_height + enc_id(u@.id));
    push_le(out, u.block_index as u64, 2);
    push_le(out, u.transaction_index as u64, 2);
    match u.amount {
        None => {
            out.push(0u8);
        },
        Some(a) => {
            out.push(1u8);
            push_le(out, a as u64, 8);
        },
    }
    assert(out@ =~= start + enc_record(u@));
}

/// Encodes `records` as one binary artifact.
pub fn encode_records(records: &Vec<UTXO>) -> (r: Vec<u8>)
    ensures
        r@ == enc_records(views(records@)),
{
    let mut out: Vec<u8> = Vec::new();
    push_le(&mut out, records.len() as u64, 8);
    assert(out@ =~= le_bytes(records@.len(), 8));
    let mut i: usize = 0;
    while i < records.len()
        invariant
            i <= records@.len(),
            out@ == le_bytes(records@.len(), 8) + enc_list(views(records@.take(i as int))),
        decreases records@.len() - i,
    {
        push_record(&mut out, &records[i]);
        i = i + 1;
        assert(views(records@.take(i as int)).drop_last() =~= views(records@.take((i - 1) as int)));
        assert(out@ =~= le_bytes(records@.len(), 8) + enc_list(views(records@.take(i as int))));
    }
    assert(records@.take(i as int) =~= records@);
    out
}

/// Reads `n` little-endian bytes at `at`.
fn read_le(b: &[u8], at: usize, n: usize) -> (r: Option<(u64, usize)>)
    requires
        at <= b@.len(),
        n <= 8,
    ensures
        match r {
            Some((v, next)) => next <= b@.len() && take_le(b@.skip(at as int), n as nat) == Some(
                (v as nat, b@.skip(next as int)),
            ),
            None => take_le(b@.skip(at as int), n as nat) is None,
        },
{
    if n > b.len() - at {
        return None;
    }
    let ghost s = b@.subrange(at as int, (at + n) as int);
    let mut acc: u64 = 0;
    let mut k: usize = n;
    while k > 0
        invariant
            k <= n,
            n <= 8,
            b@.len() <= usize::MAX,
            at + n <= b@.len(),
            s == b@.subrange(at as int, (at + n) as int),
            acc as nat == le_value(s.skip(k as int)),
            acc < pow256((n - k) as nat),
        decreases k,
    {
        k = k - 1;
        proof {
            lemma_pow256_small((n - k - 1) as nat);
            let p = pow256((n - k - 1) as nat);
            assert(s.skip(k as int).drop_first() =~= s.skip(k + 1));
            assert(s.skip(k as int)[0] == b@[at + k]);
            let byte = b@[at + k];
            assert(byte + 256 * acc < 256 * p) by (nonlinear_arith)
                requires
                    acc < p,
                    byte < 256,
            ;
        }
        acc = b[at + k] as u64 + 256 * acc;
    }
    assert(s.skip(0) =~= s);
    assert(b@.skip(at as int).take(n as int) =~= s);
    assert(b@.skip(at as int).skip(n as int) =~= b@.skip((at + n) as int));
    Some((acc, at + n))
}

/// Reads an optional transaction id at `at`.
fn read_id(b: &[u8], at: usize) -> (r: Option<(Option<String>, usize)>)
    requires
        at <= b@.len(),
    ensures
        match r {
            Some((id, next)) => next <= b@.len() && take_id(b@.skip(at as int)) == Some(
                (id_view(id), b@.skip(next as int)),
            ),
            None => take_id(b@.skip(at as int)) is None,
        },
{
    if at >= b.len() {
        return None;
    }
    let ghost rest = b@.skip(at as int);
    assert(rest.skip(1) =~= b@.skip(at + 1));
    if b[at] == 0 {
        return Some((None, at + 1));
    }
    if b[at] != 1 {
        return None;
    }
    let (l, p) = match read_le(b, at + 1, 8) {
        Some(x) => x,
        None => {
            return None;
        },
    };
    if l > (b.len() - p) as u64 {
        return None;
    }
    let len = l as usize;
    let mut bytes: Vec<u8> = Vec::new();
    let mut i: usize = 0;
    while i < len
        invariant
            p + len <= b@.len(),
            b@.len() <= usize::MAX,
            i <= len,
            bytes@ == b@.subrange(p as int, p + i),
        decreases len - i,
    {
        bytes.push(b[p + i]);
        i = i + 1;
        assert(bytes@ =~= b@.subrange(p as int, p + i));
    }
    assert(b@.skip(p as int).take(len as int) =~= bytes@);
    assert(b@.skip(p as int).skip(len as int) =~= b@.skip(p + len));
    match string_from_utf8(bytes) {
        Some(s) => Some((Some(s), p + len)),
        None => None,
    }
}

/// Reads an optional amount at `at`.
fn read_amount(b: &[u8], at: usize) -> (r: Option<(Option<usize>, usize)>)
    requires
        at <= b@.len(),
    ensures
        match r {
            Some((a, next)) => next <= b@.len() && take_amount(b@.skip(at as int)) == Some(
                (a, b@.skip(next as int)),
            ),
            None => take_amount(b@.skip(at as int)) is None,
        },
{
    if at >= b.len() {
        return None;
    }
    assert(b@.skip(at as int).skip(1) =~= b@.skip(at + 1));
    if b[at] == 0 {
        return Some((None, at + 1));
    }
    if b[at] != 1 {
        return None;
    }
    match read_le(b, at + 1, 8) {
        Some((a, p)) => if a > usize::MAX as u64 {
            None
        } else {
            Some((Some(a as usize), p))
        },
        None => None,
    }
}

/// Reads one record at `at`.
fn read_record(b: &[u8], at: usize) -> (r: Option<(UTXO, usize)>)
    requires
        at <= b@.len(),
    ensures
        match r {
            Some((u, next)) => next <= b@.len() && take_record(b@.skip(at as int)) == Some(
                (u@, b@.skip(next as int)),
            ),
            None => take_record(b@.skip(at as int)) is None,
        },
{
    proof {
        lemma_pow256_values();
    }
    let (h, p1) = match read_le(b, at, 4) {
        Some(x) => x,
        None => {
            return None;
        },
    };
    proof {
        lemma_take_le_back(b@.skip(at as int), 4, h as nat, b@.skip(p1 as int));
    }
    let (id, p2) = match read_id(b, p1) {
        Some(x) => x,
        None => {
            return None;
        },
    };
    let (bi, p3) = match read_le(b, p2, 2) {
        Some(x) => x,
        None => {
            return None;
        },
    };
    proof {
        lemma_take_le_back(b@.skip(p2 as int), 2, bi as nat, b@.skip(p3 as int));
    }
    let (ti, p4) = match read_le(b, p3, 2) {
        Some(x) => x,
        None => {
            return None;
        },
    };
    proof {
        lemma_take_le_back(b@.skip(p3 as int), 2, ti as nat, b@.skip(p4 as int));
    }
    let (amount, p5) = match read_amount(b, p4) {
        Some(x) => x,
        None => {
            return None;
        },
    };
    let u = UTXO {
        block_height: h as u32,
        id,
        block_index: bi as u16,
        transaction_index: ti as u16,
        amount,
    };
    Some((u, p5))
}

/// Decodes a binary artifact; `None` when the bytes are not exactly the
/// encoding of a sequence of records.
pub fn decode_records(b: &[u8]) -> (r: Option<Vec<UTXO>>)
    ensures
        match r {
            Some(v) => decoded_records(b@) == Some(views(v@)),
            None => decoded_records(b@) is None,
        },
        r matches Some(v) ==> enc_records(views(v@)) == b@,
        forall|us: Seq<UtxoView>|
            records_fit(us) && enc_records(us) == b@ ==> (r matches Some(v) && views(v@) == us),
{
    let r = decode_steps(b);
    proof {
        if r is Some {
            lemma_decoded_is_encoding(b@, views(r->0@));
        }
        assert forall|us: Seq<UtxoView>|
            records_fit(us) && enc_records(us) == b@ implies (r matches Some(v) && views(v@)
                == us) by {
            lemma_round_trip(us);
        }
    }
    r
}

fn decode_steps(b: &[u8]) -> (r: Option<Vec<UTXO>>)
    ensures
        match r {
            Some(v) => decoded_records(b@) == Some(views(v@)),
            None => decoded_records(b@) is None,
        },
{
    let (count, start) = match read_le(b, 0, 8) {
        Some(x) => x,
        None => {
            assert(b@.skip(0) =~= b@);
            return None;
        },
    };
    assert(b@.skip(0) =~= b@);
    let ghost body = b@.skip(start as int);
    let mut out: Vec<UTXO> = Vec::new();
    let mut at: usize = start;
    let mut i: u64 = 0;
    assert(views(out@) =~= Seq::<UtxoView>::empty());
    while i < count
        invariant
            i <= count,
            at <= b@.len(),
            body == b@.skip(start as int),
            take_le(b@, 8) == Some((count as nat, body)),
            take_list(body, i as nat) == Some((views(out@), b@.skip(at as int))),
        decreases count - i,
    {
        match read_record(b, at) {
            Some((u, next)) => {
                let ghost before = views(out@);
                out.push(u);
                assert(views(out@) =~= before.push(u@));
                at = next;
                i = i + 1;
            },
            None => {
                proof {
                    lemma_take_list_stuck(body, (i + 1) as nat, count as nat);
                }
                return None;
            },
        }
    }
    if at == b.len() {
        Some(out)
    } else {
        None
    }
}

} // verus!
