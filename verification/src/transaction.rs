//! The transfer intent and its signed envelope: canonical encoding, strict
//! decoding, and recovery of the authorizing identity.

use crate::codec::{
    bool_at, bool_seq, dec_at, dec_seq, hex_at, hex_seq, lemma_dec_seq_digits,
    lemma_dec_seq_injective, lemma_digit_run_at_unique, lemma_digit_run_prefix, lemma_hex_seq_injective, lemma_hex_seq_len,
    lemma_subrange_shift, lit_amount, lit_close, lit_destination, lit_nonce, lit_sig_end,
    lit_sig_parity, lit_sig_r, lit_sig_s, lit_transaction, parse_bool, parse_hex, parse_lit,
    parse_u64, push_bool, push_dec, push_hex, push_slice, slices_equal, vec_to_array,
};
use crate::recovery::{ecrecover_msg, recover_address_raw};
use vstd::prelude::*;

verus! {

broadcast use vstd::array::group_array_axioms;

/// A fixed-width 20-byte account identifier.
#[derive(Clone, Copy, Debug, PartialEq, Eq)]
#[verifier::ext_equal]
pub struct Address {
    pub bytes: [u8; 20],
}

/// A recoverable ECDSA signature: the two 32-byte big-endian scalars and the
/// recovery parity bit, enough to reconstruct the signer's identity from the
/// signed message alone.
#[derive(Clone, Copy, Debug, PartialEq, Eq)]
#[verifier::ext_equal]
pub struct Signature {
    pub r: [u8; 32],
    pub s: [u8; 32],
    pub y_parity: bool,
}

/// Recovery failed: the signature scalars or parity admit no curve point.
#[derive(Clone, Copy, Debug, PartialEq, Eq)]
pub enum RecoveryError {
    InvalidSignature,
}

/// A transfer intent: what is moved, to whom, and its replay-protection
/// sequence number.
#[derive(Clone, Copy, Debug, PartialEq, Eq)]
#[verifier::ext_equal]
pub struct Transaction {
    pub amount: u64,
    pub destination: Address,
    pub nonce: u64,
}

/// A transaction paired with a signature over its canonical encoding.
#[derive(Clone, Copy, Debug, PartialEq, Eq)]
#[verifier::ext_equal]
pub struct SignedTransaction {
    pub transaction: Transaction,
    pub signature: Signature,
}

/// The canonical byte encoding of a transaction:
/// `{"amount":<decimal>,"destination":"0x<40 hex>","nonce":<decimal>}`.
#[verifier::opaque]
pub open spec fn spec_transaction_encode(t: Transaction) -> Seq<u8> {
    lit_amount() + (dec_seq(t.amount as nat) + (lit_destination() + (hex_seq(
        t.destination.bytes@,
    ) + (lit_nonce() + (dec_seq(t.nonce as nat) + lit_close())))))
}

/// The canonical byte encoding of a signed envelope:
/// `{"transaction":<transaction>,"signature":{"r":"0x<64 hex>","s":"0x<64 hex>","yParity":<bool>}}`.
#[verifier::opaque]
pub open spec fn spec_signed_encode(x: SignedTransaction) -> Seq<u8> {
    lit_transaction() + (spec_transaction_encode(x.transaction) + (lit_sig_r() + (hex_seq(
        x.signature.r@,
    ) + (lit_sig_s() + (hex_seq(x.signature.s@) + (lit_sig_parity() + (bool_seq(
        x.signature.y_parity,
    ) + lit_sig_end())))))))
}

/// The canonical encoding of `t` stands in `b` from `i` to `j`.
pub open spec fn transaction_enc_at(b: Seq<u8>, i: int, t: Transaction, j: int) -> bool {
    &&& i + spec_transaction_encode(t).len() == j
    &&& j <= b.len()
    &&& b.subrange(i, j) == spec_transaction_encode(t)
}

/// The canonical encoding of `x` stands in `b` from `i` to `j`.
pub open spec fn signed_enc_at(b: Seq<u8>, i: int, x: SignedTransaction, j: int) -> bool {
    &&& i + spec_signed_encode(x).len() == j
    &&& j <= b.len()
    &&& b.subrange(i, j) == spec_signed_encode(x)
}

/// Where each field of a transaction stands inside its canonical encoding.
pub proof fn lemma_transaction_enc_parts(t: Transaction)
    ensures
        ({
            let e = spec_transaction_encode(t);
            let a = dec_seq(t.amount as nat);
            let n = dec_seq(t.nonce as nat);
            let la = a.len() as int;
            let ln = n.len() as int;
            &&& e.len() == 79 + la + ln
            &&& e.subrange(0, 10) == lit_amount()
            &&& e.subrange(10, 10 + la) == a
            &&& e.subrange(10 + la, 28 + la) == lit_destination()
            &&& e.subrange(28 + la, 68 + la) == hex_seq(t.destination.bytes@)
            &&& e.subrange(68 + la, 78 + la) == lit_nonce()
            &&& e.subrange(78 + la, 78 + la + ln) == n
            &&& e.subrange(78 + la + ln, 79 + la + ln) == lit_close()
        }),
{
    reveal(spec_transaction_encode);
    let e = spec_transaction_encode(t);
    let a = dec_seq(t.amount as nat);
    let n = dec_seq(t.nonce as nat);
    let d = hex_seq(t.destination.bytes@);
    let la = a.len() as int;
    let ln = n.len() as int;
    lemma_hex_seq_len(t.destination.bytes@);
    assert(t.destination.bytes@.len() == 20);
    assert(d.len() == 40);
    assert(e.len() == 79 + la + ln);
    assert(e.subrange(0, 10) =~= lit_amount());
    assert(e.subrange(10, 10 + la) =~= a);
    assert(e.subrange(10 + la, 28 + la) =~= lit_destination());
    assert(e.subrange(28 + la, 68 + la) =~= d);
    assert(e.subrange(68 + la, 78 + la) =~= lit_nonce());
    assert(e.subrange(78 + la, 78 + la + ln) =~= n);
    assert(e.subrange(78 + la + ln, 79 + la + ln) =~= lit_close());
}

/// Where each field of an envelope stands inside its canonical encoding.
pub proof fn lemma_signed_enc_parts(x: SignedTransaction)
    ensures
        ({
            let e = spec_signed_encode(x);
            let lt = spec_transaction_encode(x.transaction).len() as int;
            let lb = bool_seq(x.signature.y_parity).len() as int;
            &&& e.len() == 187 + lt + lb
            &&& e.subrange(0, 15) == lit_transaction()
            &&& e.subrange(15, 15 + lt) == spec_transaction_encode(x.transaction)
            &&& e.subrange(15 + lt, 36 + lt) == lit_sig_r()
            &&& e.subrange(36 + lt, 100 + lt) == hex_seq(x.signature.r@)
            &&& e.subrange(100 + lt, 109 + lt) == lit_sig_s()
            &&& e.subrange(109 + lt, 173 + lt) == hex_seq(x.signature.s@)
            &&& e.subrange(173 + lt, 185 + lt) == lit_sig_parity()
            &&& e.subrange(185 + lt, 185 + lt + lb) == bool_seq(x.signature.y_parity)
            &&& e.subrange(185 + lt + lb, 187 + lt + lb) == lit_sig_end()
        }),
{
    reveal(spec_signed_encode);
    let e = spec_signed_encode(x);
    let tt = spec_transaction_encode(x.transaction);
    let hr = hex_seq(x.signature.r@);
    let hs = hex_seq(x.signature.s@);
    let pb = bool_seq(x.signature.y_parity);
    let lt = tt.len() as int;
    let lb = pb.len() as int;
    lemma_hex_seq_len(x.signature.r@);
    lemma_hex_seq_len(x.signature.s@);
    assert(x.signature.r@.len() == 32);
    assert(x.signature.s@.len() == 32);
    assert(hr.len() == 64);
    assert(hs.len() == 64);
    assert(e.len() == 187 + lt + lb);
    assert(e.subrange(0, 15) =~= lit_transaction());
    assert(e.subrange(15, 15 + lt) =~= tt);
    assert(e.subrange(15 + lt, 36 + lt) =~= lit_sig_r());
    assert(e.subrange(36 + lt, 100 + lt) =~= hr);
    assert(e.subrange(100 + lt, 109 + lt) =~= lit_sig_s());
    assert(e.subrange(109 + lt, 173 + lt) =~= hs);
    assert(e.subrange(173 + lt, 185 + lt) =~= lit_sig_parity());
    assert(e.subrange(185 + lt, 185 + lt + lb) =~= pb);
    assert(e.subrange(185 + lt + lb, 187 + lt + lb) =~= lit_sig_end());
}

/// Where each field of `t` stands in a byte string that holds the canonical
/// encoding of `t` at `i`, phrased for the field readers.
pub proof fn lemma_transaction_enc_at_facts(b: Seq<u8>, i: int, t: Transaction, j: int)
    requires
        0 <= i,
        transaction_enc_at(b, i, t, j),
    ensures
        ({
            let la = dec_seq(t.amount as nat).len() as int;
            let ln = dec_seq(t.nonce as nat).len() as int;
            &&& j == i + 79 + la + ln
            &&& j <= b.len()
            &&& la >= 1 && ln >= 1
            &&& b.subrange(i, i + 10) == lit_amount()
            &&& dec_at(b, i + 10, t.amount, i + 10 + la)
            &&& b.subrange(i + 10 + la, i + 28 + la) == lit_destination()
            &&& hex_at(b, i + 28 + la, 20, t.destination.bytes@)
            &&& b.subrange(i + 68 + la, i + 78 + la) == lit_nonce()
            &&& dec_at(b, i + 78 + la, t.nonce, i + 78 + la + ln)
            &&& b.subrange(i + 78 + la + ln, i + 79 + la + ln) == lit_close()
        }),
{
    let e = spec_transaction_encode(t);
    let a = dec_seq(t.amount as nat);
    let n = dec_seq(t.nonce as nat);
    let la = a.len() as int;
    let ln = n.len() as int;
    lemma_transaction_enc_parts(t);
    lemma_dec_seq_digits(t.amount as nat);
    lemma_dec_seq_digits(t.nonce as nat);
    lemma_hex_seq_len(t.destination.bytes@);
    assert forall|p: int, q: int| 0 <= p <= q <= e.len() implies b.subrange(i + p, i + q)
        == e.subrange(p, q) by {
        lemma_subrange_shift(b, i, j, p, q);
    }
    assert(b.subrange(i + 10, i + 10 + la) == a);
    assert(b.subrange(i + 10 + la, i + 28 + la) == lit_destination());
    assert(b[i + 10 + la] == b.subrange(i + 10 + la, i + 28 + la)[0]);
    assert(b[i + 10 + la] == 44);
    assert(b.subrange(i + 78 + la, i + 78 + la + ln) == n);
    assert(b.subrange(i + 78 + la + ln, i + 79 + la + ln) == lit_close());
    assert(b[i + 78 + la + ln] == b.subrange(i + 78 + la + ln, i + 79 + la + ln)[0]);
    assert(b[i + 78 + la + ln] == 125);
    assert(b.subrange(i + 28 + la, i + 68 + la) == hex_seq(t.destination.bytes@));
}

/// Where each field of `x` stands in a byte string that holds the canonical
/// encoding of `x` at `i`, phrased for the field readers.
#[verifier::rlimit(100)]
pub proof fn lemma_signed_enc_at_facts(b: Seq<u8>, i: int, x: SignedTransaction, j: int)
    requires
        0 <= i,
        signed_enc_at(b, i, x, j),
    ensures
        ({
            let lt = spec_transaction_encode(x.transaction).len() as int;
            let lb = bool_seq(x.signature.y_parity).len() as int;
            &&& j == i + 187 + lt + lb
            &&& j <= b.len()
            &&& lt >= 81
            &&& b.subrange(i, i + 15) == lit_transaction()
            &&& transaction_enc_at(b, i + 15, x.transaction, i + 15 + lt)
            &&& b.subrange(i + 15 + lt, i + 36 + lt) == lit_sig_r()
            &&& hex_at(b, i + 36 + lt, 32, x.signature.r@)
            &&& b.subrange(i + 100 + lt, i + 109 + lt) == lit_sig_s()
            &&& hex_at(b, i + 109 + lt, 32, x.signature.s@)
            &&& b.subrange(i + 173 + lt, i + 185 + lt) == lit_sig_parity()
            &&& bool_at(b, i + 185 + lt, x.signature.y_parity, i + 185 + lt + lb)
            &&& b.subrange(i + 185 + lt + lb, i + 187 + lt + lb) == lit_sig_end()
        }),
{
    let e = spec_signed_encode(x);
    let lt = spec_transaction_encode(x.transaction).len() as int;
    let lb = bool_seq(x.signature.y_parity).len() as int;
    lemma_signed_enc_parts(x);
    lemma_transaction_enc_parts(x.transaction);
    lemma_hex_seq_len(x.signature.r@);
    lemma_hex_seq_len(x.signature.s@);
    assert forall|p: int, q: int| 0 <= p <= q <= e.len() implies b.subrange(i + p, i + q)
        == e.subrange(p, q) by {
        lemma_subrange_shift(b, i, j, p, q);
    }
    assert(b.subrange(i + 15, i + 15 + lt) == spec_transaction_encode(x.transaction));
    assert(b.subrange(i + 36 + lt, i + 100 + lt) == hex_seq(x.signature.r@));
    assert(b.subrange(i + 109 + lt, i + 173 + lt) == hex_seq(x.signature.s@));
    assert(b.subrange(i + 185 + lt, i + 185 + lt + lb) == bool_seq(x.signature.y_parity));
}

/// Appends the canonical encoding of `t` to `v`.
fn push_transaction(v: &mut Vec<u8>, t: &Transaction)
    ensures
        final(v)@ == old(v)@ + spec_transaction_encode(*t),
{
    let lit1: [u8; 10] = [123, 34, 97, 109, 111, 117, 110, 116, 34, 58];
    let lit2: [u8; 18] = [
        44,
        34,
        100,
        101,
        115,
        116,
        105,
        110,
        97,
        116,
        105,
        111,
        110,
        34,
        58,
        34,
        48,
        120,
    ];
    let lit3: [u8; 10] = [34, 44, 34, 110, 111, 110, 99, 101, 34, 58];
    proof {
        assert(lit1@ =~= lit_amount());
        assert(lit2@ =~= lit_destination());
        assert(lit3@ =~= lit_nonce());
    }
    push_slice(v, lit1.as_slice());
    push_dec(v, t.amount);
    push_slice(v, lit2.as_slice());
    push_hex(v, t.destination.bytes.as_slice());
    push_slice(v, lit3.as_slice());
    push_dec(v, t.nonce);
    v.push(125);
    proof {
        reveal(spec_transaction_encode);
        assert(final(v)@ =~= old(v)@ + spec_transaction_encode(*t));
    }
}

/// Reads one canonically encoded transaction at `i`. Wherever the canonical
/// encoding of some `t` stands at `i`, the parse yields exactly `t` and stops
/// exactly at its end.
fn parse_transaction(b: &[u8], i: usize) -> (r: Option<(Transaction, usize)>)
    requires
        i <= b@.len(),
    ensures
        r matches Some(p) ==> i <= p.1 <= b@.len(),
        forall|t: Transaction, j: int| #[trigger] transaction_enc_at(b@, i as int, t, j) ==> r
            == Some((t, j as usize)),
{
    let ghost gi = i as int;
    let blen: usize = b.len();
    proof {
        assert(b@.len() == blen && b@.len() <= usize::MAX);
    }
    let lit1: [u8; 10] = [123, 34, 97, 109, 111, 117, 110, 116, 34, 58];
    let lit2: [u8; 18] = [
        44,
        34,
        100,
        101,
        115,
        116,
        105,
        110,
        97,
        116,
        105,
        111,
        110,
        34,
        58,
        34,
        48,
        120,
    ];
    let lit3: [u8; 10] = [34, 44, 34, 110, 111, 110, 99, 101, 34, 58];
    let lit4: [u8; 1] = [125];
    proof {
        assert(lit1@ =~= lit_amount());
        assert(lit2@ =~= lit_destination());
        assert(lit3@ =~= lit_nonce());
        assert(lit4@ =~= lit_close());
    }
    let j1 = match parse_lit(b, i, lit1.as_slice()) {
        Some(j) => j,
        None => {
            proof {
                assert forall|t: Transaction, j: int|
                    #[trigger] transaction_enc_at(b@, gi, t, j) implies false by {
                    lemma_transaction_enc_at_facts(b@, gi, t, j);
                }
            }
            return None;
        },
    };
    let r2 = parse_u64(b, j1);
    proof {
        assert forall|t: Transaction, j: int|
            #[trigger] transaction_enc_at(b@, gi, t, j) implies r2 == Some(
            (t.amount, (gi + 10 + dec_seq(t.amount as nat).len()) as usize),
        ) by {
            lemma_transaction_enc_at_facts(b@, gi, t, j);
            assert(dec_at(b@, j1 as int, t.amount, gi + 10 + dec_seq(t.amount as nat).len()));
        }
    }
    let (amount, j2) = match r2 {
        Some(p) => p,
        None => {
            return None;
        },
    };
    let r3 = parse_lit(b, j2, lit2.as_slice());
    proof {
        assert forall|t: Transaction, j: int|
            #[trigger] transaction_enc_at(b@, gi, t, j) implies r3 is Some && j2 as int == gi + 10
            + dec_seq(t.amount as nat).len() by {
            lemma_transaction_enc_at_facts(b@, gi, t, j);
            let la = dec_seq(t.amount as nat).len() as int;
            assert(dec_at(b@, j1 as int, t.amount, gi + 10 + la));
            assert(j2 as int == gi + 10 + la);
            assert(b@.subrange(j2 as int, j2 as int + 18) == lit2@);
            assert(j2 as int + 18 <= b@.len());
        }
    }
    let j3 = match r3 {
        Some(j) => j,
        None => {
            return None;
        },
    };
    let r4 = parse_hex(b, j3, 20);
    proof {
        assert forall|t: Transaction, j: int|
            #[trigger] transaction_enc_at(b@, gi, t, j) implies (r4 matches Some(v) && v@
            == t.destination.bytes@) by {
            lemma_transaction_enc_at_facts(b@, gi, t, j);
            let la = dec_seq(t.amount as nat).len() as int;
            assert(dec_at(b@, j1 as int, t.amount, gi + 10 + la));
            assert(j3 as int == gi + 28 + la);
            assert(hex_at(b@, j3 as int, 20, t.destination.bytes@));
        }
    }
    let dvec = match r4 {
        Some(v) => v,
        None => {
            return None;
        },
    };
    let j4 = j3 + 40;
    let r5 = parse_lit(b, j4, lit3.as_slice());
    proof {
        assert forall|t: Transaction, j: int|
            #[trigger] transaction_enc_at(b@, gi, t, j) implies r5 is Some by {
            lemma_transaction_enc_at_facts(b@, gi, t, j);
            let la = dec_seq(t.amount as nat).len() as int;
            assert(dec_at(b@, j1 as int, t.amount, gi + 10 + la));
            assert(j4 as int == gi + 68 + la);
            assert(b@.subrange(j4 as int, j4 as int + 10) == lit3@);
            assert(j4 as int + 10 <= b@.len());
        }
    }
    let j5 = match r5 {
        Some(j) => j,
        None => {
            return None;
        },
    };
    let r6 = parse_u64(b, j5);
    proof {
        assert forall|t: Transaction, j: int|
            #[trigger] transaction_enc_at(b@, gi, t, j) implies r6 == Some(
            (
                t.nonce,
                (gi + 78 + dec_seq(t.amount as nat).len() + dec_seq(t.nonce as nat).len()) as usize,
            ),
        ) by {
            lemma_transaction_enc_at_facts(b@, gi, t, j);
            let la = dec_seq(t.amount as nat).len() as int;
            let ln = dec_seq(t.nonce as nat).len() as int;
            assert(dec_at(b@, j1 as int, t.amount, gi + 10 + la));
            assert(j5 as int == gi + 78 + la);
            assert(dec_at(b@, j5 as int, t.nonce, gi + 78 + la + ln));
        }
    }
    let (nonce, j6) = match r6 {
        Some(p) => p,
        None => {
            return None;
        },
    };
    let r7 = parse_lit(b, j6, lit4.as_slice());
    proof {
        assert forall|t: Transaction, j: int|
            #[trigger] transaction_enc_at(b@, gi, t, j) implies r7 is Some by {
            lemma_transaction_enc_at_facts(b@, gi, t, j);
            let la = dec_seq(t.amount as nat).len() as int;
            let ln = dec_seq(t.nonce as nat).len() as int;
            assert(dec_at(b@, j1 as int, t.amount, gi + 10 + la));
            assert(dec_at(b@, j5 as int, t.nonce, gi + 78 + la + ln));
            assert(j6 as int == gi + 78 + la + ln);
            assert(b@.subrange(j6 as int, j6 as int + 1) == lit4@);
            assert(j6 as int + 1 <= b@.len());
        }
    }
    let j7 = match r7 {
        Some(j) => j,
        None => {
            return None;
        },
    };
    let out = Transaction { amount, destination: Address { bytes: vec_to_array::<20>(&dvec) }, nonce };
    proof {
        assert forall|t: Transaction, j: int|
            #[trigger] transaction_enc_at(b@, gi, t, j) implies Some((out, j7)) == Some::<
            (Transaction, usize),
        >((t, j as usize)) by {
            lemma_transaction_enc_at_facts(b@, gi, t, j);
            let la = dec_seq(t.amount as nat).len() as int;
            let ln = dec_seq(t.nonce as nat).len() as int;
            assert(dec_at(b@, j1 as int, t.amount, gi + 10 + la));
            assert(hex_at(b@, j3 as int, 20, t.destination.bytes@));
            assert(dec_at(b@, j5 as int, t.nonce, gi + 78 + la + ln));
            assert(j7 as int == gi + 79 + la + ln);
            assert(j7 as int == j);
            assert(out.destination.bytes@ == t.destination.bytes@);
            assert(out.destination.bytes =~= t.destination.bytes);
            assert(out =~= t);
        }
    }
    Some((out, j7))
}

impl Transaction {
    /// Canonically encodes this transaction; these are exactly the bytes that
    /// are signed and re-derived by the verifier, pinned byte for byte by
    /// `spec_transaction_encode`.
    pub fn encode(&self) -> (r: Vec<u8>)
        ensures
            r@ == spec_transaction_encode(*self),
    {
        let mut v: Vec<u8> = Vec::new();
        push_transaction(&mut v, self);
        proof {
            assert(v@ =~= spec_transaction_encode(*self));
        }
        v
    }
}

/// Reads one canonically encoded envelope at `i`. Wherever the canonical
/// encoding of some `x` stands at `i`, the parse yields exactly `x` and stops
/// exactly at its end.
#[verifier::rlimit(100)]
fn parse_signed(b: &[u8], i: usize) -> (r: Option<(SignedTransaction, usize)>)
    requires
        i <= b@.len(),
    ensures
        r matches Some(p) ==> i <= p.1 <= b@.len(),
        forall|x: SignedTransaction, j: int| #[trigger] signed_enc_at(b@, i as int, x, j) ==> r
            == Some((x, j as usize)),
{
    let ghost gi = i as int;
    let blen: usize = b.len();
    proof {
        assert(b@.len() == blen && b@.len() <= usize::MAX);
    }
    let lit1: [u8; 15] = [123, 34, 116, 114, 97, 110, 115, 97, 99, 116, 105, 111, 110, 34, 58];
    let lit2: [u8; 21] = [
        44,
        34,
        115,
        105,
        103,
        110,
        97,
        116,
        117,
        114,
        101,
        34,
        58,
        123,
        34,
        114,
        34,
        58,
        34,
        48,
        120,
    ];
    let lit3: [u8; 9] = [34, 44, 34, 115, 34, 58, 34, 48, 120];
    let lit4: [u8; 12] = [34, 44, 34, 121, 80, 97, 114, 105, 116, 121, 34, 58];
    let lit5: [u8; 2] = [125, 125];
    proof {
        assert(lit1@ =~= lit_transaction());
        assert(lit2@ =~= lit_sig_r());
        assert(lit3@ =~= lit_sig_s());
        assert(lit4@ =~= lit_sig_parity());
        assert(lit5@ =~= lit_sig_end());
    }
    let j1 = match parse_lit(b, i, lit1.as_slice()) {
        Some(j) => j,
        None => {
            proof {
                assert forall|x: SignedTransaction, j: int|
                    #[trigger] signed_enc_at(b@, gi, x, j) implies false by {
                    lemma_signed_enc_at_facts(b@, gi, x, j);
                }
            }
            return None;
        },
    };
    let r2 = parse_transaction(b, j1);
    proof {
        assert forall|x: SignedTransaction, j: int|
            #[trigger] signed_enc_at(b@, gi, x, j) implies r2 == Some(
            (
                x.transaction,
                (gi + 15 + spec_transaction_encode(x.transaction).len()) as usize,
            ),
        ) by {
            lemma_signed_enc_at_facts(b@, gi, x, j);
            assert(transaction_enc_at(
                b@,
                j1 as int,
                x.transaction,
                gi + 15 + spec_transaction_encode(x.transaction).len(),
            ));
        }
    }
    let (transaction, j2) = match r2 {
        Some(p) => p,
        None => {
            return None;
        },
    };
    let r3 = parse_lit(b, j2, lit2.as_slice());
    proof {
        assert forall|x: SignedTransaction, j: int|
            #[trigger] signed_enc_at(b@, gi, x, j) implies r3 is Some && j2 as int == gi + 15
            + spec_transaction_encode(x.transaction).len() by {
            lemma_signed_enc_at_facts(b@, gi, x, j);
            let lt = spec_transaction_encode(x.transaction).len() as int;
            assert(transaction_enc_at(b@, j1 as int, x.transaction, gi + 15 + lt));
            assert(j2 as int == gi + 15 + lt);
            assert(b@.subrange(j2 as int, j2 as int + 21) == lit2@);
            assert(j2 as int + 21 <= b@.len());
        }
    }
    let j3 = match r3 {
        Some(j) => j,
        None => {
            return None;
        },
    };
    let r4 = parse_hex(b, j3, 32);
    proof {
        assert forall|x: SignedTransaction, j: int|
            #[trigger] signed_enc_at(b@, gi, x, j) implies (r4 matches Some(v) && v@
            == x.signature.r@) by {
            lemma_signed_enc_at_facts(b@, gi, x, j);
            let lt = spec_transaction_encode(x.transaction).len() as int;
            assert(transaction_enc_at(b@, j1 as int, x.transaction, gi + 15 + lt));
            assert(j3 as int == gi + 36 + lt);
            assert(hex_at(b@, j3 as int, 32, x.signature.r@));
        }
    }
    let rvec = match r4 {
        Some(v) => v,
        None => {
            return None;
        },
    };
    let j4 = j3 + 64;
    let r5 = parse_lit(b, j4, lit3.as_slice());
    proof {
        assert forall|x: SignedTransaction, j: int|
            #[trigger] signed_enc_at(b@, gi, x, j) implies r5 is Some by {
            lemma_signed_enc_at_facts(b@, gi, x, j);
            let lt = spec_transaction_encode(x.transaction).len() as int;
            assert(transaction_enc_at(b@, j1 as int, x.transaction, gi + 15 + lt));
            assert(j4 as int == gi + 100 + lt);
            assert(b@.subrange(j4 as int, j4 as int + 9) == lit3@);
            assert(j4 as int + 9 <= b@.len());
        }
    }
    let j5 = match r5 {
        Some(j) => j,
        None => {
            return None;
        },
    };
    let r6 = parse_hex(b, j5, 32);
    proof {
        assert forall|x: SignedTransaction, j: int|
            #[trigger] signed_enc_at(b@, gi, x, j) implies (r6 matches Some(v) && v@
            == x.signature.s@) by {
            lemma_signed_enc_at_facts(b@, gi, x, j);
            let lt = spec_transaction_encode(x.transaction).len() as int;
            assert(transaction_enc_at(b@, j1 as int, x.transaction, gi + 15 + lt));
            assert(j5 as int == gi + 109 + lt);
            assert(hex_at(b@, j5 as int, 32, x.signature.s@));
        }
    }
    let svec = match r6 {
        Some(v) => v,
        None => {
            return None;
        },
    };
    let j6 = j5 + 64;
    let r7 = parse_lit(b, j6, lit4.as_slice());
    proof {
        assert forall|x: SignedTransaction, j: int|
            #[trigger] signed_enc_at(b@, gi, x, j) implies r7 is Some by {
            lemma_signed_enc_at_facts(b@, gi, x, j);
            let lt = spec_transaction_encode(x.transaction).len() as int;
            assert(transaction_enc_at(b@, j1 as int, x.transaction, gi + 15 + lt));
            assert(j6 as int == gi + 173 + lt);
            assert(b@.subrange(j6 as int, j6 as int + 12) == lit4@);
            assert(j6 as int + 12 <= b@.len());
        }
    }
    let j7 = match r7 {
        Some(j) => j,
        None => {
            return None;
        },
    };
    let r8 = parse_bool(b, j7);
    proof {
        assert forall|x: SignedTransaction, j: int|
            #[trigger] signed_enc_at(b@, gi, x, j) implies r8 == Some(
            (
                x.signature.y_parity,
                (gi + 185 + spec_transaction_encode(x.transaction).len() + bool_seq(
                    x.signature.y_parity,
                ).len()) as usize,
            ),
        ) by {
            lemma_signed_enc_at_facts(b@, gi, x, j);
            let lt = spec_transaction_encode(x.transaction).len() as int;
            let lb = bool_seq(x.signature.y_parity).len() as int;
            assert(transaction_enc_at(b@, j1 as int, x.transaction, gi + 15 + lt));
            assert(j7 as int == gi + 185 + lt);
            assert(bool_at(b@, j7 as int, x.signature.y_parity, gi + 185 + lt + lb));
        }
    }
    let (y_parity, j8) = match r8 {
        Some(p) => p,
        None => {
            return None;
        },
    };
    let r9 = parse_lit(b, j8, lit5.as_slice());
    proof {
        assert forall|x: SignedTransaction, j: int|
            #[trigger] signed_enc_at(b@, gi, x, j) implies r9 is Some by {
            lemma_signed_enc_at_facts(b@, gi, x, j);
            let lt = spec_transaction_encode(x.transaction).len() as int;
            let lb = bool_seq(x.signature.y_parity).len() as int;
            assert(transaction_enc_at(b@, j1 as int, x.transaction, gi + 15 + lt));
            assert(bool_at(b@, j7 as int, x.signature.y_parity, gi + 185 + lt + lb));
            assert(j8 as int == gi + 185 + lt + lb);
            assert(b@.subrange(j8 as int, j8 as int + 2) == lit5@);
            assert(j8 as int + 2 <= b@.len());
        }
    }
    let j9 = match r9 {
        Some(j) => j,
        None => {
            return None;
        },
    };
    let out = SignedTransaction {
        transaction,
        signature: Signature {
            r: vec_to_array::<32>(&rvec),
            s: vec_to_array::<32>(&svec),
            y_parity,
        },
    };
    proof {
        assert forall|x: SignedTransaction, j: int|
            #[trigger] signed_enc_at(b@, gi, x, j) implies Some((out, j9)) == Some::<
            (SignedTransaction, usize),
        >((x, j as usize)) by {
            lemma_signed_enc_at_facts(b@, gi, x, j);
            let lt = spec_transaction_encode(x.transaction).len() as int;
            let lb = bool_seq(x.signature.y_parity).len() as int;
            assert(transaction_enc_at(b@, j1 as int, x.transaction, gi + 15 + lt));
            assert(hex_at(b@, j3 as int, 32, x.signature.r@));
            assert(hex_at(b@, j5 as int, 32, x.signature.s@));
            assert(bool_at(b@, j7 as int, x.signature.y_parity, gi + 185 + lt + lb));
            assert(j9 as int == gi + 187 + lt + lb);
            assert(j9 as int == j);
            assert(out.signature.r@ == x.signature.r@);
            assert(out.signature.r =~= x.signature.r);
            assert(out.signature.s =~= x.signature.s);
            assert(out.signature =~= x.signature);
            assert(out =~= x);
        }
    }
    Some((out, j9))
}

impl SignedTransaction {
    /// Canonically encodes the envelope for wire transport, pinned byte for
    /// byte by `spec_signed_encode`.
    pub fn encode(&self) -> (r: Vec<u8>)
        ensures
            r@ == spec_signed_encode(*self),
    {
        let lit1: [u8; 15] = [123, 34, 116, 114, 97, 110, 115, 97, 99, 116, 105, 111, 110, 34, 58];
        let lit2: [u8; 21] = [
            44,
            34,
            115,
            105,
            103,
            110,
            97,
            116,
            117,
            114,
            101,
            34,
            58,
            123,
            34,
            114,
            34,
            58,
            34,
            48,
            120,
        ];
        let lit3: [u8; 9] = [34, 44, 34, 115, 34, 58, 34, 48, 120];
        let lit4: [u8; 12] = [34, 44, 34, 121, 80, 97, 114, 105, 116, 121, 34, 58];
        let lit5: [u8; 2] = [125, 125];
        proof {
            assert(lit1@ =~= lit_transaction());
            assert(lit2@ =~= lit_sig_r());
            assert(lit3@ =~= lit_sig_s());
            assert(lit4@ =~= lit_sig_parity());
            assert(lit5@ =~= lit_sig_end());
        }
        let mut v: Vec<u8> = Vec::new();
        push_slice(&mut v, lit1.as_slice());
        push_transaction(&mut v, &self.transaction);
        push_slice(&mut v, lit2.as_slice());
        push_hex(&mut v, self.signature.r.as_slice());
        push_slice(&mut v, lit3.as_slice());
        push_hex(&mut v, self.signature.s.as_slice());
        push_slice(&mut v, lit4.as_slice());
        push_bool(&mut v, self.signature.y_parity);
        push_slice(&mut v, lit5.as_slice());
        proof {
            reveal(spec_signed_encode);
            assert(v@ =~= spec_signed_encode(*self));
        }
        v
    }

    /// Parses the wire format. Exactly the canonical encodings are accepted:
    /// the bytes of any envelope decode back to it, and every other input —
    /// truncated, padded, or reshaped in any way — yields `None`.
    pub fn decode(bytes: &[u8]) -> (r: Option<SignedTransaction>)
        ensures
            r matches Some(x) ==> bytes@ == spec_signed_encode(x),
            forall|x: SignedTransaction| bytes@ == #[trigger] spec_signed_encode(x) ==> r == Some(
                x,
            ),
    {
        let (parsed, end) = match parse_signed(bytes, 0) {
            Some(p) => p,
            None => {
                proof {
                    assert forall|x: SignedTransaction|
                        bytes@ == #[trigger] spec_signed_encode(x) implies false by {
                        assert(bytes@.subrange(0, bytes@.len() as int) =~= bytes@);
                        assert(signed_enc_at(bytes@, 0, x, bytes@.len() as int));
                    }
                }
                return None;
            },
        };
        if end != bytes.len() {
            proof {
                assert forall|x: SignedTransaction|
                    bytes@ == #[trigger] spec_signed_encode(x) implies false by {
                    assert(bytes@.subrange(0, bytes@.len() as int) =~= bytes@);
                    assert(signed_enc_at(bytes@, 0, x, bytes@.len() as int));
                }
            }
            return None;
        }
        let re = parsed.encode();
        if slices_equal(re.as_slice(), bytes) {
            proof {
                assert forall|x: SignedTransaction|
                    bytes@ == #[trigger] spec_signed_encode(x) implies parsed == x by {
                    assert(bytes@.subrange(0, bytes@.len() as int) =~= bytes@);
                    assert(signed_enc_at(bytes@, 0, x, bytes@.len() as int));
                }
            }
            Some(parsed)
        } else {
            proof {
                assert forall|x: SignedTransaction|
                    bytes@ == #[trigger] spec_signed_encode(x) implies false by {
                    assert(bytes@.subrange(0, bytes@.len() as int) =~= bytes@);
                    assert(signed_enc_at(bytes@, 0, x, bytes@.len() as int));
                }
            }
            None
        }
    }

    /// Re-derives the canonical bytes of the embedded transaction and recovers
    /// the identity that signed exactly those bytes. Fails exactly when the
    /// embedded signature admits no recovery; it never judges whether the
    /// recovered identity is the expected one.
    pub fn recover(&self) -> (r: Result<Address, RecoveryError>)
        ensures
            ({
                let rec = ecrecover_msg(
                    self.signature.r@,
                    self.signature.s@,
                    self.signature.y_parity,
                    spec_transaction_encode(self.transaction),
                );
                match r {
                    Ok(a) => rec == Some(a.bytes@),
                    Err(e) => rec is None && e == RecoveryError::InvalidSignature,
                }
            }),
    {
        let msg = self.transaction.encode();
        match recover_address_raw(
            &self.signature.r,
            &self.signature.s,
            self.signature.y_parity,
            msg.as_slice(),
        ) {
            Ok(bytes) => Ok(Address { bytes }),
            Err(_) => Err(RecoveryError::InvalidSignature),
        }
    }
}

/// The canonical transaction encoding is lossless: two transactions share an
/// encoding only when they are equal. Contrapositively, altering the amount,
/// the destination, or the nonce of a signed transaction changes the very
/// bytes the signature was computed over.
pub proof fn lemma_transaction_encode_injective(t1: Transaction, t2: Transaction)
    ensures
        spec_transaction_encode(t1) == spec_transaction_encode(t2) ==> t1 == t2,
{
    if spec_transaction_encode(t1) == spec_transaction_encode(t2) {
        let e = spec_transaction_encode(t1);
        let a1 = dec_seq(t1.amount as nat);
        let a2 = dec_seq(t2.amount as nat);
        let n1 = dec_seq(t1.nonce as nat);
        let n2 = dec_seq(t2.nonce as nat);
        let la1 = a1.len() as int;
        let la2 = a2.len() as int;
        let ln1 = n1.len() as int;
        let ln2 = n2.len() as int;
        lemma_transaction_enc_parts(t1);
        lemma_transaction_enc_parts(t2);
        lemma_dec_seq_digits(t1.amount as nat);
        lemma_dec_seq_digits(t2.amount as nat);
        lemma_dec_seq_digits(t1.nonce as nat);
        lemma_dec_seq_digits(t2.nonce as nat);
        let len = e.len() as int;
        let u = e.subrange(10, len);
        let r1 = e.subrange(10 + la1, len);
        let r2 = e.subrange(10 + la2, len);
        assert(u =~= e.subrange(10, 10 + la1) + r1);
        assert(u =~= e.subrange(10, 10 + la2) + r2);
        assert(r1[0] == e.subrange(10 + la1, 28 + la1)[0]);
        assert(r2[0] == e.subrange(10 + la2, 28 + la2)[0]);
        lemma_digit_run_prefix(a1, r1, a2, r2);
        lemma_dec_seq_injective(t1.amount as nat, t2.amount as nat);
        assert(t1.amount == t2.amount);
        assert(la1 == la2);
        assert(e.subrange(28 + la1, 68 + la1) == hex_seq(t1.destination.bytes@));
        assert(e.subrange(28 + la1, 68 + la1) == hex_seq(t2.destination.bytes@));
        lemma_hex_seq_injective(t1.destination.bytes@, t2.destination.bytes@);
        assert(t1.destination.bytes =~= t2.destination.bytes);
        let v = e.subrange(78 + la1, len);
        let q1 = e.subrange(78 + la1 + ln1, len);
        let q2 = e.subrange(78 + la1 + ln2, len);
        assert(v =~= e.subrange(78 + la1, 78 + la1 + ln1) + q1);
        assert(v =~= e.subrange(78 + la1, 78 + la1 + ln2) + q2);
        assert(q1[0] == e.subrange(78 + la1 + ln1, 79 + la1 + ln1)[0]);
        assert(q2[0] == e.subrange(78 + la2 + ln2, 79 + la2 + ln2)[0]);
        lemma_digit_run_prefix(n1, q1, n2, q2);
        lemma_dec_seq_injective(t1.nonce as nat, t2.nonce as nat);
        assert(t1.nonce == t2.nonce);
        assert(t1 =~= t2);
    }
}

/// Equal envelope encodings carry equal embedded transactions.
#[verifier::rlimit(100)]
proof fn lemma_signed_encode_injective_transaction(x1: SignedTransaction, x2: SignedTransaction)
    requires
        spec_signed_encode(x1) == spec_signed_encode(x2),
    ensures
        x1.transaction == x2.transaction,
{
    let e = spec_signed_encode(x1);
    let len = e.len() as int;
    let tt1 = spec_transaction_encode(x1.transaction);
    let tt2 = spec_transaction_encode(x2.transaction);
    let lt1 = tt1.len() as int;
    let lt2 = tt2.len() as int;
    let a1 = dec_seq(x1.transaction.amount as nat);
    let a2 = dec_seq(x2.transaction.amount as nat);
    let n1 = dec_seq(x1.transaction.nonce as nat);
    let n2 = dec_seq(x2.transaction.nonce as nat);
    let la1 = a1.len() as int;
    let la2 = a2.len() as int;
    let ln1 = n1.len() as int;
    let ln2 = n2.len() as int;
    lemma_signed_enc_parts(x1);
    lemma_signed_enc_parts(x2);
    lemma_transaction_enc_parts(x1.transaction);
    lemma_transaction_enc_parts(x2.transaction);
    lemma_dec_seq_digits(x1.transaction.amount as nat);
    lemma_dec_seq_digits(x2.transaction.amount as nat);
    lemma_dec_seq_digits(x1.transaction.nonce as nat);
    lemma_dec_seq_digits(x2.transaction.nonce as nat);
    // The pieces of each embedded transaction, at envelope offsets.
    lemma_subrange_shift(e, 15, 15 + lt1, 10, 10 + la1);
    lemma_subrange_shift(e, 15, 15 + lt1, 10 + la1, 28 + la1);
    lemma_subrange_shift(e, 15, 15 + lt1, 28 + la1, 68 + la1);
    lemma_subrange_shift(e, 15, 15 + lt1, 78 + la1, 78 + la1 + ln1);
    lemma_subrange_shift(e, 15, 15 + lt1, 78 + la1 + ln1, 79 + la1 + ln1);
    lemma_subrange_shift(e, 15, 15 + lt2, 10, 10 + la2);
    lemma_subrange_shift(e, 15, 15 + lt2, 10 + la2, 28 + la2);
    lemma_subrange_shift(e, 15, 15 + lt2, 28 + la2, 68 + la2);
    lemma_subrange_shift(e, 15, 15 + lt2, 78 + la2, 78 + la2 + ln2);
    lemma_subrange_shift(e, 15, 15 + lt2, 78 + la2 + ln2, 79 + la2 + ln2);
    // The amount numerals of both envelopes start at offset 25, each followed
    // by the comma that opens the destination field.
    assert(e.subrange(25, 25 + la1) == a1);
    assert(e.subrange(25, 25 + la2) == a2);
    assert(e[25 + la1] == e.subrange(25 + la1, 43 + la1)[0]);
    assert(e[25 + la2] == e.subrange(25 + la2, 43 + la2)[0]);
    assert(e[25 + la1] == 44 && e[25 + la2] == 44);
    lemma_digit_run_at_unique(e, 25, a1, a2);
    lemma_dec_seq_injective(x1.transaction.amount as nat, x2.transaction.amount as nat);
    assert(x1.transaction.amount == x2.transaction.amount);
    assert(la1 == la2);
    // The destination digits of both envelopes run from offset 43 + la1.
    assert(e.subrange(43 + la1, 83 + la1) == hex_seq(x1.transaction.destination.bytes@));
    assert(e.subrange(43 + la1, 83 + la1) == hex_seq(x2.transaction.destination.bytes@));
    lemma_hex_seq_injective(
        x1.transaction.destination.bytes@,
        x2.transaction.destination.bytes@,
    );
    assert(x1.transaction.destination.bytes =~= x2.transaction.destination.bytes);
    // The nonce numerals of both envelopes start at offset 93 + la1, each
    // followed by the closing brace of the transaction object.
    assert(e.subrange(93 + la1, 93 + la1 + ln1) == n1);
    assert(e.subrange(93 + la1, 93 + la1 + ln2) == n2);
    assert(e[93 + la1 + ln1] == e.subrange(93 + la1 + ln1, 94 + la1 + ln1)[0]);
    assert(e[93 + la2 + ln2] == e.subrange(93 + la2 + ln2, 94 + la2 + ln2)[0]);
    assert(e[93 + la1 + ln1] == 125 && e[93 + la2 + ln2] == 125);
    lemma_digit_run_at_unique(e, 93 + la1, n1, n2);
    lemma_dec_seq_injective(x1.transaction.nonce as nat, x2.transaction.nonce as nat);
    assert(x1.transaction.nonce == x2.transaction.nonce);
    assert(x1.transaction =~= x2.transaction);
}

/// The canonical envelope encoding is lossless: two envelopes share an
/// encoding only when they are equal in every field. Together with the
/// contracts of `SignedTransaction::encode` and `SignedTransaction::decode`,
/// decoding the encoding of any envelope returns exactly that envelope.
#[verifier::rlimit(100)]
pub proof fn lemma_signed_encode_injective(x1: SignedTransaction, x2: SignedTransaction)
    ensures
        spec_signed_encode(x1) == spec_signed_encode(x2) ==> x1 == x2,
{
    if spec_signed_encode(x1) == spec_signed_encode(x2) {
        let e = spec_signed_encode(x1);
        let len = e.len() as int;
        let lt1 = spec_transaction_encode(x1.transaction).len() as int;
        let lt2 = spec_transaction_encode(x2.transaction).len() as int;
        lemma_signed_encode_injective_transaction(x1, x2);
        assert(lt1 == lt2);
        lemma_signed_enc_parts(x1);
        lemma_signed_enc_parts(x2);
        // The signature scalars sit at fixed offsets past the transaction.
        assert(e.subrange(36 + lt1, 100 + lt1) == hex_seq(x1.signature.r@));
        assert(e.subrange(36 + lt1, 100 + lt1) == hex_seq(x2.signature.r@));
        lemma_hex_seq_injective(x1.signature.r@, x2.signature.r@);
        assert(x1.signature.r =~= x2.signature.r);
        assert(e.subrange(109 + lt1, 173 + lt1) == hex_seq(x1.signature.s@));
        assert(e.subrange(109 + lt1, 173 + lt1) == hex_seq(x2.signature.s@));
        lemma_hex_seq_injective(x1.signature.s@, x2.signature.s@);
        assert(x1.signature.s =~= x2.signature.s);
        // The boolean literals have different lengths, and the total length
        // pins which one stands before the closing braces.
        assert(len == 187 + lt1 + bool_seq(x1.signature.y_parity).len());
        assert(len == 187 + lt2 + bool_seq(x2.signature.y_parity).len());
        assert(bool_seq(x1.signature.y_parity).len() == bool_seq(x2.signature.y_parity).len());
        assert(x1.signature.y_parity == x2.signature.y_parity);
        assert(x1.signature =~= x2.signature);
        assert(x1 =~= x2);
    }
}

} // verus!
