//! Byte-level building blocks of the canonical wire format: decimal numerals,
//! lowercase hexadecimal runs, boolean literals, and the fixed punctuation
//! between fields, each with an exact mathematical description.

use vstd::prelude::*;

verus! {

broadcast use vstd::array::group_array_axioms;

/// ASCII decimal digit.
pub open spec fn is_digit(c: u8) -> bool {
    48 <= c && c <= 57
}

/// Canonical decimal numeral of `n`: most significant digit first, no
/// leading zeros, and `0` itself written as one digit.
pub open spec fn dec_seq(n: nat) -> Seq<u8>
    decreases n,
{
    if n < 10 {
        seq![(48 + n) as u8]
    } else {
        dec_seq(n / 10).push((48 + n % 10) as u8)
    }
}

/// Numeric value of a run of ASCII digits, most significant first.
pub open spec fn dec_val(s: Seq<u8>) -> int
    decreases s.len(),
{
    if s.len() == 0 {
        0
    } else {
        dec_val(s.drop_last()) * 10 + (s.last() - 48)
    }
}

pub proof fn lemma_dec_seq_digits(n: nat)
    ensures
        dec_seq(n).len() >= 1,
        forall|i: int| 0 <= i < dec_seq(n).len() ==> is_digit(#[trigger] dec_seq(n)[i]),
    decreases n,
{
    if n >= 10 {
        lemma_dec_seq_digits(n / 10);
    }
}

/// Reading the canonical numeral of `n` back yields `n`.
pub proof fn lemma_dec_seq_val(n: nat)
    ensures
        dec_val(dec_seq(n)) == n,
    decreases n,
{
    if n < 10 {
        let s = dec_seq(n);
        assert(s == seq![(48 + n) as u8]);
        assert(s.len() == 1);
        assert(s.drop_last() =~= Seq::<u8>::empty());
        assert(dec_val(s.drop_last()) == 0);
        assert(s.last() == (48 + n) as u8);
        assert(48 + n < 256);
        assert((48 + n) as u8 == 48 + n);
        assert(dec_val(s) == 0 * 10 + ((48 + n) - 48));
    } else {
        lemma_dec_seq_val(n / 10);
        let s = dec_seq(n);
        assert(s == dec_seq(n / 10).push((48 + n % 10) as u8));
        assert(s.drop_last() =~= dec_seq(n / 10));
        assert(s.last() == (48 + n % 10) as u8);
        assert(n % 10 < 10);
        assert((48 + n % 10) as u8 == 48 + n % 10);
        assert(dec_val(s) == dec_val(dec_seq(n / 10)) * 10 + (48 + n % 10 - 48));
        assert(dec_val(s) == (n / 10) * 10 + n % 10);
        assert((n / 10) * 10 + n % 10 == n);
    }
}

pub proof fn lemma_dec_val_nonneg(s: Seq<u8>)
    requires
        forall|i: int| 0 <= i < s.len() ==> is_digit(#[trigger] s[i]),
    ensures
        dec_val(s) >= 0,
    decreases s.len(),
{
    if s.len() > 0 {
        lemma_dec_val_nonneg(s.drop_last());
    }
}

/// Appending further digits never shrinks the value of a digit run.
pub proof fn lemma_dec_val_extend(s: Seq<u8>, t: Seq<u8>)
    requires
        forall|i: int| 0 <= i < s.len() ==> is_digit(#[trigger] s[i]),
        forall|i: int| 0 <= i < t.len() ==> is_digit(#[trigger] t[i]),
    ensures
        dec_val(s) <= dec_val(s + t),
    decreases t.len(),
{
    if t.len() == 0 {
        assert(s + t =~= s);
    } else {
        lemma_dec_val_extend(s, t.drop_last());
        assert((s + t).drop_last() =~= s + t.drop_last());
        assert(forall|i: int|
            0 <= i < (s + t.drop_last()).len() ==> is_digit(#[trigger] (s + t.drop_last())[i]));
        lemma_dec_val_nonneg(s + t.drop_last());
        assert(dec_val(s + t) == dec_val(s + t.drop_last()) * 10 + ((s + t).last() - 48));
    }
}

/// Two equal-valued canonical numerals name the same number.
pub proof fn lemma_dec_seq_injective(a: nat, b: nat)
    requires
        dec_seq(a) == dec_seq(b),
    ensures
        a == b,
{
    lemma_dec_seq_val(a);
    lemma_dec_seq_val(b);
}

/// Lowercase hexadecimal digit for a value below 16.
pub open spec fn hex_digit(v: u8) -> u8 {
    if v < 10 {
        (48 + v) as u8
    } else {
        (87 + v) as u8
    }
}

/// Lowercase hexadecimal rendering of a byte string, two digits per byte.
pub open spec fn hex_seq(d: Seq<u8>) -> Seq<u8>
    decreases d.len(),
{
    if d.len() == 0 {
        Seq::<u8>::empty()
    } else {
        hex_seq(d.drop_last()) + seq![hex_digit(d.last() / 16), hex_digit(d.last() % 16)]
    }
}

pub proof fn lemma_hex_seq_len(d: Seq<u8>)
    ensures
        hex_seq(d).len() == 2 * d.len(),
    decreases d.len(),
{
    if d.len() > 0 {
        lemma_hex_seq_len(d.drop_last());
    }
}

pub proof fn lemma_hex_seq_index(d: Seq<u8>, k: int)
    requires
        0 <= k < d.len(),
    ensures
        hex_seq(d)[2 * k] == hex_digit(d[k] / 16),
        hex_seq(d)[2 * k + 1] == hex_digit(d[k] % 16),
    decreases d.len(),
{
    lemma_hex_seq_len(d.drop_last());
    if k == d.len() - 1 {
    } else {
        lemma_hex_seq_index(d.drop_last(), k);
    }
}

pub proof fn lemma_hex_digit_injective(a: u8, b: u8)
    requires
        a < 16,
        b < 16,
        hex_digit(a) == hex_digit(b),
    ensures
        a == b,
{
}

/// Equal hexadecimal renderings come from equal byte strings.
pub proof fn lemma_hex_seq_injective(d1: Seq<u8>, d2: Seq<u8>)
    requires
        hex_seq(d1) == hex_seq(d2),
    ensures
        d1 == d2,
{
    lemma_hex_seq_len(d1);
    lemma_hex_seq_len(d2);
    assert forall|k: int| 0 <= k < d1.len() implies d1[k] == d2[k] by {
        lemma_hex_seq_index(d1, k);
        lemma_hex_seq_index(d2, k);
        lemma_hex_digit_injective(d1[k] / 16, d2[k] / 16);
        lemma_hex_digit_injective(d1[k] % 16, d2[k] % 16);
        assert(d1[k] == 16 * (d1[k] / 16) + d1[k] % 16);
        assert(d2[k] == 16 * (d2[k] / 16) + d2[k] % 16);
    }
    assert(d1 =~= d2);
}

/// JSON boolean literal.
pub open spec fn bool_seq(p: bool) -> Seq<u8> {
    if p {
        seq![116u8, 114, 117, 101]
    } else {
        seq![102u8, 97, 108, 115, 101]
    }
}

// The fixed punctuation of the canonical wire format.
/// `{"amount":`
pub open spec fn lit_amount() -> Seq<u8> {
    seq![123u8, 34, 97, 109, 111, 117, 110, 116, 34, 58]
}

/// `,"destination":"0x`
pub open spec fn lit_destination() -> Seq<u8> {
    seq![44u8, 34, 100, 101, 115, 116, 105, 110, 97, 116, 105, 111, 110, 34, 58, 34, 48, 120]
}

/// `","nonce":`
pub open spec fn lit_nonce() -> Seq<u8> {
    seq![34u8, 44, 34, 110, 111, 110, 99, 101, 34, 58]
}

/// `}`
pub open spec fn lit_close() -> Seq<u8> {
    seq![125u8]
}

/// `{"transaction":`
pub open spec fn lit_transaction() -> Seq<u8> {
    seq![123u8, 34, 116, 114, 97, 110, 115, 97, 99, 116, 105, 111, 110, 34, 58]
}

/// `,"signature":{"r":"0x`
pub open spec fn lit_sig_r() -> Seq<u8> {
    seq![44u8, 34, 115, 105, 103, 110, 97, 116, 117, 114, 101, 34, 58, 123, 34, 114, 34, 58, 34, 48, 120]
}

/// `","s":"0x`
pub open spec fn lit_sig_s() -> Seq<u8> {
    seq![34u8, 44, 34, 115, 34, 58, 34, 48, 120]
}

/// `","yParity":`
pub open spec fn lit_sig_parity() -> Seq<u8> {
    seq![34u8, 44, 34, 121, 80, 97, 114, 105, 116, 121, 34, 58]
}

/// `}}`
pub open spec fn lit_sig_end() -> Seq<u8> {
    seq![125u8, 125]
}

/// The canonical numeral of `n` stands in `b` from `i` to `j`, delimited on
/// the right by the end of `b` or a non-digit.
pub open spec fn dec_at(b: Seq<u8>, i: int, n: u64, j: int) -> bool {
    &&& i + dec_seq(n as nat).len() == j
    &&& j <= b.len()
    &&& b.subrange(i, j) == dec_seq(n as nat)
    &&& j == b.len() || !is_digit(b[j])
}

/// The hexadecimal rendering of the `count` bytes `d` stands in `b` at `i`.
pub open spec fn hex_at(b: Seq<u8>, i: int, count: int, d: Seq<u8>) -> bool {
    &&& d.len() == count
    &&& i + 2 * count <= b.len()
    &&& b.subrange(i, i + 2 * count) == hex_seq(d)
}

/// The boolean literal for `p` stands in `b` from `i` to `j`.
pub open spec fn bool_at(b: Seq<u8>, i: int, p: bool, j: int) -> bool {
    &&& i + bool_seq(p).len() == j
    &&& j <= b.len()
    &&& b.subrange(i, j) == bool_seq(p)
}

/// A window of a window of a byte string is a window of it.
pub proof fn lemma_subrange_shift(b: Seq<u8>, i: int, j: int, a: int, c: int)
    requires
        0 <= i <= j <= b.len(),
        0 <= a <= c <= j - i,
    ensures
        b.subrange(i, j).subrange(a, c) == b.subrange(i + a, i + c),
{
    assert(b.subrange(i, j).subrange(a, c) =~= b.subrange(i + a, i + c));
}

/// A digit run delimited by a non-digit is read off a byte string in only
/// one way.
pub proof fn lemma_digit_run_prefix(s1: Seq<u8>, t1: Seq<u8>, s2: Seq<u8>, t2: Seq<u8>)
    requires
        s1 + t1 == s2 + t2,
        forall|i: int| 0 <= i < s1.len() ==> is_digit(#[trigger] s1[i]),
        forall|i: int| 0 <= i < s2.len() ==> is_digit(#[trigger] s2[i]),
        t1.len() > 0 && !is_digit(t1[0]),
        t2.len() > 0 && !is_digit(t2[0]),
    ensures
        s1 == s2,
        t1 == t2,
{
    if s1.len() < s2.len() {
        assert((s1 + t1)[s1.len() as int] == t1[0]);
        assert((s2 + t2)[s1.len() as int] == s2[s1.len() as int]);
        assert(false);
    }
    if s2.len() < s1.len() {
        assert((s2 + t2)[s2.len() as int] == t2[0]);
        assert((s1 + t1)[s2.len() as int] == s1[s2.len() as int]);
        assert(false);
    }
    assert(s1 =~= s2) by {
        assert forall|i: int| 0 <= i < s1.len() implies s1[i] == s2[i] by {
            assert((s1 + t1)[i] == s1[i]);
            assert((s2 + t2)[i] == s2[i]);
        }
    }
    assert(s1.len() == s2.len());
    assert((s1 + t1).len() == s1.len() + t1.len());
    assert((s2 + t2).len() == s2.len() + t2.len());
    assert((s1 + t1).len() == (s2 + t2).len());
    assert(t1.len() == t2.len());
    assert(t1 =~= t2) by {
        assert forall|i: int| 0 <= i < t1.len() implies t1[i] == t2[i] by {
            assert((s1 + t1)[s1.len() + i] == t1[i]);
            assert((s2 + t2)[s2.len() + i] == t2[i]);
        }
    }
}

/// Two digit runs that start at the same place in a byte string and are each
/// followed by a non-digit are the same run.
pub proof fn lemma_digit_run_at_unique(e: Seq<u8>, off: int, a1: Seq<u8>, a2: Seq<u8>)
    requires
        0 <= off <= e.len(),
        off + a1.len() < e.len(),
        off + a2.len() < e.len(),
        e.subrange(off, off + a1.len()) == a1,
        e.subrange(off, off + a2.len()) == a2,
        forall|i: int| 0 <= i < a1.len() ==> is_digit(#[trigger] a1[i]),
        forall|i: int| 0 <= i < a2.len() ==> is_digit(#[trigger] a2[i]),
        !is_digit(e[off + a1.len()]),
        !is_digit(e[off + a2.len()]),
    ensures
        a1 == a2,
{
    let len = e.len() as int;
    let r1 = e.subrange(off + a1.len(), len);
    let r2 = e.subrange(off + a2.len(), len);
    assert(e.subrange(off, len) =~= a1 + r1);
    assert(e.subrange(off, len) =~= a2 + r2);
    assert(r1[0] == e[off + a1.len()]);
    assert(r2[0] == e[off + a2.len()]);
    lemma_digit_run_prefix(a1, r1, a2, r2);
}

/// Appends a slice to an output buffer.
pub fn push_slice(v: &mut Vec<u8>, s: &[u8])
    ensures
        final(v)@ == old(v)@ + s@,
{
    let ghost start = v@;
    let mut i: usize = 0;
    while i < s.len()
        invariant
            i <= s@.len(),
            v@ == start + s@.subrange(0, i as int),
        decreases s@.len() - i,
    {
        v.push(s[i]);
        proof {
            assert(start + s@.subrange(0, i + 1) =~= (start + s@.subrange(0, i as int)).push(
                s@[i as int],
            ));
        }
        i += 1;
    }
    proof {
        assert(s@.subrange(0, s@.len() as int) =~= s@);
    }
}

/// Appends the canonical decimal numeral of `n`.
pub fn push_dec(v: &mut Vec<u8>, n: u64)
    ensures
        final(v)@ == old(v)@ + dec_seq(n as nat),
    decreases n,
{
    if n < 10 {
        v.push(48 + n as u8);
        proof {
            assert(old(v)@ + dec_seq(n as nat) =~= old(v)@.push((48 + n as nat) as u8));
        }
    } else {
        proof {
            assert(n as nat / 10 < n as nat) by (nonlinear_arith)
                requires
                    n >= 10,
            ;
        }
        push_dec(v, n / 10);
        v.push(48 + (n % 10) as u8);
        proof {
            assert((n / 10) as nat == n as nat / 10);
            assert((n % 10) as nat == n as nat % 10);
            assert(old(v)@ + dec_seq(n as nat) =~= (old(v)@ + dec_seq(n as nat / 10)).push(
                (48 + n as nat % 10) as u8,
            ));
        }
    }
}

/// Appends the lowercase hexadecimal rendering of `d`.
pub fn push_hex(v: &mut Vec<u8>, d: &[u8])
    ensures
        final(v)@ == old(v)@ + hex_seq(d@),
{
    let ghost start = v@;
    let mut i: usize = 0;
    while i < d.len()
        invariant
            i <= d@.len(),
            v@ == start + hex_seq(d@.subrange(0, i as int)),
        decreases d@.len() - i,
    {
        let b = d[i];
        let hi = b / 16;
        let lo = b % 16;
        v.push(if hi < 10 { 48 + hi } else { 87 + hi });
        v.push(if lo < 10 { 48 + lo } else { 87 + lo });
        proof {
            let pre = d@.subrange(0, i as int);
            let cur = d@.subrange(0, i + 1);
            assert(cur.drop_last() =~= pre);
            assert(cur.last() == d@[i as int]);
            assert(hex_seq(cur) == hex_seq(pre) + seq![
                hex_digit(d@[i as int] / 16),
                hex_digit(d@[i as int] % 16),
            ]);
            assert(start + hex_seq(cur) =~= (start + hex_seq(pre)).push(hex_digit(b / 16)).push(
                hex_digit(b % 16),
            ));
        }
        i += 1;
    }
    proof {
        assert(d@.subrange(0, d@.len() as int) =~= d@);
    }
}

/// Appends the JSON boolean literal for `p`.
pub fn push_bool(v: &mut Vec<u8>, p: bool)
    ensures
        final(v)@ == old(v)@ + bool_seq(p),
{
    if p {
        v.push(116);
        v.push(114);
        v.push(117);
        v.push(101);
    } else {
        v.push(102);
        v.push(97);
        v.push(108);
        v.push(115);
        v.push(101);
    }
    proof {
        assert(old(v)@ + bool_seq(p) =~= v@);
    }
}

/// Copies a vector of known length into a fixed-width array.
pub fn vec_to_array<const N: usize>(v: &Vec<u8>) -> (r: [u8; N])
    requires
        v@.len() == N,
    ensures
        r@ == v@,
{
    let mut a: [u8; N] = [0u8; N];
    let mut q: usize = 0;
    while q < N
        invariant
            v@.len() == N,
            q <= N,
            forall|m: int| 0 <= m < q ==> a@[m] == v@[m],
        decreases N - q,
    {
        a[q] = v[q];
        q += 1;
    }
    proof {
        assert(a@ =~= v@);
    }
    a
}

/// Whether the two byte strings hold the same bytes.
pub fn slices_equal(a: &[u8], b: &[u8]) -> (r: bool)
    ensures
        r <==> a@ == b@,
{
    if a.len() != b.len() {
        return false;
    }
    let mut k: usize = 0;
    while k < a.len()
        invariant
            a@.len() == b@.len(),
            k <= a@.len(),
            forall|m: int| 0 <= m < k ==> a@[m] == b@[m],
        decreases a@.len() - k,
    {
        if a[k] != b[k] {
            return false;
        }
        k += 1;
    }
    proof {
        assert(a@ =~= b@);
    }
    true
}

/// Reads the exact byte string `lit` at position `i`; succeeds if and only
/// if it stands there whole.
pub fn parse_lit(b: &[u8], i: usize, lit: &[u8]) -> (r: Option<usize>)
    requires
        i <= b@.len(),
    ensures
        r matches Some(j) ==> i + lit@.len() == j && j <= b@.len() && b@.subrange(
            i as int,
            j as int,
        ) == lit@,
        i + lit@.len() <= b@.len() && b@.subrange(i as int, i + lit@.len()) == lit@ ==> r is Some,
{
    if b.len() - i < lit.len() {
        return None;
    }
    let mut k: usize = 0;
    while k < lit.len()
        invariant
            b@.len() <= usize::MAX,
            i + lit@.len() <= b@.len(),
            k <= lit@.len(),
            forall|m: int| 0 <= m < k ==> b@[i + m] == lit@[m],
        decreases lit@.len() - k,
    {
        if b[i + k] != lit[k] {
            proof {
                if b@.subrange(i as int, i + lit@.len()) == lit@ {
                    assert(b@.subrange(i as int, i + lit@.len())[k as int] == b@[i + k]);
                    assert(false);
                }
            }
            return None;
        }
        k += 1;
    }
    proof {
        assert(b@.subrange(i as int, i + lit@.len()) =~= lit@);
    }
    Some(i + lit.len())
}

/// Reads a run of decimal digits at `i` into a 64-bit number. Wherever the
/// canonical numeral of some `n` stands at `i`, delimited by a non-digit or
/// the end, the run read is exactly that numeral and the value is `n`.
pub fn parse_u64(b: &[u8], i: usize) -> (r: Option<(u64, usize)>)
    requires
        i <= b@.len(),
    ensures
        r matches Some(p) ==> i < p.1 <= b@.len(),
        forall|n: u64, j: int| #[trigger] dec_at(b@, i as int, n, j) ==> r == Some((n, j as usize)),
{
    let ghost gi = i as int;
    let mut j: usize = i;
    let mut acc: u64 = 0;
    while j < b.len() && 48 <= b[j] && b[j] <= 57
        invariant
            gi <= j <= b@.len(),
            i == gi,
            forall|m: int| gi <= m < j ==> is_digit(#[trigger] b@[m]),
            acc == dec_val(b@.subrange(gi, j as int)),
        decreases b@.len() - j,
    {
        let d = b[j] - 48;
        if acc > (u64::MAX - d as u64) / 10 {
            // The next digit would overflow 64 bits, so no 64-bit numeral
            // delimited to the right of here stands at `i`.
            proof {
                assert forall|n: u64, jj: int| #[trigger] dec_at(b@, gi, n, jj) implies false by {
                    lemma_dec_seq_digits(n as nat);
                    assert forall|m: int| gi <= m < jj implies is_digit(#[trigger] b@[m]) by {
                        assert(b@.subrange(gi, jj)[m - gi] == b@[m]);
                        assert(is_digit(dec_seq(n as nat)[m - gi]));
                    }
                    if jj <= j {
                        assert(jj < b@.len());
                        assert(!is_digit(b@[jj]));
                        if jj < j {
                            assert(is_digit(b@[jj]));
                        } else {
                            assert(is_digit(b@[j as int]));
                        }
                        assert(false);
                    }
                    let pre = b@.subrange(gi, j + 1);
                    let post = b@.subrange(j + 1, jj);
                    assert(pre + post =~= b@.subrange(gi, jj));
                    assert(forall|m: int| 0 <= m < pre.len() ==> #[trigger] pre[m] == b@[gi + m]);
                    assert(forall|m: int|
                        0 <= m < post.len() ==> #[trigger] post[m] == b@[j + 1 + m]);
                    lemma_dec_val_extend(pre, post);
                    assert(pre.drop_last() =~= b@.subrange(gi, j as int));
                    assert(pre.last() == b@[j as int]);
                    assert(dec_val(pre) == acc * 10 + d);
                    lemma_dec_seq_val(n as nat);
                    assert(dec_val(pre + post) == n);
                    assert(acc * 10 + d <= n);
                    assert(acc * 10 + d > u64::MAX) by (nonlinear_arith)
                        requires
                            acc > (u64::MAX - d as u64) / 10,
                            d <= 9,
                    ;
                    assert(false);
                }
            }
            return None;
        }
        acc = acc * 10 + d as u64;
        j += 1;
        proof {
            let pre = b@.subrange(gi, j as int);
            assert(pre.drop_last() =~= b@.subrange(gi, j - 1));
            assert(acc == dec_val(pre));
        }
    }
    if j == i {
        // No digit stands at `i`, so no numeral does.
        proof {
            assert forall|n: u64, jj: int| #[trigger] dec_at(b@, gi, n, jj) implies false by {
                lemma_dec_seq_digits(n as nat);
                assert(b@.subrange(gi, jj)[0] == b@[gi]);
                assert(is_digit(b@[gi]));
            }
        }
        return None;
    }
    proof {
        assert forall|n: u64, jj: int| #[trigger] dec_at(b@, gi, n, jj) implies acc == n && jj
            == j by {
            lemma_dec_seq_digits(n as nat);
            assert forall|m: int| gi <= m < jj implies is_digit(#[trigger] b@[m]) by {
                assert(b@.subrange(gi, jj)[m - gi] == b@[m]);
                assert(is_digit(dec_seq(n as nat)[m - gi]));
            }
            if jj < j {
                assert(!is_digit(b@[jj]));
                assert(is_digit(b@[jj]));
                assert(false);
            }
            if j < jj {
                assert(is_digit(b@[j as int]));
                assert(j == b@.len() || !is_digit(b@[j as int]));
                assert(false);
            }
            assert(b@.subrange(gi, j as int) == dec_seq(n as nat));
            lemma_dec_seq_val(n as nat);
        }
    }
    Some((acc, j))
}

/// Converts one lowercase hexadecimal digit to its value; succeeds if and
/// only if the byte is such a digit.
fn hex_val(c: u8) -> (r: Option<u8>)
    ensures
        r matches Some(v) ==> v < 16 && c == hex_digit(v),
        forall|v: u8| v < 16 && c == hex_digit(v) ==> r == Some(v),
{
    if 48 <= c && c <= 57 {
        Some(c - 48)
    } else if 97 <= c && c <= 102 {
        Some(c - 87)
    } else {
        None
    }
}

/// Reads `2 * count` lowercase hexadecimal digits at `i` into `count` bytes.
/// Wherever the rendering of some byte string `d` stands at `i`, the bytes
/// read are exactly `d`.
pub fn parse_hex(b: &[u8], i: usize, count: usize) -> (r: Option<Vec<u8>>)
    requires
        i <= b@.len(),
    ensures
        r matches Some(v) ==> v@.len() == count && i + 2 * count <= b@.len(),
        forall|d: Seq<u8>| #[trigger] hex_at(b@, i as int, count as int, d) ==> (r matches Some(v)
            && v@ == d),
{
    let ghost gi = i as int;
    if (b.len() - i) / 2 < count {
        proof {
            assert forall|d: Seq<u8>| #[trigger] hex_at(b@, gi, count as int, d) implies false by {
                assert(2 * count <= b@.len() - gi);
            }
        }
        return None;
    }
    proof {
        assert(gi + 2 * count <= b@.len()) by (nonlinear_arith)
            requires
                (b@.len() - gi) / 2 >= count,
                gi <= b@.len(),
        ;
    }
    let mut out: Vec<u8> = Vec::new();
    let mut k: usize = 0;
    while k < count
        invariant
            b@.len() <= usize::MAX,
            gi + 2 * count <= b@.len(),
            i == gi,
            i <= b@.len(),
            k <= count,
            out@.len() == k,
            forall|d: Seq<u8>| #[trigger] hex_at(b@, gi, count as int, d) ==> out@ == d.subrange(
                0,
                k as int,
            ),
        decreases count - k,
    {
        let ghost out_pre = out@;
        let hi = match hex_val(b[i + 2 * k]) {
            Some(x) => x,
            None => {
                proof {
                    assert forall|d: Seq<u8>|
                        #[trigger] hex_at(b@, gi, count as int, d) implies false by {
                        lemma_hex_seq_index(d, k as int);
                        assert(b@.subrange(gi, gi + 2 * count)[2 * k] == b@[gi + 2 * k]);
                        assert(b@[gi + 2 * k] == hex_digit(d[k as int] / 16));
                    }
                }
                return None;
            },
        };
        let lo = match hex_val(b[i + 2 * k + 1]) {
            Some(x) => x,
            None => {
                proof {
                    assert forall|d: Seq<u8>|
                        #[trigger] hex_at(b@, gi, count as int, d) implies false by {
                        lemma_hex_seq_index(d, k as int);
                        assert(b@.subrange(gi, gi + 2 * count)[2 * k + 1] == b@[gi + 2 * k + 1]);
                        assert(b@[gi + 2 * k + 1] == hex_digit(d[k as int] % 16));
                    }
                }
                return None;
            },
        };
        out.push(hi * 16 + lo);
        proof {
            assert forall|d: Seq<u8>| #[trigger] hex_at(b@, gi, count as int, d) implies out@
                == d.subrange(0, k + 1) by {
                lemma_hex_seq_index(d, k as int);
                assert(b@.subrange(gi, gi + 2 * count)[2 * k] == b@[gi + 2 * k]);
                assert(b@.subrange(gi, gi + 2 * count)[2 * k + 1] == b@[gi + 2 * k + 1]);
                lemma_hex_digit_injective(hi, d[k as int] / 16);
                lemma_hex_digit_injective(lo, d[k as int] % 16);
                assert(d[k as int] == 16 * (d[k as int] / 16) + d[k as int] % 16);
                assert(out_pre == d.subrange(0, k as int));
                assert(out@ =~= d.subrange(0, k + 1));
            }
        }
        k += 1;
    }
    proof {
        assert(forall|d: Seq<u8>|
            #[trigger] hex_at(b@, gi, count as int, d) ==> out@ == d.subrange(0, count as int)
                && out@ == d);
    }
    Some(out)
}

/// Reads a boolean literal at `i`; wherever the literal for `p` stands at
/// `i`, the value read is `p`.
pub fn parse_bool(b: &[u8], i: usize) -> (r: Option<(bool, usize)>)
    requires
        i <= b@.len(),
    ensures
        r matches Some(p) ==> i < p.1 <= b@.len(),
        forall|p: bool, j: int| #[trigger] bool_at(b@, i as int, p, j) ==> r == Some((
            p,
            j as usize,
        )),
{
    let t_lit: [u8; 4] = [116, 114, 117, 101];
    let f_lit: [u8; 5] = [102, 97, 108, 115, 101];
    proof {
        assert(t_lit@ =~= bool_seq(true));
        assert(f_lit@ =~= bool_seq(false));
    }
    match parse_lit(b, i, t_lit.as_slice()) {
        Some(j) => {
            proof {
                assert forall|p: bool, jj: int| #[trigger] bool_at(b@, i as int, p, jj) implies (
                p, jj as usize) == (true, j) by {
                    if !p {
                        assert(b@.subrange(i as int, jj)[0] == b@[i as int]);
                        assert(b@.subrange(i as int, j as int)[0] == b@[i as int]);
                        assert(false);
                    }
                }
            }
            Some((true, j))
        },
        None => {
            match parse_lit(b, i, f_lit.as_slice()) {
                Some(j) => {
                    proof {
                        assert forall|p: bool, jj: int|
                            #[trigger] bool_at(b@, i as int, p, jj) implies (p, jj as usize) == (
                        false, j) by {
                            if p {
                                assert(b@.subrange(i as int, jj) == bool_seq(true));
                                assert(b@.subrange(i as int, i + 4) =~= b@.subrange(i as int, jj));
                            }
                        }
                    }
                    Some((false, j))
                },
                None => {
                    proof {
                        assert forall|p: bool, jj: int|
                            #[trigger] bool_at(b@, i as int, p, jj) implies false by {
                            assert(b@.subrange(i as int, jj) == bool_seq(p));
                            if p {
                                assert(b@.subrange(i as int, i + 4) =~= b@.subrange(i as int, jj));
                            } else {
                                assert(b@.subrange(i as int, i + 5) =~= b@.subrange(i as int, jj));
                            }
                        }
                    }
                    None
                },
            }
        },
    }
}

} // verus!
