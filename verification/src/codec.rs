//! Serialization of the public-instance tensor.
//!
//! Public instances are a rank-3 numeric tensor (circuit, column, element),
//! serialized as JSON with every element order preserved exactly: verifiers
//! bind proofs to instances positionally. Each field element appears as an
//! array of its four decimal limbs; the encoding is canonical (no spaces,
//! no leading zeros), and the deserializer accepts exactly the canonical
//! form, so the two are mutually inverse: a parsed tensor re-serializes
//! to its input bytes, and a serialized tensor parses back to itself.

use vstd::prelude::*;
use crate::artifacts::{Fr, mat_view, tensor_view};

verus! {

pub const LBRACK: u8 = 91;
pub const RBRACK: u8 = 93;
pub const COMMA: u8 = 44;

/// The ASCII digit for one decimal place.
pub open spec fn dec_digit(d: int) -> u8 {
    (48 + d) as u8
}

/// The canonical decimal digits of `n`: most significant first, no leading
/// zeros.
pub open spec fn dec_of(n: nat) -> Seq<u8>
    decreases n,
{
    if n < 10 {
        seq![dec_digit(n as int)]
    } else {
        dec_of(n / 10).push(dec_digit((n % 10) as int))
    }
}

/// An ASCII decimal digit.
spec fn is_digit(c: u8) -> bool {
    48 <= c <= 57
}

/// A byte string that cannot continue a decimal number.
spec fn non_digit_start(s: Seq<u8>) -> bool {
    s.len() == 0 || !is_digit(s[0])
}

/// Every byte of a canonical decimal is a digit.
proof fn lemma_dec_of_digits(n: nat)
    ensures
        forall|i: int| 0 <= i < dec_of(n).len() ==> is_digit(#[trigger] dec_of(n)[i]),
    decreases n,
{
    if n < 10 {
        assert(dec_of(n) == seq![dec_digit(n as int)]);
        assert(dec_of(n)[0] == dec_digit(n as int));
        assert(is_digit(dec_digit(n as int)));
    } else {
        lemma_dec_of_digits(n / 10);
        let prefix = dec_of(n / 10);
        let last = dec_digit((n % 10) as int);
        assert(dec_of(n) == prefix.push(last));
        assert(is_digit(last));
        assert forall|i: int| 0 <= i < dec_of(n).len() implies is_digit(#[trigger] dec_of(n)[i]) by {
            if i < prefix.len() {
                assert(dec_of(n)[i] == prefix[i]);
            } else {
                assert(dec_of(n)[i] == last);
            }
        }
    }
}

/// The numeric value of a digit string.
spec fn val_of(s: Seq<u8>) -> int
    decreases s.len(),
{
    if s.len() == 0 {
        0
    } else {
        val_of(s.drop_last()) * 10 + (s.last() - 48)
    }
}

/// Reading back the canonical decimal of `n` yields `n`.
proof fn lemma_val_dec(n: nat)
    ensures
        val_of(dec_of(n)) == n,
    decreases n,
{
    if n < 10 {
        let s = dec_of(n);
        assert(s == seq![dec_digit(n as int)]);
        assert(s.len() == 1);
        assert(s.drop_last() =~= Seq::<u8>::empty());
        assert(val_of(s.drop_last()) == 0);
        assert(s.last() == dec_digit(n as int));
        assert(dec_digit(n as int) == 48 + n);
        assert(val_of(s) == val_of(s.drop_last()) * 10 + (s.last() - 48));
    } else {
        lemma_val_dec(n / 10);
        let s = dec_of(n);
        let last = dec_digit((n % 10) as int);
        assert(s == dec_of(n / 10).push(last));
        assert(s.drop_last() =~= dec_of(n / 10));
        assert(s.last() == last);
        assert(last == 48 + n % 10);
        assert(val_of(s) == val_of(s.drop_last()) * 10 + (s.last() - 48));
        assert(val_of(s) == (n / 10) * 10 + n % 10);
    }
}

/// Canonical decimals are injective.
proof fn lemma_dec_of_injective(a: nat, b: nat)
    requires
        dec_of(a) == dec_of(b),
    ensures
        a == b,
{
    lemma_val_dec(a);
    lemma_val_dec(b);
}

/// The leading digit of a positive canonical decimal is not zero.
proof fn lemma_dec_of_leading(n: nat)
    requires
        n >= 1,
    ensures
        dec_of(n)[0] != 48,
    decreases n,
{
    if n >= 10 {
        lemma_dec_of_leading(n / 10);
        assert(dec_of(n)[0] == dec_of(n / 10)[0]);
    }
}

/// Digit strings have non-negative values.
proof fn lemma_val_nonneg(s: Seq<u8>)
    requires
        forall|i: int| 0 <= i < s.len() ==> is_digit(#[trigger] s[i]),
    ensures
        val_of(s) >= 0,
    decreases s.len(),
{
    if s.len() > 0 {
        assert(forall|i: int|
            0 <= i < s.drop_last().len() ==> #[trigger] s.drop_last()[i] == s[i]);
        lemma_val_nonneg(s.drop_last());
    }
}

/// The value of a prefix of a digit string never exceeds the whole value.
proof fn lemma_val_prefix(s: Seq<u8>, k: int)
    requires
        forall|i: int| 0 <= i < s.len() ==> is_digit(#[trigger] s[i]),
        0 <= k <= s.len(),
    ensures
        val_of(s.take(k)) <= val_of(s),
    decreases s.len() - k,
{
    if k == s.len() {
        assert(s.take(k) =~= s);
    } else {
        assert(s.take(k + 1).drop_last() =~= s.take(k));
        assert(s.take(k + 1).last() == s[k]);
        assert(forall|i: int| 0 <= i < s.take(k).len() ==> is_digit(#[trigger] s.take(k)[i]));
        lemma_val_nonneg(s.take(k));
        assert(val_of(s.take(k + 1)) == val_of(s.take(k)) * 10 + (s[k] - 48));
        lemma_val_prefix(s, k + 1);
    }
}

/// A canonical decimal followed by a non-digit decodes uniquely: equal
/// byte strings split at the number boundary in exactly one way.
proof fn lemma_dec_unique_decode(a: nat, b: nat, r1: Seq<u8>, r2: Seq<u8>)
    requires
        dec_of(a) + r1 == dec_of(b) + r2,
        non_digit_start(r1),
        non_digit_start(r2),
    ensures
        a == b,
        r1 == r2,
{
    let la = dec_of(a).len() as int;
    let lb = dec_of(b).len() as int;
    lemma_dec_of_digits(a);
    lemma_dec_of_digits(b);
    assert((dec_of(a) + r1).len() == la + r1.len());
    assert((dec_of(b) + r2).len() == lb + r2.len());
    if la < lb {
        // r1 would have to start with the next digit of dec_of(b)
        assert(r1.len() > 0);
        assert(r1[0] == (dec_of(a) + r1)[la]);
        assert((dec_of(b) + r2)[la] == dec_of(b)[la]);
        assert(is_digit(dec_of(b)[la]));
        assert(false);
    } else if lb < la {
        assert(r2.len() > 0);
        assert(r2[0] == (dec_of(b) + r2)[lb]);
        assert((dec_of(a) + r1)[lb] == dec_of(a)[lb]);
        assert(is_digit(dec_of(a)[lb]));
        assert(false);
    } else {
        assert(dec_of(a) =~= dec_of(b)) by {
            assert(forall|i: int|
                0 <= i < la ==> (dec_of(a) + r1)[i] == dec_of(a)[i] && (dec_of(b) + r2)[i]
                    == dec_of(b)[i]);
        }
        lemma_dec_of_injective(a, b);
        assert(r1 =~= r2) by {
            assert(forall|i: int|
                0 <= i < r1.len() ==> (dec_of(a) + r1)[la + i] == r1[i] && (dec_of(b) + r2)[la + i]
                    == r2[i]);
        }
    }
}

/// One field element: a JSON array of its four limbs, least significant
/// first.
pub open spec fn json_of_fr(f: Fr) -> Seq<u8> {
    seq![LBRACK] + dec_of(f.l0 as nat) + seq![COMMA] + dec_of(f.l1 as nat) + seq![COMMA]
        + dec_of(f.l2 as nat) + seq![COMMA] + dec_of(f.l3 as nat) + seq![RBRACK]
}

/// Equal byte strings with an equal prefix have equal suffixes.
proof fn lemma_append_cancel(x: Seq<u8>, y: Seq<u8>, z: Seq<u8>)
    requires
        x + y == x + z,
    ensures
        y == z,
{
    assert((x + y).len() == x.len() + y.len());
    assert((x + z).len() == x.len() + z.len());
    assert(y =~= z) by {
        assert(forall|i: int|
            0 <= i < y.len() ==> y[i] == (x + y)[x.len() + i] && z[i] == (x + z)[x.len() + i]);
    }
}

/// A field-element encoding decodes uniquely: equal byte strings starting
/// with element encodings carry equal elements and equal remainders.
#[verifier::rlimit(100)]
proof fn lemma_fr_unique_decode(f1: Fr, f2: Fr, r1: Seq<u8>, r2: Seq<u8>)
    requires
        json_of_fr(f1) + r1 == json_of_fr(f2) + r2,
    ensures
        f1 == f2,
        r1 == r2,
{
    let t3a = seq![RBRACK] + r1;
    let t2a = seq![COMMA] + (dec_of(f1.l3 as nat) + t3a);
    let t1a = seq![COMMA] + (dec_of(f1.l2 as nat) + t2a);
    let t0a = seq![COMMA] + (dec_of(f1.l1 as nat) + t1a);
    let t3b = seq![RBRACK] + r2;
    let t2b = seq![COMMA] + (dec_of(f2.l3 as nat) + t3b);
    let t1b = seq![COMMA] + (dec_of(f2.l2 as nat) + t2b);
    let t0b = seq![COMMA] + (dec_of(f2.l1 as nat) + t1b);
    assert(json_of_fr(f1) + r1 =~= seq![LBRACK] + (dec_of(f1.l0 as nat) + t0a));
    assert(json_of_fr(f2) + r2 =~= seq![LBRACK] + (dec_of(f2.l0 as nat) + t0b));
    lemma_append_cancel(seq![LBRACK], dec_of(f1.l0 as nat) + t0a, dec_of(f2.l0 as nat) + t0b);
    assert(t0a[0] == COMMA && t0b[0] == COMMA);
    lemma_dec_unique_decode(f1.l0 as nat, f2.l0 as nat, t0a, t0b);
    lemma_append_cancel(seq![COMMA], dec_of(f1.l1 as nat) + t1a, dec_of(f2.l1 as nat) + t1b);
    assert(t1a[0] == COMMA && t1b[0] == COMMA);
    lemma_dec_unique_decode(f1.l1 as nat, f2.l1 as nat, t1a, t1b);
    lemma_append_cancel(seq![COMMA], dec_of(f1.l2 as nat) + t2a, dec_of(f2.l2 as nat) + t2b);
    assert(t2a[0] == COMMA && t2b[0] == COMMA);
    lemma_dec_unique_decode(f1.l2 as nat, f2.l2 as nat, t2a, t2b);
    lemma_append_cancel(seq![COMMA], dec_of(f1.l3 as nat) + t3a, dec_of(f2.l3 as nat) + t3b);
    assert(t3a[0] == RBRACK && t3b[0] == RBRACK);
    lemma_dec_unique_decode(f1.l3 as nat, f2.l3 as nat, t3a, t3b);
    lemma_append_cancel(seq![RBRACK], r1, r2);
}

/// The comma-separated elements of one instance column.
pub open spec fn json_of_row_items(r: Seq<Fr>) -> Seq<u8>
    decreases r.len(),
{
    if r.len() == 0 {
        Seq::empty()
    } else if r.len() == 1 {
        json_of_fr(r[0])
    } else {
        json_of_row_items(r.drop_last()) + seq![COMMA] + json_of_fr(r.last())
    }
}

/// One instance column as a JSON array.
pub open spec fn json_of_row(r: Seq<Fr>) -> Seq<u8> {
    seq![LBRACK] + json_of_row_items(r) + seq![RBRACK]
}

/// Front form of the column items: the first element, then the rest.
proof fn lemma_row_items_first(r: Seq<Fr>)
    requires
        r.len() > 0,
    ensures
        r.len() == 1 ==> json_of_row_items(r) == json_of_fr(r[0]),
        r.len() > 1 ==> json_of_row_items(r) == json_of_fr(r[0]) + (seq![COMMA]
            + json_of_row_items(r.drop_first())),
    decreases r.len(),
{
    if r.len() > 1 {
        let dl = r.drop_last();
        lemma_row_items_first(dl);
        if r.len() == 2 {
            assert(dl =~= seq![r[0]]);
            assert(r.drop_first() =~= seq![r[1]]);
            assert(json_of_row_items(r) == json_of_row_items(dl) + seq![COMMA]
                + json_of_fr(r.last()));
            assert(json_of_row_items(r) =~= json_of_fr(r[0]) + (seq![COMMA]
                + json_of_row_items(r.drop_first())));
        } else {
            let rdf = r.drop_first();
            assert(dl.drop_first() =~= rdf.drop_last());
            assert(dl[0] == r[0]);
            assert(rdf.last() == r.last());
            assert(json_of_row_items(rdf) == json_of_row_items(rdf.drop_last()) + seq![COMMA]
                + json_of_fr(rdf.last()));
            assert(json_of_row_items(r) == json_of_row_items(dl) + seq![COMMA]
                + json_of_fr(r.last()));
            assert(json_of_row_items(dl) == json_of_fr(r[0]) + (seq![COMMA]
                + json_of_row_items(rdf.drop_last())));
            assert(json_of_row_items(r) =~= json_of_fr(r[0]) + (seq![COMMA]
                + json_of_row_items(rdf)));
        }
    }
}

/// Column items followed by the closing bracket decode uniquely.
#[verifier::rlimit(100)]
proof fn lemma_row_items_unique(m1: Seq<Fr>, m2: Seq<Fr>, r1: Seq<u8>, r2: Seq<u8>)
    requires
        json_of_row_items(m1) + (seq![RBRACK] + r1) == json_of_row_items(m2) + (seq![RBRACK]
            + r2),
    ensures
        m1 == m2,
        r1 == r2,
    decreases m1.len(),
{
    let u1 = json_of_row_items(m1) + (seq![RBRACK] + r1);
    let u2 = json_of_row_items(m2) + (seq![RBRACK] + r2);
    if m1.len() == 0 && m2.len() == 0 {
        lemma_append_cancel(seq![RBRACK], r1, r2);
        assert(m1 =~= m2);
    } else if m1.len() == 0 {
        lemma_row_items_first(m2);
        assert(u1[0] == RBRACK);
        assert(u2[0] == json_of_fr(m2[0])[0]);
        assert(json_of_fr(m2[0])[0] == LBRACK);
        assert(false);
    } else if m2.len() == 0 {
        lemma_row_items_first(m1);
        assert(u2[0] == RBRACK);
        assert(u1[0] == json_of_fr(m1[0])[0]);
        assert(json_of_fr(m1[0])[0] == LBRACK);
        assert(false);
    } else {
        lemma_row_items_first(m1);
        lemma_row_items_first(m2);
        let tail1: Seq<u8> = if m1.len() == 1 { seq![RBRACK] + r1 } else { seq![COMMA]
            + (json_of_row_items(m1.drop_first()) + (seq![RBRACK] + r1)) };
        let tail2: Seq<u8> = if m2.len() == 1 { seq![RBRACK] + r2 } else { seq![COMMA]
            + (json_of_row_items(m2.drop_first()) + (seq![RBRACK] + r2)) };
        assert(u1 =~= json_of_fr(m1[0]) + tail1);
        assert(u2 =~= json_of_fr(m2[0]) + tail2);
        lemma_fr_unique_decode(m1[0], m2[0], tail1, tail2);
        if m1.len() == 1 && m2.len() == 1 {
            lemma_append_cancel(seq![RBRACK], r1, r2);
            assert(m1 =~= m2);
        } else if m1.len() == 1 {
            assert(tail1[0] == RBRACK && tail2[0] == COMMA);
            assert(false);
        } else if m2.len() == 1 {
            assert(tail1[0] == COMMA && tail2[0] == RBRACK);
            assert(false);
        } else {
            lemma_append_cancel(
                seq![COMMA],
                json_of_row_items(m1.drop_first()) + (seq![RBRACK] + r1),
                json_of_row_items(m2.drop_first()) + (seq![RBRACK] + r2),
            );
            lemma_row_items_unique(m1.drop_first(), m2.drop_first(), r1, r2);
            assert(m1.len() == m2.len());
            assert forall|i: int| 0 <= i < m1.len() implies m1[i] == m2[i] by {
                if i > 0 {
                    assert(m1.drop_first()[i - 1] == m1[i]);
                    assert(m2.drop_first()[i - 1] == m2[i]);
                }
            }
            assert(m1 =~= m2);
        }
    }
}

/// A column encoding decodes uniquely.
proof fn lemma_row_unique_decode(m1: Seq<Fr>, m2: Seq<Fr>, r1: Seq<u8>, r2: Seq<u8>)
    requires
        json_of_row(m1) + r1 == json_of_row(m2) + r2,
    ensures
        m1 == m2,
        r1 == r2,
{
    assert(json_of_row(m1) + r1 =~= seq![LBRACK] + (json_of_row_items(m1) + (seq![RBRACK]
        + r1)));
    assert(json_of_row(m2) + r2 =~= seq![LBRACK] + (json_of_row_items(m2) + (seq![RBRACK]
        + r2)));
    lemma_append_cancel(
        seq![LBRACK],
        json_of_row_items(m1) + (seq![RBRACK] + r1),
        json_of_row_items(m2) + (seq![RBRACK] + r2),
    );
    lemma_row_items_unique(m1, m2, r1, r2);
}

/// The comma-separated columns of one circuit's instances.
pub open spec fn json_of_mat_items(m: Seq<Seq<Fr>>) -> Seq<u8>
    decreases m.len(),
{
    if m.len() == 0 {
        Seq::empty()
    } else if m.len() == 1 {
        json_of_row(m[0])
    } else {
        json_of_mat_items(m.drop_last()) + seq![COMMA] + json_of_row(m.last())
    }
}

/// One circuit's instances as a JSON array of columns.
pub open spec fn json_of_mat(m: Seq<Seq<Fr>>) -> Seq<u8> {
    seq![LBRACK] + json_of_mat_items(m) + seq![RBRACK]
}

/// Front form of the matrix items: the first column, then the rest.
proof fn lemma_mat_items_first(m: Seq<Seq<Fr>>)
    requires
        m.len() > 0,
    ensures
        m.len() == 1 ==> json_of_mat_items(m) == json_of_row(m[0]),
        m.len() > 1 ==> json_of_mat_items(m) == json_of_row(m[0]) + (seq![COMMA]
            + json_of_mat_items(m.drop_first())),
    decreases m.len(),
{
    if m.len() > 1 {
        let dl = m.drop_last();
        lemma_mat_items_first(dl);
        if m.len() == 2 {
            assert(dl =~= seq![m[0]]);
            assert(m.drop_first() =~= seq![m[1]]);
            assert(json_of_mat_items(m) =~= json_of_row(m[0]) + (seq![COMMA]
                + json_of_mat_items(m.drop_first())));
        } else {
            let mdf = m.drop_first();
            assert(dl.drop_first() =~= mdf.drop_last());
            assert(mdf.last() == m.last());
            assert(json_of_mat_items(mdf) == json_of_mat_items(mdf.drop_last()) + seq![COMMA]
                + json_of_row(mdf.last()));
            assert(json_of_mat_items(dl) == json_of_row(m[0]) + (seq![COMMA]
                + json_of_mat_items(mdf.drop_last())));
            assert(json_of_mat_items(m) =~= json_of_row(m[0]) + (seq![COMMA]
                + json_of_mat_items(mdf)));
        }
    }
}

/// Matrix items followed by the closing bracket decode uniquely.
#[verifier::rlimit(100)]
proof fn lemma_mat_items_unique(m1: Seq<Seq<Fr>>, m2: Seq<Seq<Fr>>, r1: Seq<u8>, r2: Seq<u8>)
    requires
        json_of_mat_items(m1) + (seq![RBRACK] + r1) == json_of_mat_items(m2) + (seq![RBRACK]
            + r2),
    ensures
        m1 == m2,
        r1 == r2,
    decreases m1.len(),
{
    let u1 = json_of_mat_items(m1) + (seq![RBRACK] + r1);
    let u2 = json_of_mat_items(m2) + (seq![RBRACK] + r2);
    if m1.len() == 0 && m2.len() == 0 {
        lemma_append_cancel(seq![RBRACK], r1, r2);
        assert(m1 =~= m2);
    } else if m1.len() == 0 {
        lemma_mat_items_first(m2);
        assert(u1[0] == RBRACK);
        assert(u2[0] == json_of_row(m2[0])[0]);
        assert(json_of_row(m2[0])[0] == LBRACK);
        assert(false);
    } else if m2.len() == 0 {
        lemma_mat_items_first(m1);
        assert(u2[0] == RBRACK);
        assert(u1[0] == json_of_row(m1[0])[0]);
        assert(json_of_row(m1[0])[0] == LBRACK);
        assert(false);
    } else {
        lemma_mat_items_first(m1);
        lemma_mat_items_first(m2);
        let tail1: Seq<u8> = if m1.len() == 1 { seq![RBRACK] + r1 } else { seq![COMMA]
            + (json_of_mat_items(m1.drop_first()) + (seq![RBRACK] + r1)) };
        let tail2: Seq<u8> = if m2.len() == 1 { seq![RBRACK] + r2 } else { seq![COMMA]
            + (json_of_mat_items(m2.drop_first()) + (seq![RBRACK] + r2)) };
        assert(u1 =~= json_of_row(m1[0]) + tail1);
        assert(u2 =~= json_of_row(m2[0]) + tail2);
        lemma_row_unique_decode(m1[0], m2[0], tail1, tail2);
        if m1.len() == 1 && m2.len() == 1 {
            lemma_append_cancel(seq![RBRACK], r1, r2);
            assert(m1 =~= m2);
        } else if m1.len() == 1 {
            assert(tail1[0] == RBRACK && tail2[0] == COMMA);
            assert(false);
        } else if m2.len() == 1 {
            assert(tail1[0] == COMMA && tail2[0] == RBRACK);
            assert(false);
        } else {
            lemma_append_cancel(
                seq![COMMA],
                json_of_mat_items(m1.drop_first()) + (seq![RBRACK] + r1),
                json_of_mat_items(m2.drop_first()) + (seq![RBRACK] + r2),
            );
            lemma_mat_items_unique(m1.drop_first(), m2.drop_first(), r1, r2);
            assert(m1.len() == m2.len());
            assert forall|i: int| 0 <= i < m1.len() implies m1[i] == m2[i] by {
                if i > 0 {
                    assert(m1.drop_first()[i - 1] == m1[i]);
                    assert(m2.drop_first()[i - 1] == m2[i]);
                }
            }
            assert(m1 =~= m2);
        }
    }
}

/// A matrix encoding decodes uniquely.
proof fn lemma_mat_unique_decode(m1: Seq<Seq<Fr>>, m2: Seq<Seq<Fr>>, r1: Seq<u8>, r2: Seq<u8>)
    requires
        json_of_mat(m1) + r1 == json_of_mat(m2) + r2,
    ensures
        m1 == m2,
        r1 == r2,
{
    assert(json_of_mat(m1) + r1 =~= seq![LBRACK] + (json_of_mat_items(m1) + (seq![RBRACK]
        + r1)));
    assert(json_of_mat(m2) + r2 =~= seq![LBRACK] + (json_of_mat_items(m2) + (seq![RBRACK]
        + r2)));
    lemma_append_cancel(
        seq![LBRACK],
        json_of_mat_items(m1) + (seq![RBRACK] + r1),
        json_of_mat_items(m2) + (seq![RBRACK] + r2),
    );
    lemma_mat_items_unique(m1, m2, r1, r2);
}

/// The comma-separated circuits of the tensor.
pub open spec fn json_of_tensor_items(t: Seq<Seq<Seq<Fr>>>) -> Seq<u8>
    decreases t.len(),
{
    if t.len() == 0 {
        Seq::empty()
    } else if t.len() == 1 {
        json_of_mat(t[0])
    } else {
        json_of_tensor_items(t.drop_last()) + seq![COMMA] + json_of_mat(t.last())
    }
}

/// The whole rank-3 tensor as JSON.
pub open spec fn json_of_tensor(t: Seq<Seq<Seq<Fr>>>) -> Seq<u8> {
    seq![LBRACK] + json_of_tensor_items(t) + seq![RBRACK]
}

/// Front form of the tensor items: the first matrix, then the rest.
proof fn lemma_tensor_items_first(t: Seq<Seq<Seq<Fr>>>)
    requires
        t.len() > 0,
    ensures
        t.len() == 1 ==> json_of_tensor_items(t) == json_of_mat(t[0]),
        t.len() > 1 ==> json_of_tensor_items(t) == json_of_mat(t[0]) + (seq![COMMA]
            + json_of_tensor_items(t.drop_first())),
    decreases t.len(),
{
    if t.len() > 1 {
        let dl = t.drop_last();
        lemma_tensor_items_first(dl);
        if t.len() == 2 {
            assert(dl =~= seq![t[0]]);
            assert(t.drop_first() =~= seq![t[1]]);
            assert(json_of_tensor_items(t) =~= json_of_mat(t[0]) + (seq![COMMA]
                + json_of_tensor_items(t.drop_first())));
        } else {
            let tdf = t.drop_first();
            assert(dl.drop_first() =~= tdf.drop_last());
            assert(tdf.last() == t.last());
            assert(json_of_tensor_items(tdf) == json_of_tensor_items(tdf.drop_last())
                + seq![COMMA] + json_of_mat(tdf.last()));
            assert(json_of_tensor_items(dl) == json_of_mat(t[0]) + (seq![COMMA]
                + json_of_tensor_items(tdf.drop_last())));
            assert(json_of_tensor_items(t) =~= json_of_mat(t[0]) + (seq![COMMA]
                + json_of_tensor_items(tdf)));
        }
    }
}

/// Tensor items followed by the closing bracket decode uniquely.
#[verifier::rlimit(100)]
proof fn lemma_tensor_items_unique(
    t1: Seq<Seq<Seq<Fr>>>,
    t2: Seq<Seq<Seq<Fr>>>,
    r1: Seq<u8>,
    r2: Seq<u8>,
)
    requires
        json_of_tensor_items(t1) + (seq![RBRACK] + r1) == json_of_tensor_items(t2)
            + (seq![RBRACK] + r2),
    ensures
        t1 == t2,
        r1 == r2,
    decreases t1.len(),
{
    let u1 = json_of_tensor_items(t1) + (seq![RBRACK] + r1);
    let u2 = json_of_tensor_items(t2) + (seq![RBRACK] + r2);
    if t1.len() == 0 && t2.len() == 0 {
        lemma_append_cancel(seq![RBRACK], r1, r2);
        assert(t1 =~= t2);
    } else if t1.len() == 0 {
        lemma_tensor_items_first(t2);
        assert(u1[0] == RBRACK);
        assert(u2[0] == json_of_mat(t2[0])[0]);
        assert(json_of_mat(t2[0])[0] == LBRACK);
        assert(false);
    } else if t2.len() == 0 {
        lemma_tensor_items_first(t1);
        assert(u2[0] == RBRACK);
        assert(u1[0] == json_of_mat(t1[0])[0]);
        assert(json_of_mat(t1[0])[0] == LBRACK);
        assert(false);
    } else {
        lemma_tensor_items_first(t1);
        lemma_tensor_items_first(t2);
        let tail1: Seq<u8> = if t1.len() == 1 { seq![RBRACK] + r1 } else { seq![COMMA]
            + (json_of_tensor_items(t1.drop_first()) + (seq![RBRACK] + r1)) };
        let tail2: Seq<u8> = if t2.len() == 1 { seq![RBRACK] + r2 } else { seq![COMMA]
            + (json_of_tensor_items(t2.drop_first()) + (seq![RBRACK] + r2)) };
        assert(u1 =~= json_of_mat(t1[0]) + tail1);
        assert(u2 =~= json_of_mat(t2[0]) + tail2);
        lemma_mat_unique_decode(t1[0], t2[0], tail1, tail2);
        if t1.len() == 1 && t2.len() == 1 {
            lemma_append_cancel(seq![RBRACK], r1, r2);
            assert(t1 =~= t2);
        } else if t1.len() == 1 {
            assert(tail1[0] == RBRACK && tail2[0] == COMMA);
            assert(false);
        } else if t2.len() == 1 {
            assert(tail1[0] == COMMA && tail2[0] == RBRACK);
            assert(false);
        } else {
            lemma_append_cancel(
                seq![COMMA],
                json_of_tensor_items(t1.drop_first()) + (seq![RBRACK] + r1),
                json_of_tensor_items(t2.drop_first()) + (seq![RBRACK] + r2),
            );
            lemma_tensor_items_unique(t1.drop_first(), t2.drop_first(), r1, r2);
            assert(t1.len() == t2.len());
            assert forall|i: int| 0 <= i < t1.len() implies t1[i] == t2[i] by {
                if i > 0 {
                    assert(t1.drop_first()[i - 1] == t1[i]);
                    assert(t2.drop_first()[i - 1] == t2[i]);
                }
            }
            assert(t1 =~= t2);
        }
    }
}

/// Serialization round trip: the canonical encoding is injective. Together
/// with the deserializer's guarantee that every accepted parse
/// re-serializes to its input bytes, deserializing a serialized tensor,
/// whenever it succeeds, yields the original tensor, element for element
/// and in the original order.
pub proof fn lemma_tensor_encoding_injective(t1: Seq<Seq<Seq<Fr>>>, t2: Seq<Seq<Seq<Fr>>>)
    requires
        json_of_tensor(t1) == json_of_tensor(t2),
    ensures
        t1 == t2,
{
    let empty = Seq::<u8>::empty();
    assert(json_of_tensor(t1) =~= seq![LBRACK] + (json_of_tensor_items(t1) + (seq![RBRACK]
        + empty)));
    assert(json_of_tensor(t2) =~= seq![LBRACK] + (json_of_tensor_items(t2) + (seq![RBRACK]
        + empty)));
    lemma_append_cancel(
        seq![LBRACK],
        json_of_tensor_items(t1) + (seq![RBRACK] + empty),
        json_of_tensor_items(t2) + (seq![RBRACK] + empty),
    );
    lemma_tensor_items_unique(t1, t2, empty, empty);
}

/// Append the canonical decimal digits of `n`.
#[verifier::rlimit(50)]
fn write_u64(n: u64, out: &mut Vec<u8>)
    ensures
        final(out)@ == old(out)@ + dec_of(n as nat),
{
    let mut rev: Vec<u8> = Vec::new();
    let mut m: u64 = n;
    while m >= 10
        invariant
            dec_of(n as nat) == dec_of(m as nat) + rev@.reverse(),
        decreases m,
    {
        let d: u8 = (m % 10) as u8 + 48;
        proof {
            assert((rev@.push(d)).reverse() =~= seq![d] + rev@.reverse());
            assert(dec_of(m as nat) == dec_of((m as nat) / 10).push(dec_digit((m % 10) as int)));
            assert(dec_of((m as nat) / 10).push(d) =~= dec_of((m as nat) / 10) + seq![d]);
            assert(dec_of(n as nat) =~= dec_of((m as nat) / 10) + (rev@.push(d)).reverse());
        }
        rev.push(d);
        m = m / 10;
    }
    let d: u8 = m as u8 + 48;
    proof {
        assert((rev@.push(d)).reverse() =~= seq![d] + rev@.reverse());
        assert(dec_of(m as nat) =~= seq![d]);
        assert(dec_of(n as nat) =~= (rev@.push(d)).reverse());
    }
    rev.push(d);
    let ghost full = rev@;
    let mut i: usize = 0;
    while i < rev.len()
        invariant
            rev@ == full,
            i <= full.len(),
            out@ == old(out)@ + full.reverse().take(i as int),
        decreases rev.len() - i,
    {
        let b = rev[rev.len() - 1 - i];
        proof {
            assert(full.reverse()[i as int] == full[full.len() - 1 - i]);
            assert(full.reverse().take(i as int + 1) =~= full.reverse().take(i as int).push(
                full.reverse()[i as int],
            ));
            assert(out@.push(b) =~= old(out)@ + full.reverse().take(i as int + 1));
        }
        out.push(b);
        i = i + 1;
    }
    proof {
        assert(full.reverse().take(full.len() as int) =~= full.reverse());
        assert(out@ =~= old(out)@ + dec_of(n as nat));
    }
}

/// Append one field element.
fn write_fr(f: &Fr, out: &mut Vec<u8>)
    ensures
        final(out)@ == old(out)@ + json_of_fr(*f),
{
    out.push(LBRACK);
    write_u64(f.l0, out);
    out.push(COMMA);
    write_u64(f.l1, out);
    out.push(COMMA);
    write_u64(f.l2, out);
    out.push(COMMA);
    write_u64(f.l3, out);
    out.push(RBRACK);
    proof {
        assert(out@ =~= old(out)@ + json_of_fr(*f));
    }
}

/// Append one instance column.
fn write_row(r: &Vec<Fr>, out: &mut Vec<u8>)
    ensures
        final(out)@ == old(out)@ + json_of_row(r@),
{
    out.push(LBRACK);
    let mut i: usize = 0;
    while i < r.len()
        invariant
            i <= r.len(),
            out@ == old(out)@ + seq![LBRACK] + json_of_row_items(r@.take(i as int)),
        decreases r.len() - i,
    {
        if i > 0 {
            out.push(COMMA);
        }
        write_fr(&r[i], out);
        proof {
            assert(r@.take(i as int + 1).drop_last() =~= r@.take(i as int));
            assert(r@.take(i as int + 1).last() == r@[i as int]);
            if i == 0 {
                assert(json_of_row_items(r@.take(1)) == json_of_fr(r@[0]));
                assert(out@ =~= old(out)@ + seq![LBRACK] + json_of_row_items(r@.take(i as int + 1)));
            } else {
                assert(json_of_row_items(r@.take(i as int + 1)) == json_of_row_items(
                    r@.take(i as int),
                ) + seq![COMMA] + json_of_fr(r@[i as int]));
                assert(out@ =~= old(out)@ + seq![LBRACK] + json_of_row_items(r@.take(i as int + 1)));
            }
        }
        i = i + 1;
    }
    out.push(RBRACK);
    proof {
        assert(r@.take(r@.len() as int) =~= r@);
        assert(out@ =~= old(out)@ + json_of_row(r@));
    }
}

/// Append one circuit's instances.
fn write_mat(m: &Vec<Vec<Fr>>, out: &mut Vec<u8>)
    ensures
        final(out)@ == old(out)@ + json_of_mat(mat_view(m@)),
{
    out.push(LBRACK);
    let mut i: usize = 0;
    while i < m.len()
        invariant
            i <= m.len(),
            out@ == old(out)@ + seq![LBRACK] + json_of_mat_items(mat_view(m@).take(i as int)),
        decreases m.len() - i,
    {
        if i > 0 {
            out.push(COMMA);
        }
        write_row(&m[i], out);
        proof {
            let mv = mat_view(m@);
            assert(mv[i as int] == m@[i as int]@);
            assert(mv.take(i as int + 1).drop_last() =~= mv.take(i as int));
            assert(mv.take(i as int + 1).last() == mv[i as int]);
            if i == 0 {
                assert(json_of_mat_items(mv.take(1)) == json_of_row(mv[0]));
            } else {
                assert(json_of_mat_items(mv.take(i as int + 1)) == json_of_mat_items(
                    mv.take(i as int),
                ) + seq![COMMA] + json_of_row(mv[i as int]));
            }
            assert(out@ =~= old(out)@ + seq![LBRACK] + json_of_mat_items(mv.take(i as int + 1)));
        }
        i = i + 1;
    }
    out.push(RBRACK);
    proof {
        assert(mat_view(m@).take(m@.len() as int) =~= mat_view(m@));
        assert(out@ =~= old(out)@ + json_of_mat(mat_view(m@)));
    }
}

/// Serialize the rank-3 instance tensor to its canonical JSON bytes.
pub fn serialize_tensor(t: &Vec<Vec<Vec<Fr>>>) -> (r: Vec<u8>)
    ensures
        r@ == json_of_tensor(tensor_view(t@)),
{
    let mut out: Vec<u8> = Vec::new();
    out.push(LBRACK);
    let mut i: usize = 0;
    while i < t.len()
        invariant
            i <= t.len(),
            out@ == seq![LBRACK] + json_of_tensor_items(tensor_view(t@).take(i as int)),
        decreases t.len() - i,
    {
        if i > 0 {
            out.push(COMMA);
        }
        write_mat(&t[i], &mut out);
        proof {
            let tv = tensor_view(t@);
            assert(tv[i as int] == mat_view(t@[i as int]@));
            assert(tv.take(i as int + 1).drop_last() =~= tv.take(i as int));
            assert(tv.take(i as int + 1).last() == tv[i as int]);
            if i == 0 {
                assert(json_of_tensor_items(tv.take(1)) == json_of_mat(tv[0]));
            } else {
                assert(json_of_tensor_items(tv.take(i as int + 1)) == json_of_tensor_items(
                    tv.take(i as int),
                ) + seq![COMMA] + json_of_mat(tv[i as int]));
            }
            assert(out@ =~= seq![LBRACK] + json_of_tensor_items(tv.take(i as int + 1)));
        }
        i = i + 1;
    }
    out.push(RBRACK);
    proof {
        assert(tensor_view(t@).take(t@.len() as int) =~= tensor_view(t@));
        assert(out@ =~= json_of_tensor(tensor_view(t@)));
    }
    out
}

// The deserializer: recursive descent over the canonical form. Every
// accepted parse re-serializes to exactly the consumed bytes, so parsing
// canonical output recovers the tensor that produced it.

/// The bytes of `b` from `start` begin with the canonical decimal of `n`,
/// followed by `tail`, which cannot continue the number.
spec fn u64_at(b: Seq<u8>, start: int, n: u64, tail: Seq<u8>) -> bool {
    &&& 0 <= start <= b.len()
    &&& b.skip(start) == dec_of(n as nat) + tail
    &&& non_digit_start(tail)
}

/// Parse one canonical decimal number. Sound: whatever is returned
/// re-serializes to the consumed bytes. Complete: wherever a canonical
/// decimal stands, it is returned, with the position just past it.
#[verifier::rlimit(100)]
fn parse_u64(b: &Vec<u8>, start: usize) -> (r: Option<(u64, usize)>)
    ensures
        r matches Some(p) ==> {
            &&& start < p.1 <= b@.len()
            &&& b@.subrange(start as int, p.1 as int) == dec_of(p.0 as nat)
        },
        forall|n: u64, tail: Seq<u8>| u64_at(b@, start as int, n, tail) ==> {
            &&& r matches Some(p)
            &&& p.0 == n
            &&& p.1 as int == start + dec_of(n as nat).len()
        },
{
    if start >= b.len() {
        proof {
            assert forall|n: u64, tail: Seq<u8>|
                u64_at(b@, start as int, n, tail) implies false by {
                assert(dec_of(n as nat).len() >= 1);
                assert(b@.skip(start as int).len() == b@.len() - start);
            }
        }
        return None;
    }
    let c = b[start];
    if c < 48 || c > 57 {
        proof {
            assert forall|n: u64, tail: Seq<u8>|
                u64_at(b@, start as int, n, tail) implies false by {
                lemma_dec_of_digits(n as nat);
                assert(dec_of(n as nat).len() >= 1);
                assert(b@.skip(start as int)[0] == b@[start as int]);
                assert((dec_of(n as nat) + tail)[0] == dec_of(n as nat)[0]);
                assert(is_digit(dec_of(n as nat)[0]));
            }
        }
        return None;
    }
    let mut n: u64 = (c - 48) as u64;
    let mut j: usize = start + 1;
    if c == 48 {
        // a canonical zero is the single digit 0
        proof {
            assert(b@.subrange(start as int, j as int) =~= seq![c]);
            assert(dec_of(0nat) =~= seq![dec_digit(0)]);
            assert forall|n2: u64, tail: Seq<u8>|
                u64_at(b@, start as int, n2, tail) implies n2 == 0 && dec_of(n2 as nat).len()
                == 1 by {
                assert(dec_of(n2 as nat).len() >= 1);
                assert(b@.skip(start as int)[0] == b@[start as int]);
                assert((dec_of(n2 as nat) + tail)[0] == dec_of(n2 as nat)[0]);
                if n2 >= 1 {
                    lemma_dec_of_leading(n2 as nat);
                }
            }
        }
        return Some((0, j));
    }
    proof {
        assert(b@.subrange(start as int, j as int) =~= seq![c]);
        assert(dec_of(n as nat) =~= seq![dec_digit(n as int)]);
    }
    while j < b.len() && b[j] >= 48 && b[j] <= 57
        invariant
            start < j <= b@.len(),
            1 <= n,
            b@.subrange(start as int, j as int) == dec_of(n as nat),
        decreases b@.len() - j,
    {
        let d: u64 = (b[j] - 48) as u64;
        if n > (u64::MAX - d) / 10 {
            proof {
                lemma_dec_of_digits(n as nat);
                assert((n as int) * 10 + d > u64::MAX) by (nonlinear_arith)
                    requires n > (u64::MAX - d) / 10 && 0 <= d < 10;
                assert forall|n2: u64, tail: Seq<u8>|
                    u64_at(b@, start as int, n2, tail) implies false by {
                    let k = j - start;
                    let digits = dec_of(n2 as nat);
                    lemma_dec_of_digits(n2 as nat);
                    assert(digits.len() >= 1);
                    assert(forall|i: int|
                        start <= i < j ==> #[trigger] b@[i] == dec_of(n as nat)[i - start]);
                    assert forall|i: int|
                        0 <= i < digits.len() && start + i < b@.len() implies b@[start + i]
                        == #[trigger] digits[i] by {
                        assert(b@.skip(start as int)[i] == b@[start + i]);
                        assert((digits + tail)[i] == digits[i]);
                    }
                    // the consumed digits are a proper prefix of the
                    // canonical decimal that stands at `start`
                    if k > digits.len() {
                        if tail.len() == 0 {
                            assert(b@.len() == start + digits.len());
                        } else {
                            assert(b@[start + digits.len()] == b@.skip(start as int)[digits.len() as int]);
                            assert(b@.skip(start as int)[digits.len() as int] == tail[0]);
                            assert(is_digit(b@[start + digits.len()]));
                        }
                        assert(false);
                    }
                    if k == digits.len() {
                        if tail.len() == 0 {
                            assert(b@.len() == start + digits.len());
                        } else {
                            assert(b@[j as int] == b@.skip(start as int)[digits.len() as int]);
                            assert(b@.skip(start as int)[digits.len() as int] == tail[0]);
                        }
                        assert(false);
                    }
                    assert(k < digits.len());
                    assert(dec_of(n as nat) =~= digits.take(k));
                    assert(b@[j as int] == b@.skip(start as int)[k]);
                    assert(b@.skip(start as int)[k] == digits[k]);
                    lemma_val_dec(n as nat);
                    lemma_val_dec(n2 as nat);
                    assert(digits.take(k + 1).drop_last() =~= digits.take(k));
                    assert(digits.take(k + 1).last() == digits[k]);
                    assert(val_of(digits.take(k + 1)) == val_of(digits.take(k)) * 10 + (
                    digits[k] - 48));
                    assert(val_of(digits.take(k + 1)) == (n as int) * 10 + d);
                    lemma_val_prefix(digits, k + 1);
                    assert((n as int) * 10 + d <= n2);
                    assert(false);
                }
            }
            return None;
        }
        proof {
            assert(n <= (u64::MAX - d) / 10 ==> n * 10 <= u64::MAX - d) by (nonlinear_arith);
            assert((n * 10 + d) / 10 == n as int && (n * 10 + d) % 10 == d as int)
                by (nonlinear_arith)
                requires 0 <= d < 10 && 1 <= n;
            assert(dec_of((n * 10 + d) as nat) == dec_of(n as nat).push(dec_digit(d as int)));
            assert(b@.subrange(start as int, j as int + 1) =~= b@.subrange(
                start as int,
                j as int,
            ).push(b@[j as int]));
        }
        n = n * 10 + d;
        j = j + 1;
    }
    proof {
        assert(b@.skip(start as int) =~= b@.subrange(start as int, j as int) + b@.skip(
            j as int,
        ));
        if j < b@.len() {
            assert(b@.skip(j as int)[0] == b@[j as int]);
        }
        assert(non_digit_start(b@.skip(j as int)));
        assert forall|n2: u64, tail: Seq<u8>|
            u64_at(b@, start as int, n2, tail) implies n2 == n && start as int + dec_of(
            n2 as nat,
        ).len() == j as int by {
            lemma_dec_unique_decode(n as nat, n2 as nat, b@.skip(j as int), tail);
        }
    }
    Some((n, j))
}

/// Splitting a suffix of `b` at a known prefix fixes the bytes of the
/// prefix and the remaining suffix.
proof fn lemma_skip_decompose(b: Seq<u8>, start: int, x: Seq<u8>, rest: Seq<u8>)
    requires
        0 <= start <= b.len(),
        b.skip(start) == x + rest,
    ensures
        start + x.len() <= b.len(),
        b.skip(start + x.len()) == rest,
        forall|i: int| 0 <= i < x.len() ==> b[start + i] == #[trigger] x[i],
{
    assert(b.skip(start).len() == b.len() - start);
    assert(b.skip(start + x.len()) =~= rest) by {
        assert(forall|i: int|
            0 <= i < rest.len() ==> b.skip(start + x.len() as int)[i] == b[start + x.len() + i]
                && (x + rest)[x.len() + i] == #[trigger] rest[i]
                && b.skip(start)[x.len() + i] == b[start + x.len() + i]);
    }
    assert forall|i: int| 0 <= i < x.len() implies b[start + i] == #[trigger] x[i] by {
        assert(b.skip(start)[i] == b[start + i]);
        assert((x + rest)[i] == x[i]);
    }
}

/// The bytes of `b` from `start` begin with the encoding of `f`, followed
/// by `tail`.
spec fn fr_at(b: Seq<u8>, start: int, f: Fr, tail: Seq<u8>) -> bool {
    &&& 0 <= start <= b.len()
    &&& b.skip(start) == json_of_fr(f) + tail
}

/// What stands after each limb of an element encoding.
spec fn fr_tail3(f: Fr, tail: Seq<u8>) -> Seq<u8> {
    seq![RBRACK] + tail
}

spec fn fr_tail2(f: Fr, tail: Seq<u8>) -> Seq<u8> {
    seq![COMMA] + (dec_of(f.l3 as nat) + fr_tail3(f, tail))
}

spec fn fr_tail1(f: Fr, tail: Seq<u8>) -> Seq<u8> {
    seq![COMMA] + (dec_of(f.l2 as nat) + fr_tail2(f, tail))
}

spec fn fr_tail0(f: Fr, tail: Seq<u8>) -> Seq<u8> {
    seq![COMMA] + (dec_of(f.l1 as nat) + fr_tail1(f, tail))
}

/// Layout of an element encoding standing at `start`: where each limb
/// begins, and which delimiter follows it.
#[verifier::rlimit(100)]
proof fn lemma_fr_layout(b: Seq<u8>, start: int, f: Fr, tail: Seq<u8>)
    requires
        fr_at(b, start, f, tail),
    ensures
        start + json_of_fr(f).len() <= b.len(),
        json_of_fr(f).len() == 5 + dec_of(f.l0 as nat).len() + dec_of(f.l1 as nat).len()
            + dec_of(f.l2 as nat).len() + dec_of(f.l3 as nat).len(),
        b[start] == LBRACK,
        u64_at(b, start + 1, f.l0, fr_tail0(f, tail)),
        b[start + 1 + dec_of(f.l0 as nat).len()] == COMMA,
        u64_at(b, start + 2 + dec_of(f.l0 as nat).len(), f.l1, fr_tail1(f, tail)),
        b[start + 2 + dec_of(f.l0 as nat).len() + dec_of(f.l1 as nat).len()] == COMMA,
        u64_at(
            b,
            start + 3 + dec_of(f.l0 as nat).len() + dec_of(f.l1 as nat).len(),
            f.l2,
            fr_tail2(f, tail),
        ),
        b[start + 3 + dec_of(f.l0 as nat).len() + dec_of(f.l1 as nat).len() + dec_of(
            f.l2 as nat,
        ).len()] == COMMA,
        u64_at(
            b,
            start + 4 + dec_of(f.l0 as nat).len() + dec_of(f.l1 as nat).len() + dec_of(
                f.l2 as nat,
            ).len(),
            f.l3,
            fr_tail3(f, tail),
        ),
        b[start + json_of_fr(f).len() - 1] == RBRACK,
        b.skip(start + json_of_fr(f).len()) == tail,
{
    let d0 = dec_of(f.l0 as nat);
    let d1 = dec_of(f.l1 as nat);
    let d2 = dec_of(f.l2 as nat);
    let d3 = dec_of(f.l3 as nat);
    assert(json_of_fr(f) + tail =~= seq![LBRACK] + (d0 + (seq![COMMA] + (d1 + (seq![COMMA] + (d2
        + (seq![COMMA] + (d3 + (seq![RBRACK] + tail)))))))));
    lemma_skip_decompose(b, start, seq![LBRACK], d0 + fr_tail0(f, tail));
    lemma_skip_decompose(b, start + 1, d0, fr_tail0(f, tail));
    lemma_skip_decompose(b, start + 1 + d0.len(), seq![COMMA], d1 + fr_tail1(f, tail));
    lemma_skip_decompose(b, start + 2 + d0.len(), d1, fr_tail1(f, tail));
    lemma_skip_decompose(b, start + 2 + d0.len() + d1.len(), seq![COMMA], d2 + fr_tail2(f, tail));
    lemma_skip_decompose(b, start + 3 + d0.len() + d1.len(), d2, fr_tail2(f, tail));
    lemma_skip_decompose(
        b,
        start + 3 + d0.len() + d1.len() + d2.len(),
        seq![COMMA],
        d3 + fr_tail3(f, tail),
    );
    lemma_skip_decompose(b, start + 4 + d0.len() + d1.len() + d2.len(), d3, fr_tail3(f, tail));
    lemma_skip_decompose(
        b,
        start + 4 + d0.len() + d1.len() + d2.len() + d3.len(),
        seq![RBRACK],
        tail,
    );
    assert(json_of_fr(f).len() == 5 + d0.len() + d1.len() + d2.len() + d3.len());
    assert(seq![LBRACK][0] == LBRACK);
    assert(seq![COMMA][0] == COMMA);
    assert(seq![RBRACK][0] == RBRACK);
    assert(fr_tail0(f, tail)[0] == COMMA);
    assert(fr_tail1(f, tail)[0] == COMMA);
    assert(fr_tail2(f, tail)[0] == COMMA);
    assert(fr_tail3(f, tail)[0] == RBRACK);
    assert(b[start + 0] == LBRACK);
    assert(b[start + 1 + d0.len() + 0] == COMMA);
    assert(b[start + 2 + d0.len() + d1.len() + 0] == COMMA);
    assert(b[start + 3 + d0.len() + d1.len() + d2.len() + 0] == COMMA);
    assert(b[start + 4 + d0.len() + d1.len() + d2.len() + d3.len() + 0] == RBRACK);
}

/// Parse one field element. Sound: whatever is returned re-serializes to
/// the consumed bytes. Complete: wherever an element encoding stands, its
/// element is returned, with the position just past it.
#[verifier::rlimit(100)]
fn parse_fr(b: &Vec<u8>, start: usize) -> (r: Option<(Fr, usize)>)
    ensures
        r matches Some(p) ==> {
            &&& start < p.1 <= b@.len()
            &&& b@.subrange(start as int, p.1 as int) == json_of_fr(p.0)
        },
        forall|f: Fr, tail: Seq<u8>| fr_at(b@, start as int, f, tail) ==> {
            &&& r matches Some(p)
            &&& p.0 == f
            &&& p.1 as int == start + json_of_fr(f).len()
        },
{
    if start >= b.len() || b[start] != LBRACK {
        proof {
            assert forall|f: Fr, tail: Seq<u8>|
                fr_at(b@, start as int, f, tail) implies false by {
                lemma_fr_layout(b@, start as int, f, tail);
            }
        }
        return None;
    }
    let (l0, j0) = match parse_u64(b, start + 1) {
        Some(p) => p,
        None => {
            proof {
                assert forall|f: Fr, tail: Seq<u8>|
                    fr_at(b@, start as int, f, tail) implies false by {
                    lemma_fr_layout(b@, start as int, f, tail);
                }
            }
            return None;
        },
    };
    if j0 >= b.len() || b[j0] != COMMA {
        proof {
            assert forall|f: Fr, tail: Seq<u8>|
                fr_at(b@, start as int, f, tail) implies false by {
                lemma_fr_layout(b@, start as int, f, tail);
            }
        }
        return None;
    }
    let (l1, j1) = match parse_u64(b, j0 + 1) {
        Some(p) => p,
        None => {
            proof {
                assert forall|f: Fr, tail: Seq<u8>|
                    fr_at(b@, start as int, f, tail) implies false by {
                    lemma_fr_layout(b@, start as int, f, tail);
                }
            }
            return None;
        },
    };
    if j1 >= b.len() || b[j1] != COMMA {
        proof {
            assert forall|f: Fr, tail: Seq<u8>|
                fr_at(b@, start as int, f, tail) implies false by {
                lemma_fr_layout(b@, start as int, f, tail);
            }
        }
        return None;
    }
    let (l2, j2) = match parse_u64(b, j1 + 1) {
        Some(p) => p,
        None => {
            proof {
                assert forall|f: Fr, tail: Seq<u8>|
                    fr_at(b@, start as int, f, tail) implies false by {
                    lemma_fr_layout(b@, start as int, f, tail);
                }
            }
            return None;
        },
    };
    if j2 >= b.len() || b[j2] != COMMA {
        proof {
            assert forall|f: Fr, tail: Seq<u8>|
                fr_at(b@, start as int, f, tail) implies false by {
                lemma_fr_layout(b@, start as int, f, tail);
            }
        }
        return None;
    }
    let (l3, j3) = match parse_u64(b, j2 + 1) {
        Some(p) => p,
        None => {
            proof {
                assert forall|f: Fr, tail: Seq<u8>|
                    fr_at(b@, start as int, f, tail) implies false by {
                    lemma_fr_layout(b@, start as int, f, tail);
                }
            }
            return None;
        },
    };
    if j3 >= b.len() || b[j3] != RBRACK {
        proof {
            assert forall|f: Fr, tail: Seq<u8>|
                fr_at(b@, start as int, f, tail) implies false by {
                lemma_fr_layout(b@, start as int, f, tail);
            }
        }
        return None;
    }
    let f = Fr { l0, l1, l2, l3 };
    proof {
        assert(b@.subrange(start as int, j3 as int + 1) =~= json_of_fr(f));
        assert forall|f2: Fr, tail: Seq<u8>|
            fr_at(b@, start as int, f2, tail) implies f2 == f && start + json_of_fr(f2).len()
            == j3 as int + 1 by {
            lemma_fr_layout(b@, start as int, f2, tail);
        }
    }
    Some((f, j3 + 1))
}

/// The bytes of `b` from `start` begin with the encoding of the column
/// `row`, followed by `tail`.
spec fn row_at(b: Seq<u8>, start: int, row: Seq<Fr>, tail: Seq<u8>) -> bool {
    &&& 0 <= start <= b.len()
    &&& b.skip(start) == json_of_row(row) + tail
}

/// What stands after element `k` of a column encoding.
spec fn row_rest(row: Seq<Fr>, k: int, tail: Seq<u8>) -> Seq<u8> {
    if k + 1 < row.len() {
        seq![COMMA] + (json_of_row_items(row.skip(k + 1)) + (seq![RBRACK] + tail))
    } else {
        seq![RBRACK] + tail
    }
}

/// Peeling one element off the remaining items of a column encoding.
proof fn lemma_row_step(b: Seq<u8>, j: int, row: Seq<Fr>, k: int, tail: Seq<u8>)
    requires
        0 <= j <= b.len(),
        0 <= k < row.len(),
        b.skip(j) == json_of_row_items(row.skip(k)) + (seq![RBRACK] + tail),
    ensures
        fr_at(b, j, row[k], row_rest(row, k, tail)),
        b.skip(j + json_of_fr(row[k]).len()) == row_rest(row, k, tail),
{
    let rk = row.skip(k);
    assert(rk.len() == row.len() - k);
    assert(rk[0] == row[k]);
    lemma_row_items_first(rk);
    assert(rk.drop_first() =~= row.skip(k + 1));
    if k + 1 < row.len() {
        assert(json_of_row_items(rk) == json_of_fr(row[k]) + (seq![COMMA] + json_of_row_items(
            row.skip(k + 1),
        )));
        assert(b.skip(j) =~= json_of_fr(row[k]) + row_rest(row, k, tail));
    } else {
        assert(json_of_row_items(rk) == json_of_fr(rk[0]));
        assert(b.skip(j) =~= json_of_fr(row[k]) + row_rest(row, k, tail));
    }
    lemma_skip_decompose(b, j, json_of_fr(row[k]), row_rest(row, k, tail));
}

/// Parse one instance column. Sound: whatever is returned re-serializes
/// to the consumed bytes. Complete: wherever a column encoding stands,
/// its elements are returned in order, with the position just past it.
#[verifier::rlimit(100)]
fn parse_row(b: &Vec<u8>, start: usize) -> (r: Option<(Vec<Fr>, usize)>)
    ensures
        r matches Some(p) ==> {
            &&& start < p.1 <= b@.len()
            &&& b@.subrange(start as int, p.1 as int) == json_of_row(p.0@)
        },
        forall|row: Seq<Fr>, tail: Seq<u8>| row_at(b@, start as int, row, tail) ==> {
            &&& r matches Some(p)
            &&& p.0@ == row
            &&& p.1 as int == start + json_of_row(row).len()
        },
{
    if start >= b.len() || b[start] != LBRACK {
        proof {
            assert forall|row: Seq<Fr>, tail: Seq<u8>|
                row_at(b@, start as int, row, tail) implies false by {
                assert(json_of_row(row).len() >= 2);
                assert(b@.skip(start as int).len() == b@.len() - start);
                assert(b@.skip(start as int)[0] == b@[start as int]);
                assert((seq![LBRACK] + json_of_row_items(row))[0] == LBRACK);
                assert(json_of_row(row)[0] == LBRACK);
                assert((json_of_row(row) + tail)[0] == LBRACK);
            }
        }
        return None;
    }
    let mut acc: Vec<Fr> = Vec::new();
    let mut j: usize = start + 1;
    if j < b.len() && b[j] == RBRACK {
        proof {
            assert(b@.subrange(start as int, j as int + 1) =~= json_of_row(acc@));
            assert forall|row: Seq<Fr>, tail: Seq<u8>|
                row_at(b@, start as int, row, tail) implies row == acc@ && start + json_of_row(
                row,
            ).len() == j as int + 1 by {
                assert(json_of_row(row) + tail =~= seq![LBRACK] + (json_of_row_items(row)
                    + (seq![RBRACK] + tail)));
                lemma_skip_decompose(
                    b@,
                    start as int,
                    seq![LBRACK],
                    json_of_row_items(row) + (seq![RBRACK] + tail),
                );
                if row.len() > 0 {
                    lemma_row_items_first(row);
                    assert(json_of_row_items(row).len() >= 1);
                    assert(b@.skip(start as int + 1)[0] == b@[start as int + 1]);
                    assert(json_of_row_items(row)[0] == json_of_fr(row[0])[0]);
                    assert(json_of_fr(row[0])[0] == LBRACK);
                    assert(false);
                }
                assert(row =~= acc@);
                assert(b@.skip(start as int + 1)[0] == b@[start as int + 1]);
            }
        }
        return Some((acc, j + 1));
    }
    proof {
        assert forall|row: Seq<Fr>, tail: Seq<u8>|
            row_at(b@, start as int, row, tail) implies acc@.len() < row.len() && acc@
            == row.take(acc@.len() as int) && b@.skip(j as int) == json_of_row_items(
            row.skip(acc@.len() as int),
        ) + (seq![RBRACK] + tail) by {
            assert(json_of_row(row) + tail =~= seq![LBRACK] + (json_of_row_items(row)
                + (seq![RBRACK] + tail)));
            lemma_skip_decompose(
                b@,
                start as int,
                seq![LBRACK],
                json_of_row_items(row) + (seq![RBRACK] + tail),
            );
            if row.len() == 0 {
                assert(json_of_row_items(row).len() == 0);
                assert(b@.skip(start as int + 1) == seq![RBRACK] + tail);
                assert(b@.skip(start as int + 1)[0] == b@[start as int + 1]);
                assert(false);
            }
            assert(acc@ =~= row.take(0));
            assert(row.skip(0) =~= row);
        }
    }
    loop
        invariant
            start < j <= b@.len(),
            acc@.len() == 0 ==> b@.subrange(start as int + 1, j as int) =~= Seq::<u8>::empty(),
            acc@.len() > 0 ==> b@.subrange(start as int + 1, j as int) == json_of_row_items(acc@)
                + seq![COMMA],
            b@.len() >= start + 1,
            b@[start as int] == LBRACK,
            forall|row: Seq<Fr>, tail: Seq<u8>| row_at(b@, start as int, row, tail) ==> {
                &&& acc@.len() < row.len()
                &&& acc@ == row.take(acc@.len() as int)
                &&& b@.skip(j as int) == json_of_row_items(row.skip(acc@.len() as int))
                    + (seq![RBRACK] + tail)
            },
        decreases b@.len() - j,
    {
        let parsed = parse_fr(b, j);
        let (f, j2) = match parsed {
            Some(p) => p,
            None => {
                proof {
                    assert forall|row: Seq<Fr>, tail: Seq<u8>|
                        row_at(b@, start as int, row, tail) implies false by {
                        lemma_row_step(b@, j as int, row, acc@.len() as int, tail);
                    }
                }
                return None;
            },
        };
        proof {
            if acc@.len() == 0 {
                assert(b@.subrange(start as int + 1, j2 as int) =~= json_of_fr(f));
                assert(json_of_row_items(acc@.push(f)) == json_of_fr(f));
            } else {
                assert(acc@.push(f).drop_last() =~= acc@);
                assert(json_of_row_items(acc@.push(f)) == json_of_row_items(acc@) + seq![COMMA]
                    + json_of_fr(f));
                assert(b@.subrange(start as int + 1, j2 as int) =~= json_of_row_items(acc@)
                    + seq![COMMA] + json_of_fr(f));
            }
            assert(b@.subrange(start as int + 1, j2 as int) == json_of_row_items(acc@.push(f)));
            assert forall|row: Seq<Fr>, tail: Seq<u8>|
                row_at(b@, start as int, row, tail) implies acc@.push(f) == row.take(
                acc@.len() as int + 1,
            ) && f == row[acc@.len() as int] && b@.skip(j2 as int) == row_rest(
                row,
                acc@.len() as int,
                tail,
            ) by {
                lemma_row_step(b@, j as int, row, acc@.len() as int, tail);
                assert(row.take(acc@.len() as int + 1).drop_last() =~= row.take(acc@.len() as int));
                assert(acc@.push(f) =~= row.take(acc@.len() as int + 1));
            }
        }
        acc.push(f);
        if j2 < b.len() && b[j2] == RBRACK {
            proof {
                assert(b@.subrange(start as int, j2 as int + 1) =~= seq![LBRACK]
                    + json_of_row_items(acc@) + seq![RBRACK]);
                assert forall|row: Seq<Fr>, tail: Seq<u8>|
                    row_at(b@, start as int, row, tail) implies row == acc@ && start
                    + json_of_row(row).len() == j2 as int + 1 by {
                    let k = acc@.len() - 1;
                    if k + 1 < row.len() {
                        assert(b@.skip(j2 as int)[0] == b@[j2 as int]);
                        assert(row_rest(row, k as int, tail)[0] == COMMA);
                        assert(false);
                    }
                    assert(row.take(k + 1) =~= row);
                    assert(b@.skip(j2 as int).len() == b@.len() - j2);
                    assert(b@.skip(start as int).len() == b@.len() - start);
                    assert((seq![RBRACK] + tail).len() == 1 + tail.len());
                }
            }
            return Some((acc, j2 + 1));
        }
        if j2 >= b.len() || b[j2] != COMMA {
            proof {
                assert forall|row: Seq<Fr>, tail: Seq<u8>|
                    row_at(b@, start as int, row, tail) implies false by {
                    let k = acc@.len() - 1;
                    assert(row_rest(row, k as int, tail).len() >= 1);
                    assert(b@.skip(j2 as int)[0] == b@[j2 as int]);
                    if k + 1 < row.len() {
                        assert(row_rest(row, k as int, tail)[0] == COMMA);
                    } else {
                        assert(row_rest(row, k as int, tail)[0] == RBRACK);
                    }
                }
            }
            return None;
        }
        proof {
            assert(b@.subrange(start as int + 1, j2 as int + 1) =~= json_of_row_items(acc@)
                + seq![COMMA]);
            assert forall|row: Seq<Fr>, tail: Seq<u8>|
                row_at(b@, start as int, row, tail) implies acc@.len() < row.len() && acc@
                == row.take(acc@.len() as int) && b@.skip(j2 as int + 1) == json_of_row_items(
                row.skip(acc@.len() as int),
            ) + (seq![RBRACK] + tail) by {
                let k = acc@.len() - 1;
                if k + 1 >= row.len() {
                    assert(b@.skip(j2 as int)[0] == b@[j2 as int]);
                    assert(row_rest(row, k as int, tail)[0] == RBRACK);
                    assert(false);
                }
                lemma_skip_decompose(
                    b@,
                    j2 as int,
                    seq![COMMA],
                    json_of_row_items(row.skip(k + 1)) + (seq![RBRACK] + tail),
                );
            }
        }
        j = j2 + 1;
    }
}

/// The bytes of `b` from `start` begin with the encoding of the matrix
/// `m`, followed by `tail`.
spec fn mat_at(b: Seq<u8>, start: int, m: Seq<Seq<Fr>>, tail: Seq<u8>) -> bool {
    &&& 0 <= start <= b.len()
    &&& b.skip(start) == json_of_mat(m) + tail
}

/// What stands after column `k` of a matrix encoding.
spec fn mat_rest(m: Seq<Seq<Fr>>, k: int, tail: Seq<u8>) -> Seq<u8> {
    if k + 1 < m.len() {
        seq![COMMA] + (json_of_mat_items(m.skip(k + 1)) + (seq![RBRACK] + tail))
    } else {
        seq![RBRACK] + tail
    }
}

/// Peeling one column off the remaining items of a matrix encoding.
proof fn lemma_mat_step(b: Seq<u8>, j: int, m: Seq<Seq<Fr>>, k: int, tail: Seq<u8>)
    requires
        0 <= j <= b.len(),
        0 <= k < m.len(),
        b.skip(j) == json_of_mat_items(m.skip(k)) + (seq![RBRACK] + tail),
    ensures
        row_at(b, j, m[k], mat_rest(m, k, tail)),
        b.skip(j + json_of_row(m[k]).len()) == mat_rest(m, k, tail),
{
    let mk = m.skip(k);
    assert(mk.len() == m.len() - k);
    assert(mk[0] == m[k]);
    lemma_mat_items_first(mk);
    assert(mk.drop_first() =~= m.skip(k + 1));
    if k + 1 < m.len() {
        assert(json_of_mat_items(mk) == json_of_row(m[k]) + (seq![COMMA] + json_of_mat_items(
            m.skip(k + 1),
        )));
        assert(b.skip(j) =~= json_of_row(m[k]) + mat_rest(m, k, tail));
    } else {
        assert(json_of_mat_items(mk) == json_of_row(mk[0]));
        assert(b.skip(j) =~= json_of_row(m[k]) + mat_rest(m, k, tail));
    }
    lemma_skip_decompose(b, j, json_of_row(m[k]), mat_rest(m, k, tail));
}

/// Parse one circuit's instances. Sound and complete in the same sense as
/// the column parser.
#[verifier::rlimit(100)]
fn parse_mat(b: &Vec<u8>, start: usize) -> (r: Option<(Vec<Vec<Fr>>, usize)>)
    ensures
        r matches Some(p) ==> {
            &&& start < p.1 <= b@.len()
            &&& b@.subrange(start as int, p.1 as int) == json_of_mat(mat_view(p.0@))
        },
        forall|m: Seq<Seq<Fr>>, tail: Seq<u8>| mat_at(b@, start as int, m, tail) ==> {
            &&& r matches Some(p)
            &&& mat_view(p.0@) == m
            &&& p.1 as int == start + json_of_mat(m).len()
        },
{
    if start >= b.len() || b[start] != LBRACK {
        proof {
            assert forall|m: Seq<Seq<Fr>>, tail: Seq<u8>|
                mat_at(b@, start as int, m, tail) implies false by {
                assert(json_of_mat(m).len() >= 2);
                assert(b@.skip(start as int).len() == b@.len() - start);
                assert(b@.skip(start as int)[0] == b@[start as int]);
                assert((seq![LBRACK] + json_of_mat_items(m))[0] == LBRACK);
                assert(json_of_mat(m)[0] == LBRACK);
                assert((json_of_mat(m) + tail)[0] == LBRACK);
            }
        }
        return None;
    }
    let mut acc: Vec<Vec<Fr>> = Vec::new();
    let mut j: usize = start + 1;
    if j < b.len() && b[j] == RBRACK {
        proof {
            assert(mat_view(acc@) =~= Seq::<Seq<Fr>>::empty());
            assert(b@.subrange(start as int, j as int + 1) =~= json_of_mat(mat_view(acc@)));
            assert forall|m: Seq<Seq<Fr>>, tail: Seq<u8>|
                mat_at(b@, start as int, m, tail) implies m == mat_view(acc@) && start
                + json_of_mat(m).len() == j as int + 1 by {
                assert(json_of_mat(m) + tail =~= seq![LBRACK] + (json_of_mat_items(m)
                    + (seq![RBRACK] + tail)));
                lemma_skip_decompose(
                    b@,
                    start as int,
                    seq![LBRACK],
                    json_of_mat_items(m) + (seq![RBRACK] + tail),
                );
                if m.len() > 0 {
                    lemma_mat_items_first(m);
                    assert(json_of_mat_items(m).len() >= 1);
                    assert(b@.skip(start as int + 1)[0] == b@[start as int + 1]);
                    assert(json_of_mat_items(m)[0] == json_of_row(m[0])[0]);
                    assert((seq![LBRACK] + json_of_row_items(m[0]))[0] == LBRACK);
                    assert(json_of_row(m[0])[0] == LBRACK);
                    assert(false);
                }
                assert(m =~= mat_view(acc@));
                assert(b@.skip(start as int + 1)[0] == b@[start as int + 1]);
            }
        }
        return Some((acc, j + 1));
    }
    proof {
        assert forall|m: Seq<Seq<Fr>>, tail: Seq<u8>|
            mat_at(b@, start as int, m, tail) implies mat_view(acc@).len() < m.len() && mat_view(
            acc@,
        ) == m.take(mat_view(acc@).len() as int) && b@.skip(j as int) == json_of_mat_items(
            m.skip(mat_view(acc@).len() as int),
        ) + (seq![RBRACK] + tail) by {
            assert(json_of_mat(m) + tail =~= seq![LBRACK] + (json_of_mat_items(m)
                + (seq![RBRACK] + tail)));
            lemma_skip_decompose(
                b@,
                start as int,
                seq![LBRACK],
                json_of_mat_items(m) + (seq![RBRACK] + tail),
            );
            if m.len() == 0 {
                assert(json_of_mat_items(m).len() == 0);
                assert(b@.skip(start as int + 1) == seq![RBRACK] + tail);
                assert(b@.skip(start as int + 1)[0] == b@[start as int + 1]);
                assert(false);
            }
            assert(mat_view(acc@) =~= m.take(0));
            assert(m.skip(0) =~= m);
        }
    }
    loop
        invariant
            start < j <= b@.len(),
            acc@.len() == 0 ==> b@.subrange(start as int + 1, j as int) =~= Seq::<u8>::empty(),
            acc@.len() > 0 ==> b@.subrange(start as int + 1, j as int) == json_of_mat_items(
                mat_view(acc@),
            ) + seq![COMMA],
            b@.len() >= start + 1,
            b@[start as int] == LBRACK,
            forall|m: Seq<Seq<Fr>>, tail: Seq<u8>| mat_at(b@, start as int, m, tail) ==> {
                &&& acc@.len() < m.len()
                &&& mat_view(acc@) == m.take(acc@.len() as int)
                &&& b@.skip(j as int) == json_of_mat_items(m.skip(acc@.len() as int))
                    + (seq![RBRACK] + tail)
            },
        decreases b@.len() - j,
    {
        let parsed = parse_row(b, j);
        let (row, j2) = match parsed {
            Some(p) => p,
            None => {
                proof {
                    assert forall|m: Seq<Seq<Fr>>, tail: Seq<u8>|
                        mat_at(b@, start as int, m, tail) implies false by {
                        lemma_mat_step(b@, j as int, m, acc@.len() as int, tail);
                    }
                }
                return None;
            },
        };
        proof {
            let mv = mat_view(acc@);
            let mv2 = mat_view(acc@.push(row));
            assert(mv2.drop_last() =~= mv);
            assert(mv2.last() == row@);
            if acc@.len() == 0 {
                assert(b@.subrange(start as int + 1, j2 as int) =~= json_of_row(row@));
                assert(json_of_mat_items(mv2) == json_of_row(row@));
            } else {
                assert(json_of_mat_items(mv2) == json_of_mat_items(mv) + seq![COMMA]
                    + json_of_row(row@));
                assert(b@.subrange(start as int + 1, j2 as int) =~= json_of_mat_items(mv)
                    + seq![COMMA] + json_of_row(row@));
            }
            assert(b@.subrange(start as int + 1, j2 as int) == json_of_mat_items(mv2));
            assert forall|m: Seq<Seq<Fr>>, tail: Seq<u8>|
                mat_at(b@, start as int, m, tail) implies mat_view(acc@.push(row)) == m.take(
                acc@.len() as int + 1,
            ) && row@ == m[acc@.len() as int] && b@.skip(j2 as int) == mat_rest(
                m,
                acc@.len() as int,
                tail,
            ) by {
                lemma_mat_step(b@, j as int, m, acc@.len() as int, tail);
                assert(m.take(acc@.len() as int + 1).drop_last() =~= m.take(acc@.len() as int));
                assert(mat_view(acc@.push(row)) =~= m.take(acc@.len() as int + 1));
            }
        }
        acc.push(row);
        if j2 < b.len() && b[j2] == RBRACK {
            proof {
                assert(b@.subrange(start as int, j2 as int + 1) =~= seq![LBRACK]
                    + json_of_mat_items(mat_view(acc@)) + seq![RBRACK]);
                assert forall|m: Seq<Seq<Fr>>, tail: Seq<u8>|
                    mat_at(b@, start as int, m, tail) implies m == mat_view(acc@) && start
                    + json_of_mat(m).len() == j2 as int + 1 by {
                    let k = acc@.len() - 1;
                    if k + 1 < m.len() {
                        assert(b@.skip(j2 as int)[0] == b@[j2 as int]);
                        assert(mat_rest(m, k as int, tail)[0] == COMMA);
                        assert(false);
                    }
                    assert(m.take(k + 1) =~= m);
                    assert(b@.skip(j2 as int).len() == b@.len() - j2);
                    assert(b@.skip(start as int).len() == b@.len() - start);
                    assert((seq![RBRACK] + tail).len() == 1 + tail.len());
                }
            }
            return Some((acc, j2 + 1));
        }
        if j2 >= b.len() || b[j2] != COMMA {
            proof {
                assert forall|m: Seq<Seq<Fr>>, tail: Seq<u8>|
                    mat_at(b@, start as int, m, tail) implies false by {
                    let k = acc@.len() - 1;
                    assert(mat_rest(m, k as int, tail).len() >= 1);
                    assert(b@.skip(j2 as int)[0] == b@[j2 as int]);
                    if k + 1 < m.len() {
                        assert(mat_rest(m, k as int, tail)[0] == COMMA);
                    } else {
                        assert(mat_rest(m, k as int, tail)[0] == RBRACK);
                    }
                }
            }
            return None;
        }
        proof {
            assert(b@.subrange(start as int + 1, j2 as int + 1) =~= json_of_mat_items(
                mat_view(acc@),
            ) + seq![COMMA]);
            assert forall|m: Seq<Seq<Fr>>, tail: Seq<u8>|
                mat_at(b@, start as int, m, tail) implies acc@.len() < m.len() && mat_view(acc@)
                == m.take(acc@.len() as int) && b@.skip(j2 as int + 1) == json_of_mat_items(
                m.skip(acc@.len() as int),
            ) + (seq![RBRACK] + tail) by {
                let k = acc@.len() - 1;
                if k + 1 >= m.len() {
                    assert(b@.skip(j2 as int)[0] == b@[j2 as int]);
                    assert(mat_rest(m, k as int, tail)[0] == RBRACK);
                    assert(false);
                }
                lemma_skip_decompose(
                    b@,
                    j2 as int,
                    seq![COMMA],
                    json_of_mat_items(m.skip(k + 1)) + (seq![RBRACK] + tail),
                );
            }
        }
        j = j2 + 1;
    }
}

/// What stands after matrix `k` of the tensor encoding (the closing
/// bracket ends the input).
spec fn tensor_rest(t: Seq<Seq<Seq<Fr>>>, k: int) -> Seq<u8> {
    if k + 1 < t.len() {
        seq![COMMA] + (json_of_tensor_items(t.skip(k + 1)) + (seq![RBRACK]
            + Seq::<u8>::empty()))
    } else {
        seq![RBRACK] + Seq::<u8>::empty()
    }
}

/// Peeling one matrix off the remaining items of the tensor encoding.
proof fn lemma_tensor_step(b: Seq<u8>, j: int, t: Seq<Seq<Seq<Fr>>>, k: int)
    requires
        0 <= j <= b.len(),
        0 <= k < t.len(),
        b.skip(j) == json_of_tensor_items(t.skip(k)) + (seq![RBRACK] + Seq::<u8>::empty()),
    ensures
        mat_at(b, j, t[k], tensor_rest(t, k)),
        b.skip(j + json_of_mat(t[k]).len()) == tensor_rest(t, k),
{
    let tk = t.skip(k);
    assert(tk.len() == t.len() - k);
    assert(tk[0] == t[k]);
    lemma_tensor_items_first(tk);
    assert(tk.drop_first() =~= t.skip(k + 1));
    if k + 1 < t.len() {
        assert(json_of_tensor_items(tk) == json_of_mat(t[k]) + (seq![COMMA]
            + json_of_tensor_items(t.skip(k + 1))));
        assert(b.skip(j) =~= json_of_mat(t[k]) + tensor_rest(t, k));
    } else {
        assert(json_of_tensor_items(tk) == json_of_mat(tk[0]));
        assert(b.skip(j) =~= json_of_mat(t[k]) + tensor_rest(t, k));
    }
    lemma_skip_decompose(b, j, json_of_mat(t[k]), tensor_rest(t, k));
}

/// Deserialize a rank-3 instance tensor from its canonical JSON bytes.
///
/// Sound: whenever a tensor is returned, the input bytes are exactly its
/// canonical serialization. Complete: canonical bytes are always
/// accepted. Together these give the round trip: deserializing a
/// serialized tensor yields the original, element for element, order
/// preserved.
#[verifier::rlimit(100)]
pub fn deserialize_tensor(b: &Vec<u8>) -> (r: Option<Vec<Vec<Vec<Fr>>>>)
    ensures
        r matches Some(t) ==> b@ == json_of_tensor(tensor_view(t@)),
        forall|tv: Seq<Seq<Seq<Fr>>>| b@ == #[trigger] json_of_tensor(tv) ==> {
            &&& r matches Some(t)
            &&& tensor_view(t@) == tv
        },
{
    if b.len() == 0 || b[0] != LBRACK {
        proof {
            assert forall|tv: Seq<Seq<Seq<Fr>>>|
                b@ == #[trigger] json_of_tensor(tv) implies false by {
                assert(json_of_tensor(tv).len() >= 2);
                assert((seq![LBRACK] + json_of_tensor_items(tv))[0] == LBRACK);
                assert(json_of_tensor(tv)[0] == LBRACK);
            }
        }
        return None;
    }
    let mut acc: Vec<Vec<Vec<Fr>>> = Vec::new();
    let mut j: usize = 1;
    if j < b.len() && b[j] == RBRACK {
        if j + 1 != b.len() {
            proof {
                assert forall|tv: Seq<Seq<Seq<Fr>>>|
                    b@ == #[trigger] json_of_tensor(tv) implies false by {
                    lemma_tensor_first_bytes(b@, tv);
                    assert(tv.len() == 0);
                    assert(b@.len() == 2);
                }
            }
            return None;
        }
        proof {
            assert(tensor_view(acc@) =~= Seq::<Seq<Seq<Fr>>>::empty());
            assert(b@ =~= json_of_tensor(tensor_view(acc@)));
            assert forall|tv: Seq<Seq<Seq<Fr>>>|
                b@ == #[trigger] json_of_tensor(tv) implies tensor_view(acc@) == tv by {
                lemma_tensor_encoding_injective(tensor_view(acc@), tv);
            }
        }
        return Some(acc);
    }
    proof {
        assert forall|tv: Seq<Seq<Seq<Fr>>>|
            b@ == #[trigger] json_of_tensor(tv) implies tensor_view(acc@).len() < tv.len()
            && tensor_view(acc@) == tv.take(acc@.len() as int) && b@.skip(j as int)
            == json_of_tensor_items(tv.skip(acc@.len() as int)) + (seq![RBRACK] + Seq::<u8>::empty()) by {
            lemma_tensor_first_bytes(b@, tv);
            assert(tv.len() > 0);
            assert(tensor_view(acc@) =~= tv.take(0));
            assert(tv.skip(0) =~= tv);
        }
    }
    loop
        invariant
            0 < j <= b@.len(),
            acc@.len() == 0 ==> b@.subrange(1, j as int) =~= Seq::<u8>::empty(),
            acc@.len() > 0 ==> b@.subrange(1, j as int) == json_of_tensor_items(tensor_view(acc@))
                + seq![COMMA],
            b@.len() >= 1,
            b@[0] == LBRACK,
            forall|tv: Seq<Seq<Seq<Fr>>>| b@ == #[trigger] json_of_tensor(tv) ==> {
                &&& acc@.len() < tv.len()
                &&& tensor_view(acc@) == tv.take(acc@.len() as int)
                &&& b@.skip(j as int) == json_of_tensor_items(tv.skip(acc@.len() as int))
                    + (seq![RBRACK] + Seq::<u8>::empty())
            },
        decreases b@.len() - j,
    {
        let parsed = parse_mat(b, j);
        let (m, j2) = match parsed {
            Some(p) => p,
            None => {
                proof {
                    assert forall|tv: Seq<Seq<Seq<Fr>>>|
                        b@ == #[trigger] json_of_tensor(tv) implies false by {
                        lemma_tensor_step(b@, j as int, tv, acc@.len() as int);
                    }
                }
                return None;
            },
        };
        proof {
            let tvw = tensor_view(acc@);
            let tvw2 = tensor_view(acc@.push(m));
            assert(tvw2.drop_last() =~= tvw);
            assert(tvw2.last() == mat_view(m@));
            if acc@.len() == 0 {
                assert(b@.subrange(1, j2 as int) =~= json_of_mat(mat_view(m@)));
                assert(json_of_tensor_items(tvw2) == json_of_mat(mat_view(m@)));
            } else {
                assert(json_of_tensor_items(tvw2) == json_of_tensor_items(tvw) + seq![COMMA]
                    + json_of_mat(mat_view(m@)));
                assert(b@.subrange(1, j2 as int) =~= json_of_tensor_items(tvw) + seq![COMMA]
                    + json_of_mat(mat_view(m@)));
            }
            assert(b@.subrange(1, j2 as int) == json_of_tensor_items(tvw2));
            assert forall|tv: Seq<Seq<Seq<Fr>>>|
                b@ == #[trigger] json_of_tensor(tv) implies tensor_view(acc@.push(m)) == tv.take(
                acc@.len() as int + 1,
            ) && mat_view(m@) == tv[acc@.len() as int] && b@.skip(j2 as int) == tensor_rest(
                tv,
                acc@.len() as int,
            ) by {
                lemma_tensor_step(b@, j as int, tv, acc@.len() as int);
                assert(tv.take(acc@.len() as int + 1).drop_last() =~= tv.take(
                    acc@.len() as int,
                ));
                assert(tensor_view(acc@.push(m)) =~= tv.take(acc@.len() as int + 1));
            }
        }
        acc.push(m);
        if j2 < b.len() && b[j2] == RBRACK {
            if j2 + 1 != b.len() {
                proof {
                    assert forall|tv: Seq<Seq<Seq<Fr>>>|
                        b@ == #[trigger] json_of_tensor(tv) implies false by {
                        let k = acc@.len() - 1;
                        if k + 1 < tv.len() {
                            assert(b@.skip(j2 as int)[0] == b@[j2 as int]);
                            assert(tensor_rest(tv, k as int)[0] == COMMA);
                            assert(false);
                        }
                        assert(b@.skip(j2 as int).len() == b@.len() - j2);
                        assert(tensor_rest(tv, k as int).len() == 1);
                    }
                }
                return None;
            }
            proof {
                assert(b@ =~= seq![LBRACK] + json_of_tensor_items(tensor_view(acc@))
                    + seq![RBRACK]);
                assert forall|tv: Seq<Seq<Seq<Fr>>>|
                    b@ == #[trigger] json_of_tensor(tv) implies tensor_view(acc@) == tv by {
                    lemma_tensor_encoding_injective(tensor_view(acc@), tv);
                }
            }
            return Some(acc);
        }
        if j2 >= b.len() || b[j2] != COMMA {
            proof {
                assert forall|tv: Seq<Seq<Seq<Fr>>>|
                    b@ == #[trigger] json_of_tensor(tv) implies false by {
                    let k = acc@.len() - 1;
                    assert(tensor_rest(tv, k as int).len() >= 1);
                    assert(b@.skip(j2 as int)[0] == b@[j2 as int]);
                    if k + 1 < tv.len() {
                        assert(tensor_rest(tv, k as int)[0] == COMMA);
                    } else {
                        assert(tensor_rest(tv, k as int)[0] == RBRACK);
                    }
                }
            }
            return None;
        }
        proof {
            assert(b@.subrange(1, j2 as int + 1) =~= json_of_tensor_items(tensor_view(acc@))
                + seq![COMMA]);
            assert forall|tv: Seq<Seq<Seq<Fr>>>|
                b@ == #[trigger] json_of_tensor(tv) implies acc@.len() < tv.len() && tensor_view(
                acc@,
            ) == tv.take(acc@.len() as int) && b@.skip(j2 as int + 1) == json_of_tensor_items(
                tv.skip(acc@.len() as int),
            ) + (seq![RBRACK] + Seq::<u8>::empty()) by {
                let k = acc@.len() - 1;
                if k + 1 >= tv.len() {
                    assert(b@.skip(j2 as int)[0] == b@[j2 as int]);
                    assert(tensor_rest(tv, k as int)[0] == RBRACK);
                    assert(false);
                }
                lemma_skip_decompose(
                    b@,
                    j2 as int,
                    seq![COMMA],
                    json_of_tensor_items(tv.skip(k + 1)) + (seq![RBRACK] + Seq::<u8>::empty()),
                );
            }
        }
        j = j2 + 1;
    }
}

/// First bytes of a whole-input tensor encoding: the opening bracket, and
/// what stands right after it.
proof fn lemma_tensor_first_bytes(b: Seq<u8>, tv: Seq<Seq<Seq<Fr>>>)
    requires
        b == json_of_tensor(tv),
    ensures
        b.len() >= 2,
        b[0] == LBRACK,
        b.skip(1) == json_of_tensor_items(tv) + (seq![RBRACK] + Seq::<u8>::empty()),
        tv.len() == 0 ==> b.len() == 2 && b[1] == RBRACK,
        tv.len() > 0 ==> b[1] == LBRACK,
{
    assert(b =~= seq![LBRACK] + (json_of_tensor_items(tv) + (seq![RBRACK]
        + Seq::<u8>::empty())));
    assert(b.skip(0) =~= b);
    lemma_skip_decompose(
        b,
        0,
        seq![LBRACK],
        json_of_tensor_items(tv) + (seq![RBRACK] + Seq::<u8>::empty()),
    );
    if tv.len() == 0 {
        assert(json_of_tensor_items(tv).len() == 0);
        assert(b.skip(1) =~= seq![RBRACK]);
        assert(b.skip(1)[0] == b[1]);
    } else {
        lemma_tensor_items_first(tv);
        assert(json_of_tensor_items(tv)[0] == json_of_mat(tv[0])[0]);
        assert((seq![LBRACK] + json_of_mat_items(tv[0]))[0] == LBRACK);
        assert(json_of_mat(tv[0])[0] == LBRACK);
        assert(b.skip(1)[0] == b[1]);
        assert((json_of_tensor_items(tv) + (seq![RBRACK] + Seq::<u8>::empty()))[0]
            == json_of_tensor_items(tv)[0]);
    }
}


} // verus!
