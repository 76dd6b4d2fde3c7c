use vstd::prelude::*;

use crate::dense::Matrix;
use crate::error::MatxError;

verus! {

/// The byte is an ASCII decimal digit.
pub open spec fn is_digit(b: u8) -> bool {
    48 <= b <= 57
}

/// The canonical decimal digits of a natural number, most significant
/// first, with no leading zero except for the single digit of zero itself.
pub open spec fn dec_nat(n: nat) -> Seq<u8>
    decreases n,
{
    if n < 10 {
        seq![(48 + n) as u8]
    } else {
        dec_nat(n / 10).push((48 + n % 10) as u8)
    }
}

/// The canonical decimal rendering of an integer: a minus sign before the
/// digits of its magnitude when negative.
pub open spec fn dec_int(v: int) -> Seq<u8> {
    if v < 0 {
        seq![45u8] + dec_nat((-v) as nat)
    } else {
        dec_nat(v as nat)
    }
}

/// The cells rendered in storage order, separated by commas.
pub open spec fn joined(s: Seq<i64>) -> Seq<u8>
    decreases s.len(),
{
    if s.len() == 0 {
        Seq::empty()
    } else if s.len() == 1 {
        dec_int(s[0] as int)
    } else {
        dec_int(s[0] as int) + seq![44u8] + joined(s.drop_first())
    }
}

/// The opening bytes of the record: a brace, then the `data` key and the
/// opening bracket of its array.
pub open spec fn lit_head() -> Seq<u8> {
    seq![123u8, 34u8, 100u8, 97u8, 116u8, 97u8, 34u8, 58u8, 91u8]
}

/// The bytes between the cell array and the row count: the closing bracket
/// and the `rows` key.
pub open spec fn lit_rows() -> Seq<u8> {
    seq![93u8, 44u8, 34u8, 114u8, 111u8, 119u8, 115u8, 34u8, 58u8]
}

/// The bytes between the row count and the column count: the `cols` key.
pub open spec fn lit_cols() -> Seq<u8> {
    seq![44u8, 34u8, 99u8, 111u8, 108u8, 115u8, 34u8, 58u8]
}

/// The full encoded record `{"data":[...],"rows":R,"cols":C}`: the flat
/// cell sequence in row-major order, then the two dimensions.
pub open spec fn json_bytes(data: Seq<i64>, rows: nat, cols: nat) -> Seq<u8> {
    lit_head() + joined(data) + lit_rows() + dec_nat(rows) + lit_cols() + dec_nat(cols) + seq![
        125u8,
    ]
}

/// The canonical digits of a natural number are nonempty, all digits, of
/// length one exactly for a single-digit number, and start with a zero
/// digit only for zero itself.
pub proof fn lemma_dec_nat_props(n: nat)
    ensures
        dec_nat(n).len() >= 1,
        forall|i: int| 0 <= i < dec_nat(n).len() ==> is_digit(#[trigger] dec_nat(n)[i]),
        (dec_nat(n)[0] == 48 <==> n == 0),
        (n < 10 <==> dec_nat(n).len() == 1),
    decreases n,
{
    if n >= 10 {
        lemma_dec_nat_props(n / 10);
    }
}

/// Distinct natural numbers have distinct canonical digit strings.
pub proof fn lemma_dec_nat_injective(a: nat, b: nat)
    requires
        dec_nat(a) == dec_nat(b),
    ensures
        a == b,
    decreases a,
{
    lemma_dec_nat_props(a);
    lemma_dec_nat_props(b);
    if a < 10 && b < 10 {
        assert(dec_nat(a)[0] == dec_nat(b)[0]);
    } else if a >= 10 && b >= 10 {
        assert(a == 10 * (a / 10) + a % 10 && a % 10 < 10) by (nonlinear_arith)
            requires
                a >= 10,
        ;
        assert(b == 10 * (b / 10) + b % 10 && b % 10 < 10) by (nonlinear_arith)
            requires
                b >= 10,
        ;
        let la = dec_nat(a).len() as int;
        let lb = dec_nat(b).len() as int;
        assert(dec_nat(a) == dec_nat(a / 10).push((48 + a % 10) as u8));
        assert(dec_nat(b) == dec_nat(b / 10).push((48 + b % 10) as u8));
        assert(dec_nat(a)[la - 1] == (48 + a % 10) as u8);
        assert(dec_nat(b)[lb - 1] == (48 + b % 10) as u8);
        assert(la == lb);
        assert(a % 10 == b % 10);
        assert(dec_nat(a).drop_last() =~= dec_nat(b).drop_last());
        assert(dec_nat(a / 10) =~= dec_nat(a).drop_last());
        assert(dec_nat(b / 10) =~= dec_nat(b).drop_last());
        lemma_dec_nat_injective(a / 10, b / 10);
    }
}

/// A canonical digit string followed by a non-digit can be read in only
/// one way: if two such renderings agree as byte sequences, the numbers
/// and the remainders agree.
pub proof fn lemma_dec_nat_prefix_unique(a: nat, b: nat, x: Seq<u8>, y: Seq<u8>)
    requires
        dec_nat(a) + x == dec_nat(b) + y,
        x.len() == 0 || !is_digit(x[0]),
        y.len() == 0 || !is_digit(y[0]),
    ensures
        a == b,
        x == y,
{
    lemma_dec_nat_props(a);
    lemma_dec_nat_props(b);
    let la = dec_nat(a).len() as int;
    let lb = dec_nat(b).len() as int;
    assert((dec_nat(a) + x).len() == la + x.len());
    assert((dec_nat(b) + y).len() == lb + y.len());
    if la < lb {
        assert((dec_nat(a) + x)[la] == x[0]);
        assert((dec_nat(b) + y)[la] == dec_nat(b)[la]);
        assert(false);
    } else if lb < la {
        assert((dec_nat(b) + y)[lb] == y[0]);
        assert((dec_nat(a) + x)[lb] == dec_nat(a)[lb]);
        assert(false);
    } else {
        assert forall|i: int| 0 <= i < la implies dec_nat(a)[i] == dec_nat(b)[i] by {
            assert((dec_nat(a) + x)[i] == dec_nat(a)[i]);
            assert((dec_nat(b) + y)[i] == dec_nat(b)[i]);
        }
        assert(dec_nat(a) =~= dec_nat(b));
        lemma_dec_nat_injective(a, b);
        assert forall|i: int| 0 <= i < x.len() implies x[i] == y[i] by {
            assert((dec_nat(a) + x)[la + i] == x[i]);
            assert((dec_nat(b) + y)[lb + i] == y[i]);
        }
        assert(x =~= y);
    }
}

/// Basic shape of an integer rendering: nonempty, starting with a minus
/// sign exactly when negative and a digit otherwise.
pub proof fn lemma_dec_int_props(v: int)
    ensures
        dec_int(v).len() >= 1,
        v < 0 ==> dec_int(v)[0] == 45,
        v >= 0 ==> is_digit(dec_int(v)[0]),
    decreases v,
{
    if v < 0 {
        lemma_dec_nat_props((-v) as nat);
    } else {
        lemma_dec_nat_props(v as nat);
    }
}

/// An integer rendering followed by a non-digit can be read in only one
/// way: if two such renderings agree as byte sequences, the integers and
/// the remainders agree.
pub proof fn lemma_dec_int_prefix_unique(a: int, b: int, x: Seq<u8>, y: Seq<u8>)
    requires
        dec_int(a) + x == dec_int(b) + y,
        x.len() == 0 || !is_digit(x[0]),
        y.len() == 0 || !is_digit(y[0]),
    ensures
        a == b,
        x == y,
{
    lemma_dec_int_props(a);
    lemma_dec_int_props(b);
    if a < 0 && b < 0 {
        let ma = (-a) as nat;
        let mb = (-b) as nat;
        assert(dec_nat(ma) + x =~= (dec_int(a) + x).drop_first());
        assert(dec_nat(mb) + y =~= (dec_int(b) + y).drop_first());
        lemma_dec_nat_prefix_unique(ma, mb, x, y);
    } else if a >= 0 && b >= 0 {
        lemma_dec_nat_prefix_unique(a as nat, b as nat, x, y);
    } else {
        assert((dec_int(a) + x)[0] == dec_int(a)[0]);
        assert((dec_int(b) + y)[0] == dec_int(b)[0]);
        assert(false);
    }
}

/// The number written by a digit string, folding left to right.
spec fn val_digits(s: Seq<u8>) -> int
    decreases s.len(),
{
    if s.len() == 0 {
        0
    } else {
        val_digits(s.drop_last()) * 10 + (s.last() - 48)
    }
}

/// A digit string writes a nonnegative number.
proof fn lemma_val_digits_nonneg(s: Seq<u8>)
    requires
        forall|i: int| 0 <= i < s.len() ==> is_digit(#[trigger] s[i]),
    ensures
        val_digits(s) >= 0,
    decreases s.len(),
{
    if s.len() > 0 {
        assert(forall|i: int|
            0 <= i < s.drop_last().len() ==> is_digit(#[trigger] s.drop_last()[i]));
        lemma_val_digits_nonneg(s.drop_last());
        assert(is_digit(s.last()));
        assert(val_digits(s.drop_last()) * 10 >= 0) by (nonlinear_arith)
            requires
                val_digits(s.drop_last()) >= 0,
        ;
    }
}

/// The canonical digits of a number write that number back.
proof fn lemma_val_dec_nat(n: nat)
    ensures
        val_digits(dec_nat(n)) == n,
    decreases n,
{
    if n < 10 {
        assert(dec_nat(n).drop_last() =~= Seq::<u8>::empty());
        assert(val_digits(Seq::<u8>::empty()) == 0);
        assert(dec_nat(n).last() == (48 + n) as u8);
        assert(val_digits(dec_nat(n)) == val_digits(dec_nat(n).drop_last()) * 10 + (dec_nat(
            n,
        ).last() - 48));
    } else {
        assert(n / 10 < n && n % 10 < 10 && n == 10 * (n / 10) + n % 10) by (nonlinear_arith)
            requires
                n >= 10,
        ;
        lemma_val_dec_nat(n / 10);
        assert(dec_nat(n) == dec_nat(n / 10).push((48 + n % 10) as u8));
        assert(dec_nat(n).drop_last() =~= dec_nat(n / 10));
        assert(dec_nat(n).last() == (48 + n % 10) as u8);
        assert(val_digits(dec_nat(n)) == val_digits(dec_nat(n).drop_last()) * 10 + (dec_nat(
            n,
        ).last() - 48));
        assert(val_digits(dec_nat(n)) == (n / 10) * 10 + n % 10);
    }
}

/// Extending a digit string never shrinks the number it writes.
proof fn lemma_val_take_monotone(s: Seq<u8>, k: int)
    requires
        forall|i: int| 0 <= i < s.len() ==> is_digit(#[trigger] s[i]),
        0 <= k <= s.len(),
    ensures
        val_digits(s) >= val_digits(s.take(k)),
    decreases s.len() - k,
{
    if k < s.len() {
        let dl = s.drop_last();
        assert(forall|i: int| 0 <= i < dl.len() ==> is_digit(#[trigger] dl[i]));
        lemma_val_digits_nonneg(dl);
        assert(is_digit(s.last()));
        assert(val_digits(s) >= val_digits(dl)) by (nonlinear_arith)
            requires
                val_digits(s) == val_digits(dl) * 10 + (s.last() - 48),
                val_digits(dl) >= 0,
                0 <= s.last() - 48,
        ;
        assert(dl.take(k) =~= s.take(k));
        lemma_val_take_monotone(dl, k);
    } else {
        assert(s.take(k) =~= s);
    }
}

/// One more digit multiplies the written number by ten and adds the digit.
proof fn lemma_val_take_step(s: Seq<u8>, k: int)
    requires
        0 <= k < s.len(),
    ensures
        val_digits(s.take(k + 1)) == val_digits(s.take(k)) * 10 + (s[k] - 48),
{
    assert(s.take(k + 1).drop_last() =~= s.take(k));
    assert(s.take(k + 1).last() == s[k]);
}

/// Equal sequences with the same prefix have equal remainders.
proof fn lemma_concat_cancel_left(p: Seq<u8>, a: Seq<u8>, b: Seq<u8>)
    requires
        p + a == p + b,
    ensures
        a == b,
{
    assert((p + a).len() == p.len() + a.len());
    assert((p + b).len() == p.len() + b.len());
    assert forall|i: int| 0 <= i < a.len() implies a[i] == b[i] by {
        assert((p + a)[p.len() + i] == a[i]);
        assert((p + b)[p.len() + i] == b[i]);
    }
    assert(a =~= b);
}

/// Appending one more cell extends the comma-joined rendering by a comma —
/// when any cell precedes it — and the new cell's digits.
pub proof fn lemma_joined_snoc(s: Seq<i64>, v: i64)
    ensures
        s.len() == 0 ==> joined(s.push(v)) == dec_int(v as int),
        s.len() > 0 ==> joined(s.push(v)) == joined(s) + seq![44u8] + dec_int(v as int),
    decreases s.len(),
{
    let p = s.push(v);
    if s.len() == 0 {
        assert(p.len() == 1);
        assert(p[0] == v);
    } else if s.len() == 1 {
        assert(p.len() == 2);
        assert(p.drop_first() =~= seq![v]);
        assert(joined(p) == dec_int(p[0] as int) + seq![44u8] + joined(p.drop_first()));
        assert(p[0] == s[0]);
        assert(joined(p.drop_first()) == dec_int(v as int));
        assert(joined(p) =~= joined(s) + seq![44u8] + dec_int(v as int));
    } else {
        assert(p.drop_first() =~= s.drop_first().push(v));
        lemma_joined_snoc(s.drop_first(), v);
        assert(joined(p) == dec_int(p[0] as int) + seq![44u8] + joined(p.drop_first()));
        assert(p[0] == s[0]);
        assert(joined(p) =~= joined(s) + seq![44u8] + dec_int(v as int));
    }
}

/// A comma-joined cell list followed by a closing bracket can be read in
/// only one way: if two such renderings agree as byte sequences, the cell
/// lists and the remainders agree.
pub proof fn lemma_joined_prefix_unique(a: Seq<i64>, b: Seq<i64>, x: Seq<u8>, y: Seq<u8>)
    requires
        joined(a) + x == joined(b) + y,
        x.len() > 0 && x[0] == 93,
        y.len() > 0 && y[0] == 93,
    ensures
        a == b,
        x == y,
    decreases a.len(),
{
    assert((joined(a) + x).len() == joined(a).len() + x.len());
    assert((joined(b) + y).len() == joined(b).len() + y.len());
    if a.len() == 0 && b.len() == 0 {
        assert forall|i: int| 0 <= i < x.len() implies x[i] == y[i] by {
            assert((joined(a) + x)[i] == x[i]);
            assert((joined(b) + y)[i] == y[i]);
        }
        assert(x =~= y);
        assert(a =~= b);
    } else if a.len() == 0 {
        lemma_dec_int_props(b[0] as int);
        assert((joined(a) + x)[0] == x[0]);
        if b.len() == 1 {
            assert((joined(b) + y)[0] == dec_int(b[0] as int)[0]);
        } else {
            assert(joined(b) == dec_int(b[0] as int) + seq![44u8] + joined(b.drop_first()));
            assert(joined(b)[0] == dec_int(b[0] as int)[0]);
            assert((joined(b) + y)[0] == joined(b)[0]);
        }
        assert(false);
    } else if b.len() == 0 {
        lemma_dec_int_props(a[0] as int);
        assert((joined(b) + y)[0] == y[0]);
        if a.len() == 1 {
            assert((joined(a) + x)[0] == dec_int(a[0] as int)[0]);
        } else {
            assert(joined(a) == dec_int(a[0] as int) + seq![44u8] + joined(a.drop_first()));
            assert(joined(a)[0] == dec_int(a[0] as int)[0]);
            assert((joined(a) + x)[0] == joined(a)[0]);
        }
        assert(false);
    } else {
        let xa: Seq<u8> = if a.len() == 1 {
            x
        } else {
            seq![44u8] + joined(a.drop_first()) + x
        };
        let xb: Seq<u8> = if b.len() == 1 {
            y
        } else {
            seq![44u8] + joined(b.drop_first()) + y
        };
        assert(joined(a) + x =~= dec_int(a[0] as int) + xa);
        assert(joined(b) + y =~= dec_int(b[0] as int) + xb);
        lemma_dec_int_prefix_unique(a[0] as int, b[0] as int, xa, xb);
        if a.len() == 1 && b.len() == 1 {
            assert(a =~= b);
        } else if a.len() == 1 {
            assert(xa[0] == 93);
            assert(xb[0] == 44);
            assert(false);
        } else if b.len() == 1 {
            assert(xa[0] == 44);
            assert(xb[0] == 93);
            assert(false);
        } else {
            let ta = a.drop_first();
            let tb = b.drop_first();
            assert(seq![44u8] + (joined(ta) + x) =~= xa);
            assert(seq![44u8] + (joined(tb) + y) =~= xb);
            lemma_concat_cancel_left(seq![44u8], joined(ta) + x, joined(tb) + y);
            lemma_joined_prefix_unique(ta, tb, x, y);
            assert forall|i: int| 0 <= i < a.len() implies a[i] == b[i] by {
                if i > 0 {
                    assert(ta[i - 1] == a[i]);
                    assert(tb[i - 1] == b[i]);
                }
            }
            assert(a =~= b);
        }
    }
}

/// The encoded record is injective: equal encodings can only come from the
/// same flat cells and the same two dimensions. Together with the decoder's
/// guarantee — whatever it accepts is the exact encoding of what it
/// returns — a successful decode of a matrix's encoding can only return
/// that matrix.
#[verifier::rlimit(50)]
pub proof fn lemma_json_bytes_injective(
    d1: Seq<i64>,
    r1: nat,
    c1: nat,
    d2: Seq<i64>,
    r2: nat,
    c2: nat,
)
    requires
        json_bytes(d1, r1, c1) == json_bytes(d2, r2, c2),
    ensures
        d1 == d2,
        r1 == r2,
        c1 == c2,
{
    let y1 = lit_cols() + dec_nat(c1) + seq![125u8];
    let y2 = lit_cols() + dec_nat(c2) + seq![125u8];
    let x1 = lit_rows() + (dec_nat(r1) + y1);
    let x2 = lit_rows() + (dec_nat(r2) + y2);
    assert(json_bytes(d1, r1, c1) =~= lit_head() + (joined(d1) + x1));
    assert(json_bytes(d2, r2, c2) =~= lit_head() + (joined(d2) + x2));
    lemma_concat_cancel_left(lit_head(), joined(d1) + x1, joined(d2) + x2);
    assert(x1.len() > 0 && x1[0] == 93) by {
        assert(x1[0] == lit_rows()[0]);
    }
    assert(x2.len() > 0 && x2[0] == 93) by {
        assert(x2[0] == lit_rows()[0]);
    }
    lemma_joined_prefix_unique(d1, d2, x1, x2);
    assert(x1 == x2);
    assert(lit_rows() + (dec_nat(r1) + y1) == lit_rows() + (dec_nat(r2) + y2));
    lemma_concat_cancel_left(lit_rows(), dec_nat(r1) + y1, dec_nat(r2) + y2);
    assert(y1[0] == lit_cols()[0]);
    assert(y2[0] == lit_cols()[0]);
    lemma_dec_nat_prefix_unique(r1, r2, y1, y2);
    assert(lit_cols() + (dec_nat(c1) + seq![125u8]) =~= y1);
    assert(lit_cols() + (dec_nat(c2) + seq![125u8]) =~= y2);
    lemma_concat_cancel_left(lit_cols(), dec_nat(c1) + seq![125u8], dec_nat(c2) + seq![125u8]);
    lemma_dec_nat_prefix_unique(c1, c2, seq![125u8], seq![125u8]);
}

/// Appends the canonical decimal digits of `n` to `out`.
fn push_u64_dec(out: &mut Vec<u8>, n: u64)
    ensures
        final(out)@ == old(out)@ + dec_nat(n as nat),
{
    let mut tmp: Vec<u8> = Vec::new();
    let mut cur: u64 = n;
    while cur >= 10
        invariant
            dec_nat(n as nat) == dec_nat(cur as nat) + tmp@.reverse(),
        decreases cur,
    {
        let d: u8 = (cur % 10) as u8 + 48;
        proof {
            assert(cur / 10 < cur && cur % 10 < 10 && cur == 10 * (cur / 10) + cur % 10)
                by (nonlinear_arith)
                requires
                    cur >= 10,
            ;
            assert(dec_nat(cur as nat) == dec_nat((cur / 10) as nat).push(
                (48 + (cur as nat) % 10) as u8,
            ));
            assert(d == (48 + (cur as nat) % 10) as u8);
            assert(tmp@.push(d).reverse() =~= seq![d] + tmp@.reverse());
            assert(dec_nat((cur / 10) as nat) + tmp@.push(d).reverse() =~= dec_nat(cur as nat)
                + tmp@.reverse());
        }
        tmp.push(d);
        cur = cur / 10;
    }
    let d: u8 = cur as u8 + 48;
    proof {
        assert(dec_nat(cur as nat) == seq![(48 + cur as nat) as u8]);
        assert(d == (48 + cur as nat) as u8);
        assert(tmp@.push(d).reverse() =~= seq![d] + tmp@.reverse());
        assert(dec_nat(n as nat) =~= tmp@.push(d).reverse());
    }
    tmp.push(d);
    let m = tmp.len();
    let mut k: usize = 0;
    while k < m
        invariant
            m == tmp@.len(),
            k <= m,
            dec_nat(n as nat) == tmp@.reverse(),
            out@ == old(out)@ + tmp@.reverse().take(k as int),
        decreases m - k,
    {
        out.push(tmp[m - 1 - k]);
        proof {
            assert(tmp@.reverse()[k as int] == tmp@[m - 1 - k]);
            assert(out@ =~= old(out)@ + tmp@.reverse().take(k + 1));
        }
        k = k + 1;
    }
    proof {
        assert(tmp@.reverse().take(m as int) =~= tmp@.reverse());
    }
}

/// Appends the canonical decimal rendering of `v` to `out`: a minus sign
/// and the digits of the magnitude when negative, the digits alone
/// otherwise.
fn push_i64_dec(out: &mut Vec<u8>, v: i64)
    ensures
        final(out)@ == old(out)@ + dec_int(v as int),
{
    if v < 0 {
        let ghost before = out@;
        out.push(45);
        let mag: u64 = (-(v as i128)) as u64;
        proof {
            assert(mag as int == -(v as int));
        }
        push_u64_dec(out, mag);
        proof {
            assert(out@ =~= before + dec_int(v as int));
        }
    } else {
        push_u64_dec(out, v as u64);
    }
}

impl<T: Copy> Matrix<T> {
    /// The serializable record of this matrix: a copy of the flat cell
    /// buffer in row-major order, and the two dimensions.
    pub fn to_parts(&self) -> (r: (Vec<T>, usize, usize))
        ensures
            r.0@ == self.data@,
            r.1 == self.rows,
            r.2 == self.cols,
    {
        let n = self.data.len();
        let mut data: Vec<T> = Vec::new();
        let mut k: usize = 0;
        while k < n
            invariant
                n == self.data@.len(),
                k <= n,
                data@.len() == k,
                forall|i: int| 0 <= i < k ==> data@[i] == self.data@[i],
            decreases n - k,
        {
            data.push(self.data[k]);
            k = k + 1;
        }
        proof {
            assert(data@ =~= self.data@);
        }
        (data, self.rows, self.cols)
    }
}

impl<T> Matrix<T> {
    /// Rebuilds a matrix from its serialized record. The flat buffer must
    /// hold exactly `rows * cols` cells; any other record is rejected with
    /// a size mismatch and nothing partial is built.
    pub fn from_parts(data: Vec<T>, rows: usize, cols: usize) -> (r: Result<Matrix<T>, MatxError>)
        ensures
            data@.len() == rows * cols ==> (r matches Ok(m) && {
                &&& m.wf()
                &&& m.data@ == data@
                &&& m.rows == rows
                &&& m.cols == cols
            }),
            data@.len() != rows * cols ==> r == Err::<Matrix<T>, MatxError>(MatxError::SizeError),
    {
        let n = data.len();
        match rows.checked_mul(cols) {
            Some(sz) => {
                if sz == n {
                    Ok(Matrix { data, rows, cols })
                } else {
                    Err(MatxError::SizeError)
                }
            },
            None => Err(MatxError::SizeError),
        }
    }
}

impl Matrix<i64> {
    /// Encodes this matrix as the record `{"data":[...],"rows":R,"cols":C}`:
    /// the flat cells in row-major order, then the two dimensions, all in
    /// ASCII with no whitespace.
    #[verifier::rlimit(50)]
    pub fn to_json(&self) -> (r: Vec<u8>)
        ensures
            r@ == json_bytes(self.data@, self.rows as nat, self.cols as nat),
    {
        let mut out: Vec<u8> = Vec::new();
        out.push(123);
        out.push(34);
        out.push(100);
        out.push(97);
        out.push(116);
        out.push(97);
        out.push(34);
        out.push(58);
        out.push(91);
        proof {
            assert(out@ =~= lit_head());
        }
        let n = self.data.len();
        let mut k: usize = 0;
        while k < n
            invariant
                n == self.data@.len(),
                k <= n,
                out@ == lit_head() + joined(self.data@.take(k as int)),
            decreases n - k,
        {
            let ghost cells_so_far = self.data@.take(k as int);
            if k > 0 {
                out.push(44);
            }
            push_i64_dec(&mut out, self.data[k]);
            proof {
                lemma_joined_snoc(cells_so_far, self.data@[k as int]);
                assert(cells_so_far.push(self.data@[k as int]) =~= self.data@.take(k + 1));
                assert(out@ =~= lit_head() + joined(self.data@.take(k + 1)));
            }
            k = k + 1;
        }
        proof {
            assert(self.data@.take(n as int) =~= self.data@);
        }
        let ghost with_cells = lit_head() + joined(self.data@);
        out.push(93);
        out.push(44);
        out.push(34);
        out.push(114);
        out.push(111);
        out.push(119);
        out.push(115);
        out.push(34);
        out.push(58);
        proof {
            assert(out@ =~= with_cells + lit_rows());
        }
        let ghost with_rows_key = with_cells + lit_rows();
        push_u64_dec(&mut out, self.rows as u64);
        let ghost with_rows = with_rows_key + dec_nat(self.rows as nat);
        out.push(44);
        out.push(34);
        out.push(99);
        out.push(111);
        out.push(108);
        out.push(115);
        out.push(34);
        out.push(58);
        proof {
            assert(out@ =~= with_rows + lit_cols());
        }
        let ghost with_cols_key = with_rows + lit_cols();
        push_u64_dec(&mut out, self.cols as u64);
        out.push(125);
        proof {
            assert(out@ =~= with_cols_key + dec_nat(self.cols as nat) + seq![125u8]);
            assert(out@ =~= json_bytes(self.data@, self.rows as nat, self.cols as nat));
        }
        out
    }
}

/// The bytes at `p` read as exactly the canonical digits of `x`, ending at
/// the end of the input or at a non-digit.
pub open spec fn starts_nat_at(s: Seq<u8>, p: int, x: u64) -> bool {
    &&& 0 <= p
    &&& p + dec_nat(x as nat).len() <= s.len()
    &&& s.subrange(p, p + dec_nat(x as nat).len() as int) == dec_nat(x as nat)
    &&& (p + dec_nat(x as nat).len() == s.len() || !is_digit(s[p + dec_nat(x as nat).len()]))
}

/// The bytes at `p` read as exactly the canonical rendering of `v`, ending
/// at the end of the input or at a non-digit.
pub open spec fn starts_int_at(s: Seq<u8>, p: int, v: i64) -> bool {
    &&& 0 <= p
    &&& p + dec_int(v as int).len() <= s.len()
    &&& s.subrange(p, p + dec_int(v as int).len() as int) == dec_int(v as int)
    &&& (p + dec_int(v as int).len() == s.len() || !is_digit(s[p + dec_int(v as int).len()]))
}

/// The byte sequence `s` is the encoded record of the matrix `m`.
pub open spec fn encodes(s: Seq<u8>, m: Matrix<i64>) -> bool {
    &&& m.wf()
    &&& s == json_bytes(m.data@, m.rows as nat, m.cols as nat)
}

/// The `rows` key bytes that follow the cell array's closing bracket.
pub open spec fn rows_key_tail() -> Seq<u8> {
    seq![44u8, 34u8, 114u8, 111u8, 119u8, 115u8, 34u8, 58u8]
}

/// Everything that follows the cell array's closing bracket: the two
/// dimensions with their keys and the closing brace, grouped for reading
/// left to right.
pub open spec fn tail_after(rows: nat, cols: nat) -> Seq<u8> {
    rows_key_tail() + (dec_nat(rows) + (lit_cols() + (dec_nat(cols) + seq![125u8])))
}

/// The comma-joined rendering of the cells from index `k` on.
pub open spec fn cells_rest(d: Seq<i64>, k: int) -> Seq<u8>
    decreases d.len() - k,
{
    if k < 0 || k >= d.len() {
        Seq::empty()
    } else if k + 1 == d.len() {
        dec_int(d[k] as int)
    } else {
        dec_int(d[k] as int) + seq![44u8] + cells_rest(d, k + 1)
    }
}

/// The rendering of the cells from index `k` on is the rendering of the
/// cell list with the first `k` cells dropped.
proof fn lemma_cells_rest_joined(d: Seq<i64>, k: int)
    requires
        0 <= k <= d.len(),
    ensures
        cells_rest(d, k) == joined(d.skip(k)),
    decreases d.len() - k,
{
    let t = d.skip(k);
    if k == d.len() {
        assert(t.len() == 0);
    } else if k + 1 == d.len() {
        assert(t.len() == 1);
        assert(t[0] == d[k]);
    } else {
        assert(t[0] == d[k]);
        assert(t.drop_first() =~= d.skip(k + 1));
        lemma_cells_rest_joined(d, k + 1);
    }
}

/// The whole record, regrouped in the order a reader consumes it: the
/// head, then the cells, then the closing bracket, then the tail.
#[verifier::rlimit(50)]
proof fn lemma_json_decompose(d: Seq<i64>, r: nat, c: nat)
    ensures
        json_bytes(d, r, c) == lit_head() + (joined(d) + (seq![93u8] + tail_after(r, c))),
        json_bytes(d, r, c).len() == 9 + joined(d).len() + 1 + tail_after(r, c).len(),
{
    assert(json_bytes(d, r, c) =~= lit_head() + (joined(d) + (seq![93u8] + tail_after(r, c))));
}

/// Reading a known prefix off a suffix of `s`: if the bytes from `p` on
/// are `head` followed by `rest`, then `head` sits at `p`, byte for byte,
/// and `rest` is the bytes from `p + head.len()` on.
proof fn lemma_suffix_peel(s: Seq<u8>, p: int, head: Seq<u8>, rest: Seq<u8>)
    requires
        0 <= p <= s.len(),
        s.subrange(p, s.len() as int) == head + rest,
    ensures
        p + head.len() + rest.len() == s.len(),
        s.subrange(p, p + head.len() as int) == head,
        s.subrange(p + head.len() as int, s.len() as int) == rest,
        forall|i: int| 0 <= i < head.len() ==> s[p + i] == #[trigger] head[i],
{
    let n = s.len() as int;
    assert((head + rest).len() == head.len() + rest.len());
    assert forall|i: int| 0 <= i < head.len() implies s[p + i] == #[trigger] head[i] by {
        assert(s.subrange(p, n)[i] == s[p + i]);
        assert((head + rest)[i] == head[i]);
    }
    assert(s.subrange(p, p + head.len() as int) =~= head);
    assert forall|i: int| 0 <= i < rest.len() implies s.subrange(
        p + head.len() as int,
        n,
    )[i] == rest[i] by {
        assert(s.subrange(p, n)[head.len() + i] == s[p + head.len() + i]);
        assert((head + rest)[head.len() + i] == rest[i]);
        assert(s.subrange(p + head.len() as int, n)[i] == s[p + head.len() + i]);
    }
    assert(s.subrange(p + head.len() as int, n) =~= rest);
}

/// Where the remaining input is the rendering of the cells from `k` on,
/// followed by a closing bracket and the record's tail, the cell at `k`
/// is canonically rendered right at `p`, and the input after it starts
/// with a comma when further cells follow, else with the bracket.
proof fn lemma_cell_starts(s: Seq<u8>, p: int, d: Seq<i64>, k: int, tail: Seq<u8>)
    requires
        0 <= k < d.len(),
        0 <= p <= s.len(),
        s.subrange(p, s.len() as int) == cells_rest(d, k) + tail,
        tail.len() > 0,
        tail[0] == 93,
    ensures
        starts_int_at(s, p, d[k]),
        s.subrange(p + dec_int(d[k] as int).len() as int, s.len() as int) == (if k + 1 < d.len() {
            seq![44u8] + (cells_rest(d, k + 1) + tail)
        } else {
            tail
        }),
{
    let n = s.len() as int;
    let l = dec_int(d[k] as int).len() as int;
    lemma_dec_int_props(d[k] as int);
    if k + 1 < d.len() {
        let rest = seq![44u8] + (cells_rest(d, k + 1) + tail);
        assert(cells_rest(d, k) + tail =~= dec_int(d[k] as int) + rest);
        lemma_suffix_peel(s, p, dec_int(d[k] as int), rest);
        assert(s.subrange(p + l, n)[0] == s[p + l]);
        assert(rest[0] == 44);
    } else {
        assert(cells_rest(d, k) + tail =~= dec_int(d[k] as int) + tail);
        lemma_suffix_peel(s, p, dec_int(d[k] as int), tail);
        assert(s.subrange(p + l, n)[0] == s[p + l]);
    }
}

/// Stitching the parsed pieces back together: input that reads as the
/// head, the cells with their bracket, the two keyed dimensions and the
/// closing brace — with nothing after — is exactly the encoded record.
#[verifier::rlimit(50)]
proof fn lemma_json_assemble(
    s: Seq<u8>,
    pa: int,
    pb: int,
    pc: int,
    pd: int,
    pe: int,
    cells: Seq<i64>,
    rows: nat,
    cols: nat,
)
    requires
        9 <= pa <= pb <= pc <= pd <= pe < s.len(),
        s.subrange(0, 9) == lit_head(),
        s.subrange(9, pa) == joined(cells) + seq![93u8],
        s.subrange(pa, pb) == rows_key_tail(),
        s.subrange(pb, pc) == dec_nat(rows),
        s.subrange(pc, pd) == lit_cols(),
        s.subrange(pd, pe) == dec_nat(cols),
        s.subrange(pe, s.len() as int) == seq![125u8],
        pe + 1 == s.len(),
    ensures
        s == json_bytes(cells, rows, cols),
{
    let n = s.len() as int;
    let w1 = lit_head() + joined(cells);
    assert(s.subrange(9, pa).len() == pa - 9);
    assert((joined(cells) + seq![93u8]).len() == joined(cells).len() + 1);
    assert(joined(cells).len() == pa - 10);
    assert(s.subrange(pa, pb).len() == pb - pa);
    assert(rows_key_tail().len() == 8);
    assert(pb - pa == 8);
    assert(s.subrange(pb, pc).len() == pc - pb);
    assert(dec_nat(rows).len() == pc - pb);
    assert(s.subrange(pc, pd).len() == pd - pc);
    assert(lit_cols().len() == 8);
    assert(pd - pc == 8);
    assert(s.subrange(pd, pe).len() == pe - pd);
    assert(dec_nat(cols).len() == pe - pd);
    assert(lit_rows().len() == 9);
    assert(w1.len() == pa - 1);
    assert(w1.len() == 9 + joined(cells).len());
    assert forall|i: int| 0 <= i < pa - 1 implies s[i] == w1[i] by {
        if i < 9 {
            assert(s.subrange(0, 9)[i] == s[i]);
        } else {
            assert(s.subrange(9, pa)[i - 9] == s[i]);
            assert((joined(cells) + seq![93u8])[i - 9] == joined(cells)[i - 9]);
        }
    }
    let w2 = w1 + lit_rows();
    assert forall|i: int| 0 <= i < pb implies s[i] == w2[i] by {
        if i < pa - 1 {
            assert(s[i] == w1[i]);
        } else if i == pa - 1 {
            assert(s.subrange(9, pa)[i - 9] == s[i]);
            assert((joined(cells) + seq![93u8])[i - 9] == 93);
            assert(w2[i] == lit_rows()[0]);
        } else {
            assert(s.subrange(pa, pb)[i - pa] == s[i]);
            assert(w2[i] == lit_rows()[i - (pa - 1)]);
            assert(lit_rows()[i - (pa - 1)] == rows_key_tail()[i - pa]);
        }
    }
    let w3 = w2 + dec_nat(rows);
    assert forall|i: int| 0 <= i < pc implies s[i] == w3[i] by {
        if i < pb {
            assert(s[i] == w2[i]);
        } else {
            assert(s.subrange(pb, pc)[i - pb] == s[i]);
        }
    }
    let w4 = w3 + lit_cols();
    assert forall|i: int| 0 <= i < pd implies s[i] == w4[i] by {
        if i < pc {
            assert(s[i] == w3[i]);
        } else {
            assert(s.subrange(pc, pd)[i - pc] == s[i]);
        }
    }
    let w5 = w4 + dec_nat(cols);
    assert forall|i: int| 0 <= i < pe implies s[i] == w5[i] by {
        if i < pd {
            assert(s[i] == w4[i]);
        } else {
            assert(s.subrange(pd, pe)[i - pd] == s[i]);
        }
    }
    let w6 = w5 + seq![125u8];
    assert forall|i: int| 0 <= i < n implies s[i] == w6[i] by {
        if i < pe {
            assert(s[i] == w5[i]);
        } else {
            assert(s.subrange(pe, n)[i - pe] == s[i]);
        }
    }
    assert(s =~= w6);
    assert(json_bytes(cells, rows, cols) == w6);
}

/// The opening bytes of the record, matched at `p`.
fn expect_lit_head(s: &Vec<u8>, p: usize) -> (r: Option<usize>)
    ensures
        r matches Some(q) ==> q == p + 9 && p + 9 <= s@.len() && s@.subrange(p as int, p + 9)
            == lit_head(),
        r is None ==> !(p + 9 <= s@.len() && s@.subrange(p as int, p + 9) == lit_head()),
{
    let n = s.len();
    if n < 9 || p > n - 9 {
        return None;
    }
    let ok = s[p] == 123 && s[p + 1] == 34 && s[p + 2] == 100 && s[p + 3] == 97 && s[p + 4] == 116
        && s[p + 5] == 97 && s[p + 6] == 34 && s[p + 7] == 58 && s[p + 8] == 91;
    if ok {
        proof {
            assert(s@.subrange(p as int, p + 9) =~= lit_head());
        }
        Some(p + 9)
    } else {
        proof {
            if s@.subrange(p as int, p + 9) == lit_head() {
                assert forall|i: int| 0 <= i < 9 implies s@[p + i] == lit_head()[i] by {
                    assert(s@.subrange(p as int, p + 9)[i] == s@[p + i]);
                }
                assert(false);
            }
        }
        None
    }
}

/// The `rows` key bytes, matched at `p`.
fn expect_rows_key(s: &Vec<u8>, p: usize) -> (r: Option<usize>)
    ensures
        r matches Some(q) ==> q == p + 8 && p + 8 <= s@.len() && s@.subrange(p as int, p + 8)
            == rows_key_tail(),
        r is None ==> !(p + 8 <= s@.len() && s@.subrange(p as int, p + 8) == rows_key_tail()),
{
    let n = s.len();
    if n < 8 || p > n - 8 {
        return None;
    }
    let ok = s[p] == 44 && s[p + 1] == 34 && s[p + 2] == 114 && s[p + 3] == 111 && s[p + 4] == 119
        && s[p + 5] == 115 && s[p + 6] == 34 && s[p + 7] == 58;
    if ok {
        proof {
            assert(s@.subrange(p as int, p + 8) =~= rows_key_tail());
        }
        Some(p + 8)
    } else {
        proof {
            if s@.subrange(p as int, p + 8) == rows_key_tail() {
                assert forall|i: int| 0 <= i < 8 implies s@[p + i] == rows_key_tail()[i] by {
                    assert(s@.subrange(p as int, p + 8)[i] == s@[p + i]);
                }
                assert(false);
            }
        }
        None
    }
}

/// The `cols` key bytes, matched at `p`.
fn expect_cols_key(s: &Vec<u8>, p: usize) -> (r: Option<usize>)
    ensures
        r matches Some(q) ==> q == p + 8 && p + 8 <= s@.len() && s@.subrange(p as int, p + 8)
            == lit_cols(),
        r is None ==> !(p + 8 <= s@.len() && s@.subrange(p as int, p + 8) == lit_cols()),
{
    let n = s.len();
    if n < 8 || p > n - 8 {
        return None;
    }
    let ok = s[p] == 44 && s[p + 1] == 34 && s[p + 2] == 99 && s[p + 3] == 111 && s[p + 4] == 108
        && s[p + 5] == 115 && s[p + 6] == 34 && s[p + 7] == 58;
    if ok {
        proof {
            assert(s@.subrange(p as int, p + 8) =~= lit_cols());
        }
        Some(p + 8)
    } else {
        proof {
            if s@.subrange(p as int, p + 8) == lit_cols() {
                assert forall|i: int| 0 <= i < 8 implies s@[p + i] == lit_cols()[i] by {
                    assert(s@.subrange(p as int, p + 8)[i] == s@[p + i]);
                }
                assert(false);
            }
        }
        None
    }
}

/// Reads a canonical (no leading zero) run of decimal digits starting at
/// `p` and ending at the first non-digit. The consumed bytes are exactly
/// the canonical rendering of the returned number; conversely, whenever a
/// canonically rendered number does start at `p`, the read succeeds and
/// returns exactly that number.
fn parse_u64(s: &Vec<u8>, p: usize) -> (r: Option<(u64, usize)>)
    ensures
        r matches Some(t) ==> {
            &&& p < t.1 <= s@.len()
            &&& s@.subrange(p as int, t.1 as int) == dec_nat(t.0 as nat)
            &&& (t.1 == s@.len() || !is_digit(s@[t.1 as int]))
        },
        r matches Some(t) ==> forall|x: u64|
            starts_nat_at(s@, p as int, x) ==> x == t.0 && p + dec_nat(x as nat).len() == t.1,
        r is None ==> forall|x: u64| !starts_nat_at(s@, p as int, x),
{
    let n = s.len();
    if p >= n {
        proof {
            assert forall|x: u64| !starts_nat_at(s@, p as int, x) by {
                lemma_dec_nat_props(x as nat);
            }
        }
        return None;
    }
    let b0 = s[p];
    if !(48 <= b0 && b0 <= 57) {
        proof {
            assert forall|x: u64| !starts_nat_at(s@, p as int, x) by {
                lemma_dec_nat_props(x as nat);
                if starts_nat_at(s@, p as int, x) {
                    assert(s@.subrange(p as int, p + dec_nat(x as nat).len())[0] == s@[p as int]);
                }
            }
        }
        return None;
    }
    if b0 == 48 {
        if p + 1 < n && 48 <= s[p + 1] && s[p + 1] <= 57 {
            proof {
                assert forall|x: u64| !starts_nat_at(s@, p as int, x) by {
                    lemma_dec_nat_props(x as nat);
                    if starts_nat_at(s@, p as int, x) {
                        let l = dec_nat(x as nat).len() as int;
                        assert(s@.subrange(p as int, p + l)[0] == s@[p as int]);
                        assert(x == 0);
                        assert(l == 1);
                    }
                }
            }
            return None;
        }
        proof {
            assert(s@.subrange(p as int, p + 1) =~= dec_nat(0));
            assert forall|x: u64| starts_nat_at(s@, p as int, x) implies x == 0 && p + dec_nat(
                x as nat,
            ).len() == p + 1 by {
                lemma_dec_nat_props(x as nat);
                let l = dec_nat(x as nat).len() as int;
                assert(s@.subrange(p as int, p + l)[0] == s@[p as int]);
            }
        }
        return Some((0, p + 1));
    }
    let mut acc: u64 = (b0 - 48) as u64;
    let mut q: usize = p + 1;
    proof {
        assert(s@.subrange(p as int, q as int) =~= dec_nat(acc as nat));
    }
    while q < n && 48 <= s[q] && s[q] <= 57
        invariant
            n == s@.len(),
            p < q <= n,
            1 <= acc,
            s@.subrange(p as int, q as int) == dec_nat(acc as nat),
        decreases n - q,
    {
        let d: u8 = s[q] - 48;
        if acc > (u64::MAX - d as u64) / 10 {
            proof {
                lemma_dec_nat_props(acc as nat);
                assert forall|x: u64| !starts_nat_at(s@, p as int, x) by {
                    if starts_nat_at(s@, p as int, x) {
                        let sx = dec_nat(x as nat);
                        let l = sx.len() as int;
                        lemma_dec_nat_props(x as nat);
                        let k = q - p;
                        if l <= k {
                            if p + l < q {
                                assert(s@[p + l] == s@.subrange(p as int, q as int)[l]);
                                assert(s@[p + l] == dec_nat(acc as nat)[l]);
                                assert(is_digit(s@[p + l]));
                            } else {
                                assert(p + l == q);
                                assert(is_digit(s@[p + l]));
                            }
                            assert(false);
                        }
                        assert(k < l);
                        assert(sx =~= s@.subrange(p as int, p + l));
                        assert(sx.take(k) =~= s@.subrange(p as int, q as int));
                        lemma_val_dec_nat(acc as nat);
                        assert(val_digits(sx.take(k)) == acc);
                        lemma_val_take_step(sx, k);
                        assert(sx[k] == s@[q as int]);
                        assert(val_digits(sx.take(k + 1)) == acc * 10 + d);
                        lemma_val_take_monotone(sx, k + 1);
                        lemma_val_dec_nat(x as nat);
                        assert(x >= acc * 10 + d);
                        assert(10 * (acc as int) + d > u64::MAX) by (nonlinear_arith)
                            requires
                                acc as int > (u64::MAX - d as int) / 10,
                                0 <= d < 10,
                        ;
                        assert(false);
                    }
                }
            }
            return None;
        }
        proof {
            let ghost dd: int = d as int;
            let ghost lim: int = (u64::MAX - d) as int;
            assert(10 * (acc as int) + dd <= u64::MAX) by (nonlinear_arith)
                requires
                    acc as int <= lim / 10,
                    lim == u64::MAX - dd,
                    0 <= dd < 10,
                    0 <= acc,
            ;
        }
        let ghost acc_old: u64 = acc;
        acc = acc * 10 + d as u64;
        proof {
            let ghost x: int = acc as int;
            vstd::arithmetic::div_mod::lemma_fundamental_div_mod_converse_div(
                x,
                10,
                acc_old as int,
                d as int,
            );
            vstd::arithmetic::div_mod::lemma_fundamental_div_mod_converse_mod(
                x,
                10,
                acc_old as int,
                d as int,
            );
            assert(acc >= 10);
            assert(dec_nat(acc as nat) == dec_nat((acc_old) as nat).push(
                (48 + (acc as nat) % 10) as u8,
            ));
            assert(s@[q as int] == (48 + (acc as nat) % 10) as u8);
            assert(s@.subrange(p as int, q + 1) =~= s@.subrange(p as int, q as int).push(
                s@[q as int],
            ));
        }
        q = q + 1;
    }
    proof {
        assert forall|x: u64| starts_nat_at(s@, p as int, x) implies x == acc && p + dec_nat(
            x as nat,
        ).len() == q by {
            let l = dec_nat(x as nat).len() as int;
            assert(s@.subrange(p as int, n as int) =~= s@.subrange(p as int, q as int)
                + s@.subrange(q as int, n as int));
            assert(s@.subrange(p as int, n as int) =~= s@.subrange(p as int, p + l) + s@.subrange(
                p + l,
                n as int,
            ));
            if q < n {
                assert(s@.subrange(q as int, n as int)[0] == s@[q as int]);
            }
            if p + l < n {
                assert(s@.subrange(p + l, n as int)[0] == s@[p + l]);
            }
            lemma_dec_nat_prefix_unique(
                acc as nat,
                x as nat,
                s@.subrange(q as int, n as int),
                s@.subrange(p + l, n as int),
            );
        }
    }
    Some((acc, q))
}

/// A negative integer's rendering at `p` is a minus sign and then its
/// magnitude's canonical digits at `p + 1`.
proof fn lemma_starts_int_negative(s: Seq<u8>, p: int, v: i64)
    requires
        starts_int_at(s, p, v),
        v < 0,
    ensures
        0 <= p < s.len(),
        s[p] == 45,
        starts_nat_at(s, p + 1, ((-(v as int)) as u64)),
        dec_int(v as int).len() == 1 + dec_nat((-(v as int)) as nat).len(),
{
    let mv: u64 = (-(v as int)) as u64;
    let l = dec_int(v as int).len() as int;
    lemma_dec_int_props(v as int);
    assert(s.subrange(p, p + l)[0] == s[p]);
    assert(dec_int(v as int) == seq![45u8] + dec_nat(mv as nat));
    assert forall|i: int| 0 <= i < dec_nat(mv as nat).len() implies s.subrange(
        p + 1,
        p + 1 + dec_nat(mv as nat).len() as int,
    )[i] == dec_nat(mv as nat)[i] by {
        assert(s.subrange(p, p + l)[i + 1] == dec_int(v as int)[i + 1]);
    }
    assert(s.subrange(p + 1, p + 1 + dec_nat(mv as nat).len() as int) =~= dec_nat(mv as nat));
}

/// A nonnegative integer's rendering is exactly its magnitude's digits.
proof fn lemma_starts_int_nonnegative(s: Seq<u8>, p: int, v: i64)
    requires
        starts_int_at(s, p, v),
        v >= 0,
    ensures
        starts_nat_at(s, p, v as u64),
        dec_int(v as int) == dec_nat((v as u64) as nat),
{
}

/// Reads a canonically rendered integer: an optional minus sign — never
/// before a zero — then a canonical digit run, ending at the first
/// non-digit. The consumed bytes are exactly the canonical rendering of
/// the returned integer; conversely, whenever a canonically rendered
/// integer does start at `p`, the read succeeds and returns exactly it.
fn parse_i64(s: &Vec<u8>, p: usize) -> (r: Option<(i64, usize)>)
    ensures
        r matches Some(t) ==> {
            &&& p < t.1 <= s@.len()
            &&& s@.subrange(p as int, t.1 as int) == dec_int(t.0 as int)
            &&& (t.1 == s@.len() || !is_digit(s@[t.1 as int]))
        },
        r matches Some(t) ==> forall|v: i64|
            starts_int_at(s@, p as int, v) ==> v == t.0 && p + dec_int(v as int).len() == t.1,
        r is None ==> forall|v: i64| !starts_int_at(s@, p as int, v),
{
    let n = s.len();
    if p < n && s[p] == 45 {
        match parse_u64(s, p + 1) {
            Some((mag, q)) => {
                if mag == 0 || mag > 9223372036854775808u64 {
                    proof {
                        assert forall|v: i64| !starts_int_at(s@, p as int, v) by {
                            if starts_int_at(s@, p as int, v) {
                                if v >= 0 {
                                    lemma_dec_int_props(v as int);
                                    assert(s@.subrange(
                                        p as int,
                                        p + dec_int(v as int).len() as int,
                                    )[0] == s@[p as int]);
                                } else {
                                    lemma_starts_int_negative(s@, p as int, v);
                                    assert((-(v as int)) as u64 == mag);
                                }
                                assert(false);
                            }
                        }
                    }
                    return None;
                }
                let v: i64 = if mag == 9223372036854775808u64 {
                    i64::MIN
                } else {
                    -(mag as i64)
                };
                proof {
                    assert(v as int == -(mag as int));
                    assert(s@.subrange(p as int, q as int) =~= seq![45u8] + s@.subrange(
                        p + 1,
                        q as int,
                    ));
                    assert forall|w: i64| starts_int_at(s@, p as int, w) implies w == v && p
                        + dec_int(w as int).len() == q by {
                        if w >= 0 {
                            lemma_dec_int_props(w as int);
                            assert(s@.subrange(p as int, p + dec_int(w as int).len() as int)[0]
                                == s@[p as int]);
                            assert(false);
                        } else {
                            lemma_starts_int_negative(s@, p as int, w);
                            assert((-(w as int)) as u64 == mag);
                        }
                    }
                }
                Some((v, q))
            },
            None => {
                proof {
                    assert forall|v: i64| !starts_int_at(s@, p as int, v) by {
                        if starts_int_at(s@, p as int, v) {
                            if v >= 0 {
                                lemma_dec_int_props(v as int);
                                assert(s@.subrange(p as int, p + dec_int(v as int).len() as int)[0]
                                    == s@[p as int]);
                            } else {
                                lemma_starts_int_negative(s@, p as int, v);
                            }
                            assert(false);
                        }
                    }
                }
                None
            },
        }
    } else {
        match parse_u64(s, p) {
            Some((mag, q)) => {
                if mag > 9223372036854775807u64 {
                    proof {
                        assert forall|v: i64| !starts_int_at(s@, p as int, v) by {
                            if starts_int_at(s@, p as int, v) {
                                if v >= 0 {
                                    lemma_starts_int_nonnegative(s@, p as int, v);
                                    assert(v as u64 == mag);
                                } else {
                                    lemma_starts_int_negative(s@, p as int, v);
                                }
                                assert(false);
                            }
                        }
                    }
                    return None;
                }
                proof {
                    assert forall|w: i64| starts_int_at(s@, p as int, w) implies w == mag as i64
                        && p + dec_int(w as int).len() == q by {
                        if w >= 0 {
                            lemma_starts_int_nonnegative(s@, p as int, w);
                            assert(w as u64 == mag);
                        } else {
                            lemma_starts_int_negative(s@, p as int, w);
                            lemma_dec_nat_props(mag as nat);
                            assert(s@[p as int] == s@.subrange(p as int, q as int)[0]);
                            assert(is_digit(s@[p as int]));
                            assert(false);
                        }
                    }
                }
                Some((mag as i64, q))
            },
            None => {
                proof {
                    assert forall|v: i64| !starts_int_at(s@, p as int, v) by {
                        if starts_int_at(s@, p as int, v) {
                            if v >= 0 {
                                lemma_starts_int_nonnegative(s@, p as int, v);
                            } else {
                                lemma_dec_int_props(v as int);
                                assert(s@.subrange(p as int, p + dec_int(v as int).len() as int)[0]
                                    == s@[p as int]);
                            }
                            assert(false);
                        }
                    }
                }
                None
            },
        }
    }
}


impl Matrix<i64> {
    /// Decodes the record produced by `to_json`. Whatever this accepts is
    /// exactly the encoding of the well-formed matrix it returns; and it
    /// accepts the encoding of every well-formed matrix, returning that
    /// matrix, so decoding a matrix's encoding always gives the matrix
    /// back.
    #[verifier::rlimit(100)]
    pub fn from_json(s: &Vec<u8>) -> (r: Option<Matrix<i64>>)
        ensures
            r matches Some(m) ==> encodes(s@, m),
            forall|m: Matrix<i64>| #[trigger] encodes(s@, m) ==> (r matches Some(out)
                && out.data@ == m.data@ && out.rows == m.rows && out.cols == m.cols),
    {
        let n = s.len();
        let p0 = match expect_lit_head(s, 0) {
            Some(q) => q,
            None => {
                proof {
                    assert forall|m: Matrix<i64>| !encodes(s@, m) by {
                        if encodes(s@, m) {
                            lemma_json_decompose(m.data@, m.rows as nat, m.cols as nat);
                            assert(s@.subrange(0, n as int) =~= s@);
                            lemma_suffix_peel(
                                s@,
                                0,
                                lit_head(),
                                joined(m.data@) + (seq![93u8] + tail_after(
                                    m.rows as nat,
                                    m.cols as nat,
                                )),
                            );
                            assert(false);
                        }
                    }
                }
                return None;
            },
        };
        proof {
            assert forall|m: Matrix<i64>| encodes(s@, m) implies s@.subrange(9, n as int)
                == joined(m.data@) + (seq![93u8] + tail_after(m.rows as nat, m.cols as nat)) by {
                lemma_json_decompose(m.data@, m.rows as nat, m.cols as nat);
                assert(s@.subrange(0, n as int) =~= s@);
                lemma_suffix_peel(
                    s@,
                    0,
                    lit_head(),
                    joined(m.data@) + (seq![93u8] + tail_after(m.rows as nat, m.cols as nat)),
                );
            }
        }
        let mut p = p0;
        let mut cells: Vec<i64> = Vec::new();
        if p < n && s[p] == 93 {
            proof {
                assert forall|m: Matrix<i64>| encodes(s@, m) implies cells@ == m.data@
                    && s@.subrange(p + 1, n as int) == tail_after(m.rows as nat, m.cols as nat) by {
                    let d = m.data@;
                    let tl = tail_after(m.rows as nat, m.cols as nat);
                    lemma_suffix_peel(s@, 9, joined(d), seq![93u8] + tl);
                    if d.len() > 0 {
                        lemma_dec_int_props(d[0] as int);
                        if d.len() == 1 {
                            assert(s@[9] == joined(d)[0]);
                        } else {
                            assert(joined(d) == dec_int(d[0] as int) + seq![44u8] + joined(
                                d.drop_first(),
                            ));
                            assert((dec_int(d[0] as int) + seq![44u8])[0] == dec_int(
                                d[0] as int,
                            )[0]);
                            assert(joined(d)[0] == (dec_int(d[0] as int) + seq![44u8])[0]);
                            assert(s@[9] == joined(d)[0]);
                        }
                        assert(false);
                    } else {
                        assert(joined(d).len() == 0);
                        assert(s@.subrange(9, n as int) =~= seq![93u8] + tl);
                        lemma_suffix_peel(s@, 9, seq![93u8], tl);
                        assert(cells@ =~= d);
                    }
                }
            }
            p = p + 1;
            proof {
                assert(s@.subrange(9, p as int) =~= joined(cells@) + seq![93u8]);
            }
        } else {
            proof {
                assert forall|m: Matrix<i64>| encodes(s@, m) implies {
                    &&& cells@.len() < m.data@.len()
                    &&& cells@ == m.data@.take(cells@.len() as int)
                    &&& s@.subrange(p as int, n as int) == cells_rest(m.data@, cells@.len() as int)
                        + (seq![93u8] + tail_after(m.rows as nat, m.cols as nat))
                } by {
                    let d = m.data@;
                    let tl = tail_after(m.rows as nat, m.cols as nat);
                    lemma_suffix_peel(s@, 9, joined(d), seq![93u8] + tl);
                    if d.len() == 0 {
                        assert(joined(d).len() == 0);
                        assert(s@.subrange(9, n as int) =~= seq![93u8] + tl);
                        lemma_suffix_peel(s@, 9, seq![93u8], tl);
                        assert(s@[9] == 93);
                        assert(9 < n);
                        assert(false);
                    }
                    lemma_cells_rest_joined(d, 0);
                    assert(d.skip(0) =~= d);
                    assert(cells@ =~= d.take(0));
                }
            }
            loop
                invariant_except_break
                    s@.subrange(9, p as int) == (if cells@.len() == 0 {
                        Seq::<u8>::empty()
                    } else {
                        joined(cells@) + seq![44u8]
                    }),
                    forall|m: Matrix<i64>| #[trigger] encodes(s@, m) ==> {
                        &&& cells@.len() < m.data@.len()
                        &&& cells@ == m.data@.take(cells@.len() as int)
                        &&& s@.subrange(p as int, n as int) == cells_rest(
                            m.data@,
                            cells@.len() as int,
                        ) + (seq![93u8] + tail_after(m.rows as nat, m.cols as nat))
                    },
                invariant
                    n == s@.len(),
                    9 <= p <= n,
                ensures
                    n == s@.len(),
                    9 <= p <= n,
                    s@.subrange(9, p as int) == joined(cells@) + seq![93u8],
                    forall|m: Matrix<i64>| #[trigger] encodes(s@, m) ==> cells@ == m.data@
                        && s@.subrange(p as int, n as int) == tail_after(
                        m.rows as nat,
                        m.cols as nat,
                    ),
                decreases n - p,
            {
                let t = match parse_i64(s, p) {
                    Some(x) => x,
                    None => {
                        proof {
                            assert forall|m: Matrix<i64>| !encodes(s@, m) by {
                                if encodes(s@, m) {
                                    lemma_cell_starts(
                                        s@,
                                        p as int,
                                        m.data@,
                                        cells@.len() as int,
                                        seq![93u8] + tail_after(m.rows as nat, m.cols as nat),
                                    );
                                    assert(false);
                                }
                            }
                        }
                        return None;
                    },
                };
                let (v, p2) = t;
                proof {
                    lemma_joined_snoc(cells@, v);
                    assert(s@.subrange(9, p2 as int) =~= s@.subrange(9, p as int) + s@.subrange(
                        p as int,
                        p2 as int,
                    ));
                    assert(s@.subrange(9, p2 as int) =~= joined(cells@.push(v)) + seq![44u8].take(
                        0,
                    ));
                    assert(s@.subrange(9, p2 as int) =~= joined(cells@.push(v)));
                    assert forall|m: Matrix<i64>| encodes(s@, m) implies {
                        &&& cells@.push(v).len() <= m.data@.len()
                        &&& cells@.push(v) == m.data@.take(cells@.push(v).len() as int)
                        &&& s@.subrange(p2 as int, n as int) == (if cells@.len() + 1
                            < m.data@.len() {
                            seq![44u8] + (cells_rest(m.data@, cells@.len() as int + 1) + (seq![93u8]
                                + tail_after(m.rows as nat, m.cols as nat)))
                        } else {
                            seq![93u8] + tail_after(m.rows as nat, m.cols as nat)
                        })
                    } by {
                        let d = m.data@;
                        let k = cells@.len() as int;
                        lemma_cell_starts(
                            s@,
                            p as int,
                            d,
                            k,
                            seq![93u8] + tail_after(m.rows as nat, m.cols as nat),
                        );
                        assert(v == d[k]);
                        assert(cells@.push(v) =~= d.take(k + 1));
                    }
                }
                cells.push(v);
                p = p2;
                if p < n && s[p] == 44 {
                    proof {
                        assert(s@.subrange(9, p + 1) =~= s@.subrange(9, p as int) + seq![44u8]);
                        assert forall|m: Matrix<i64>| encodes(s@, m) implies {
                            &&& cells@.len() < m.data@.len()
                            &&& cells@ == m.data@.take(cells@.len() as int)
                            &&& s@.subrange(p + 1, n as int) == cells_rest(
                                m.data@,
                                cells@.len() as int,
                            ) + (seq![93u8] + tail_after(m.rows as nat, m.cols as nat))
                        } by {
                            let d = m.data@;
                            let k = cells@.len() as int;
                            if k == d.len() {
                                assert(s@.subrange(p as int, n as int)[0] == s@[p as int]);
                                assert((seq![93u8] + tail_after(m.rows as nat, m.cols as nat))[0]
                                    == 93);
                                assert(false);
                            }
                            assert(s@.subrange(p as int, n as int) == seq![44u8] + (cells_rest(
                                d,
                                k,
                            ) + (seq![93u8] + tail_after(m.rows as nat, m.cols as nat))));
                            lemma_suffix_peel(
                                s@,
                                p as int,
                                seq![44u8],
                                cells_rest(d, k) + (seq![93u8] + tail_after(
                                    m.rows as nat,
                                    m.cols as nat,
                                )),
                            );
                        }
                    }
                    p = p + 1;
                } else if p < n && s[p] == 93 {
                    proof {
                        assert(s@.subrange(9, p + 1) =~= s@.subrange(9, p as int) + seq![93u8]);
                        assert forall|m: Matrix<i64>| encodes(s@, m) implies cells@ == m.data@
                            && s@.subrange(p + 1, n as int) == tail_after(
                            m.rows as nat,
                            m.cols as nat,
                        ) by {
                            let d = m.data@;
                            let k = cells@.len() as int;
                            if k < d.len() {
                                assert(s@.subrange(p as int, n as int)[0] == s@[p as int]);
                                assert((seq![44u8] + (cells_rest(d, k) + (seq![93u8] + tail_after(
                                    m.rows as nat,
                                    m.cols as nat,
                                ))))[0] == 44);
                                assert(false);
                            }
                            assert(cells@ =~= d);
                            lemma_suffix_peel(
                                s@,
                                p as int,
                                seq![93u8],
                                tail_after(m.rows as nat, m.cols as nat),
                            );
                        }
                    }
                    p = p + 1;
                    break ;
                } else {
                    proof {
                        assert forall|m: Matrix<i64>| !encodes(s@, m) by {
                            if encodes(s@, m) {
                                let d = m.data@;
                                let k = cells@.len() as int;
                                assert(s@.subrange(p as int, n as int).len() == n - p);
                                if k < d.len() {
                                    assert((seq![44u8] + (cells_rest(d, k) + (seq![93u8]
                                        + tail_after(m.rows as nat, m.cols as nat)))).len() >= 1);
                                    assert(p < n);
                                    assert(s@.subrange(p as int, n as int)[0] == s@[p as int]);
                                    assert((seq![44u8] + (cells_rest(d, k) + (seq![93u8]
                                        + tail_after(m.rows as nat, m.cols as nat))))[0] == 44);
                                } else {
                                    assert((seq![93u8] + tail_after(m.rows as nat, m.cols as nat)).len()
                                        >= 1);
                                    assert(p < n);
                                    assert(s@.subrange(p as int, n as int)[0] == s@[p as int]);
                                    assert((seq![93u8] + tail_after(m.rows as nat, m.cols as nat))[0]
                                        == 93);
                                }
                                assert(false);
                            }
                        }
                    }
                    return None;
                }
            }
        }
        let ghost pa: int = p as int;
        let p1 = match expect_rows_key(s, p) {
            Some(q) => q,
            None => {
                proof {
                    assert forall|m: Matrix<i64>| !encodes(s@, m) by {
                        if encodes(s@, m) {
                            lemma_suffix_peel(
                                s@,
                                p as int,
                                rows_key_tail(),
                                dec_nat(m.rows as nat) + (lit_cols() + (dec_nat(m.cols as nat)
                                    + seq![125u8])),
                            );
                            assert(false);
                        }
                    }
                }
                return None;
            },
        };
        proof {
            assert forall|m: Matrix<i64>| encodes(s@, m) implies s@.subrange(p1 as int, n as int)
                == dec_nat(m.rows as nat) + (lit_cols() + (dec_nat(m.cols as nat) + seq![125u8]))
                by {
                lemma_suffix_peel(
                    s@,
                    p as int,
                    rows_key_tail(),
                    dec_nat(m.rows as nat) + (lit_cols() + (dec_nat(m.cols as nat)
                        + seq![125u8])),
                );
            }
        }
        let t = match parse_u64(s, p1) {
            Some(x) => x,
            None => {
                proof {
                    assert forall|m: Matrix<i64>| !encodes(s@, m) by {
                        if encodes(s@, m) {
                            lemma_suffix_peel(
                                s@,
                                p1 as int,
                                dec_nat(m.rows as nat),
                                lit_cols() + (dec_nat(m.cols as nat) + seq![125u8]),
                            );
                            let l = dec_nat(m.rows as nat).len() as int;
                            assert(s@.subrange(p1 + l, n as int)[0] == s@[p1 + l]);
                            assert((lit_cols() + (dec_nat(m.cols as nat) + seq![125u8]))[0] == 44);
                            assert(starts_nat_at(s@, p1 as int, m.rows as u64));
                            assert(false);
                        }
                    }
                }
                return None;
            },
        };
        let (rows64, p2) = t;
        proof {
            assert forall|m: Matrix<i64>| encodes(s@, m) implies rows64 == m.rows as u64
                && s@.subrange(p2 as int, n as int) == lit_cols() + (dec_nat(m.cols as nat)
                + seq![125u8]) by {
                lemma_suffix_peel(
                    s@,
                    p1 as int,
                    dec_nat(m.rows as nat),
                    lit_cols() + (dec_nat(m.cols as nat) + seq![125u8]),
                );
                let l = dec_nat(m.rows as nat).len() as int;
                assert(s@.subrange(p1 + l, n as int)[0] == s@[p1 + l]);
                assert((lit_cols() + (dec_nat(m.cols as nat) + seq![125u8]))[0] == 44);
                assert(starts_nat_at(s@, p1 as int, m.rows as u64));
            }
        }
        let ghost pb: int = p1 as int;
        let ghost pc: int = p2 as int;
        let p3 = match expect_cols_key(s, p2) {
            Some(q) => q,
            None => {
                proof {
                    assert forall|m: Matrix<i64>| !encodes(s@, m) by {
                        if encodes(s@, m) {
                            lemma_suffix_peel(
                                s@,
                                p2 as int,
                                lit_cols(),
                                dec_nat(m.cols as nat) + seq![125u8],
                            );
                            assert(false);
                        }
                    }
                }
                return None;
            },
        };
        proof {
            assert forall|m: Matrix<i64>| encodes(s@, m) implies s@.subrange(p3 as int, n as int)
                == dec_nat(m.cols as nat) + seq![125u8] by {
                lemma_suffix_peel(s@, p2 as int, lit_cols(), dec_nat(m.cols as nat) + seq![125u8]);
            }
        }
        let t = match parse_u64(s, p3) {
            Some(x) => x,
            None => {
                proof {
                    assert forall|m: Matrix<i64>| !encodes(s@, m) by {
                        if encodes(s@, m) {
                            lemma_suffix_peel(s@, p3 as int, dec_nat(m.cols as nat), seq![125u8]);
                            let l = dec_nat(m.cols as nat).len() as int;
                            assert(s@.subrange(p3 + l, n as int)[0] == s@[p3 + l]);
                            assert(starts_nat_at(s@, p3 as int, m.cols as u64));
                            assert(false);
                        }
                    }
                }
                return None;
            },
        };
        let (cols64, p4) = t;
        proof {
            assert forall|m: Matrix<i64>| encodes(s@, m) implies cols64 == m.cols as u64
                && s@.subrange(p4 as int, n as int) == seq![125u8] by {
                lemma_suffix_peel(s@, p3 as int, dec_nat(m.cols as nat), seq![125u8]);
                let l = dec_nat(m.cols as nat).len() as int;
                assert(s@.subrange(p3 + l, n as int)[0] == s@[p3 + l]);
                assert(starts_nat_at(s@, p3 as int, m.cols as u64));
            }
        }
        let ghost pd: int = p3 as int;
        let ghost pe: int = p4 as int;
        if !(p4 < n && s[p4] == 125 && p4 + 1 == n) {
            proof {
                assert forall|m: Matrix<i64>| !encodes(s@, m) by {
                    if encodes(s@, m) {
                        assert(s@.subrange(p4 as int, n as int)[0] == s@[p4 as int]);
                        assert(s@.subrange(p4 as int, n as int).len() == 1);
                        assert(false);
                    }
                }
            }
            return None;
        }
        if rows64 > usize::MAX as u64 || cols64 > usize::MAX as u64 {
            proof {
                assert forall|m: Matrix<i64>| !encodes(s@, m) by {
                    if encodes(s@, m) {
                        assert(rows64 == m.rows as u64);
                        assert(cols64 == m.cols as u64);
                        assert(false);
                    }
                }
            }
            return None;
        }
        let rows: usize = rows64 as usize;
        let cols: usize = cols64 as usize;
        let sz = match rows.checked_mul(cols) {
            Some(sz) => sz,
            None => {
                proof {
                    assert forall|m: Matrix<i64>| !encodes(s@, m) by {
                        if encodes(s@, m) {
                            assert(rows == m.rows && cols == m.cols);
                            assert(m.data.len() == m.data@.len());
                            assert(m.rows * m.cols <= usize::MAX);
                            assert(false);
                        }
                    }
                }
                return None;
            },
        };
        if sz != cells.len() {
            proof {
                assert forall|m: Matrix<i64>| !encodes(s@, m) by {
                    if encodes(s@, m) {
                        assert(rows == m.rows && cols == m.cols);
                        assert(cells@ == m.data@);
                        assert(false);
                    }
                }
            }
            return None;
        }
        proof {
            assert(s@.subrange(pe, n as int) =~= seq![125u8]);
            assert(dec_nat(rows as nat) == dec_nat(rows64 as nat));
            assert(dec_nat(cols as nat) == dec_nat(cols64 as nat));
            lemma_json_assemble(
                s@,
                pa,
                pb,
                pc,
                pd,
                pe,
                cells@,
                rows as nat,
                cols as nat,
            );
        }
        Some(Matrix { data: cells, rows, cols })
    }
}

} // verus!
