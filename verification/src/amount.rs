use vstd::prelude::*;

verus! {

/// Every element of a digit sequence is a decimal digit.
pub open spec fn digits_wf(s: Seq<u8>) -> bool {
    forall|i: int| 0 <= i < s.len() ==> s[i] < 10
}

/// A canonical big-endian digit sequence: all digits below ten and no
/// leading zero. The empty sequence denotes zero.
pub open spec fn canonical_digits(s: Seq<u8>) -> bool {
    digits_wf(s) && (s.len() == 0 || s[0] != 0)
}

pub open spec fn pow10(n: nat) -> nat
    decreases n,
{
    if n == 0 {
        1
    } else {
        10 * pow10((n - 1) as nat)
    }
}

/// The number denoted by a big-endian decimal digit sequence.
pub open spec fn digits_val(s: Seq<u8>) -> nat
    decreases s.len(),
{
    if s.len() == 0 {
        0
    } else {
        (10 * digits_val(s.drop_last()) + s.last()) as nat
    }
}

/// A run of zero digits.
pub open spec fn zero_digits(n: nat) -> Seq<u8> {
    Seq::new(n, |i: int| 0u8)
}

/// The digit sequence without its leading zeros.
pub open spec fn trim_leading(s: Seq<u8>) -> Seq<u8>
    decreases s.len(),
{
    if s.len() > 0 && s[0] == 0 {
        trim_leading(s.drop_first())
    } else {
        s
    }
}

/// The digit sequence without its trailing zeros.
pub open spec fn trim_trailing(s: Seq<u8>) -> Seq<u8>
    decreases s.len(),
{
    if s.len() > 0 && s.last() == 0 {
        trim_trailing(s.drop_last())
    } else {
        s
    }
}

pub proof fn lemma_pow10_pos(n: nat)
    ensures
        pow10(n) >= 1,
    decreases n,
{
    if n > 0 {
        lemma_pow10_pos((n - 1) as nat);
    }
}

/// A single digit denotes itself.
pub proof fn lemma_digits_val_single(d: u8)
    ensures
        digits_val(seq![d]) == d,
{
    assert(seq![d].drop_last() =~= Seq::<u8>::empty());
    assert(digits_val(Seq::<u8>::empty()) == 0);
    assert(seq![d].last() == d);
}

/// Concatenation splits the denoted value positionally.
pub proof fn lemma_digits_val_concat(a: Seq<u8>, b: Seq<u8>)
    ensures
        digits_val(a + b) == digits_val(a) * pow10(b.len()) + digits_val(b),
    decreases b.len(),
{
    if b.len() == 0 {
        assert(a + b =~= a);
        assert(pow10(0) == 1);
    } else {
        lemma_digits_val_concat(a, b.drop_last());
        let s = a + b;
        assert(s.len() == a.len() + b.len());
        assert(s.last() == b.last());
        assert(s.drop_last() =~= a + b.drop_last());
        let p = pow10((b.len() - 1) as nat);
        let va = digits_val(a);
        assert(pow10(b.len()) == 10 * p);
        assert(digits_val(s) == 10 * digits_val(a + b.drop_last()) + b.last());
        assert(digits_val(a + b.drop_last()) == va * p + digits_val(b.drop_last()));
        assert(10 * (va * p) == va * (10 * p)) by (nonlinear_arith);
        assert(digits_val(b) == 10 * digits_val(b.drop_last()) + b.last());
    }
}

/// A canonical nonempty digit sequence denotes at least ten to the
/// position of its leading digit, hence a nonzero value.
pub proof fn lemma_digits_val_lower(s: Seq<u8>)
    requires
        canonical_digits(s),
        s.len() > 0,
    ensures
        digits_val(s) >= pow10((s.len() - 1) as nat),
        digits_val(s) >= 1,
    decreases s.len(),
{
    if s.len() == 1 {
        assert(digits_val(s.drop_last()) == 0);
    } else {
        assert(canonical_digits(s.drop_last()));
        lemma_digits_val_lower(s.drop_last());
        lemma_pow10_pos((s.len() - 2) as nat);
    }
}

/// Removing leading zeros does not change the denoted value.
pub proof fn lemma_trim_leading_val(s: Seq<u8>)
    ensures
        digits_val(trim_leading(s)) == digits_val(s),
        trim_leading(s).len() <= s.len(),
        digits_wf(s) ==> canonical_digits(trim_leading(s)),
    decreases s.len(),
{
    if s.len() > 0 && s[0] == 0 {
        let t = s.drop_first();
        lemma_trim_leading_val(t);
        assert(s =~= seq![0u8] + t);
        lemma_digits_val_concat(seq![0u8], t);
        lemma_digits_val_single(0);
    }
}

/// A digit sequence is its leading zeros followed by its trimmed form.
pub proof fn lemma_trim_leading_structure(s: Seq<u8>)
    ensures
        s == zero_digits((s.len() - trim_leading(s).len()) as nat) + trim_leading(s),
    decreases s.len(),
{
    lemma_trim_leading_val(s);
    if s.len() > 0 && s[0] == 0 {
        let t = s.drop_first();
        lemma_trim_leading_structure(t);
        lemma_trim_leading_val(t);
        let k = s.len() - trim_leading(s).len();
        let kt = t.len() - trim_leading(t).len();
        assert(trim_leading(s) == trim_leading(t));
        assert(k == kt + 1);
        let rhs = zero_digits(k as nat) + trim_leading(s);
        assert forall|i: int| 0 <= i < s.len() implies s[i] == rhs[i] by {
            if i == 0 {
                assert(rhs[0] == 0);
            } else {
                assert(s[i] == t[i - 1]);
                assert(t[i - 1] == (zero_digits(kt as nat) + trim_leading(t))[i - 1]);
                if i - 1 < kt {
                    assert(rhs[i] == 0);
                } else {
                    assert(rhs[i] == trim_leading(s)[i - 1 - kt]);
                }
            }
        }
        assert(s =~= rhs);
    } else {
        assert(s =~= zero_digits(0) + s);
    }
}

/// Trimming a concatenation either keeps the whole right part, or reduces
/// to trimming the right part alone.
pub proof fn lemma_trim_leading_concat(a: Seq<u8>, b: Seq<u8>)
    ensures
        trim_leading(a + b) == if trim_leading(a).len() > 0 {
            trim_leading(a) + b
        } else {
            trim_leading(b)
        },
    decreases a.len(),
{
    if a.len() == 0 {
        assert(a + b =~= b);
    } else if a[0] == 0 {
        assert((a + b).drop_first() =~= a.drop_first() + b);
        lemma_trim_leading_concat(a.drop_first(), b);
    } else {
        assert((a + b)[0] == a[0]);
    }
}

/// Trailing zeros appended to a sequence do not change its trimmed form.
pub proof fn lemma_trim_trailing_zeros(a: Seq<u8>, k: nat)
    ensures
        trim_trailing(a + zero_digits(k)) == trim_trailing(a),
    decreases k,
{
    if k == 0 {
        assert(a + zero_digits(0) =~= a);
    } else {
        let s = a + zero_digits(k);
        assert(s.last() == 0);
        assert(s.drop_last() =~= a + zero_digits((k - 1) as nat));
        lemma_trim_trailing_zeros(a, (k - 1) as nat);
    }
}

/// A run of zeros trims away completely.
pub proof fn lemma_trim_leading_all_zeros(n: nat)
    ensures
        trim_leading(zero_digits(n)) == Seq::<u8>::empty(),
    decreases n,
{
    if n > 0 {
        assert(zero_digits(n)[0] == 0);
        assert(zero_digits(n).drop_first() =~= zero_digits((n - 1) as nat));
        lemma_trim_leading_all_zeros((n - 1) as nat);
    }
}

/// A digit sequence is its trimmed form followed by its trailing zeros.
pub proof fn lemma_trim_trailing_structure(s: Seq<u8>)
    ensures
        trim_trailing(s).len() <= s.len(),
        s == trim_trailing(s) + zero_digits((s.len() - trim_trailing(s).len()) as nat),
        trim_trailing(s) == s.take(trim_trailing(s).len() as int),
    decreases s.len(),
{
    if s.len() > 0 && s.last() == 0 {
        let t = s.drop_last();
        lemma_trim_trailing_structure(t);
        let tt = trim_trailing(s);
        assert(tt == trim_trailing(t));
        let k = s.len() - tt.len();
        assert forall|i: int| 0 <= i < s.len() implies s[i] == (tt + zero_digits(k as nat))[i] by {
            if i < s.len() - 1 {
                assert(s[i] == t[i]);
                assert(t[i] == (tt + zero_digits((t.len() - tt.len()) as nat))[i]);
            } else {
                assert(s[i] == 0);
            }
        }
        assert(s =~= tt + zero_digits(k as nat));
        assert(tt =~= s.take(tt.len() as int));
    } else {
        assert(s =~= s + zero_digits(0));
        assert(trim_trailing(s) =~= s.take(s.len() as int));
    }
}

/// If everything from position `k` on is zero, trimming ignores it.
pub proof fn lemma_trim_trailing_cut(s: Seq<u8>, k: int)
    requires
        0 <= k <= s.len(),
        forall|j: int| k <= j < s.len() ==> s[j] == 0,
    ensures
        trim_trailing(s) == trim_trailing(s.take(k)),
    decreases s.len() - k,
{
    if k == s.len() {
        assert(s.take(k) =~= s);
    } else {
        assert(s.last() == 0);
        assert(s.drop_last().take(k) =~= s.take(k));
        lemma_trim_trailing_cut(s.drop_last(), k);
    }
}

/// Strips leading zeros from a digit vector and wraps it as a canonical
/// amount of the same value.
pub fn canonicalize(v: Vec<u8>) -> (r: Amount)
    requires
        digits_wf(v@),
    ensures
        r.wf(),
        r.digits@ == trim_leading(v@),
        r.as_nat() == digits_val(v@),
{
    let ghost before_trim = v@;
    let mut out = v;
    while out.len() > 0 && out[0] == 0
        invariant
            digits_wf(out@),
            trim_leading(out@) == trim_leading(before_trim),
        decreases out@.len(),
    {
        let ghost prev = out@;
        out.remove(0);
        proof {
            assert(out@ =~= prev.drop_first());
        }
    }
    proof {
        assert(trim_leading(out@) == out@);
        lemma_trim_leading_val(before_trim);
        assert(canonical_digits(out@));
    }
    Amount { digits: out }
}

/// An arbitrary-precision unsigned quantity in the smallest indivisible
/// unit of the asset, stored as canonical big-endian decimal digits. It is
/// immutable once constructed: every operation returns a fresh value.
#[derive(Debug, PartialEq, Eq)]
pub struct Amount {
    pub digits: Vec<u8>,
}

impl Amount {
    pub open spec fn wf(&self) -> bool {
        canonical_digits(self.digits@)
    }

    /// The mathematical value this amount denotes.
    pub open spec fn as_nat(&self) -> nat {
        digits_val(self.digits@)
    }

    pub fn zero() -> (r: Amount)
        ensures
            r.wf(),
            r.as_nat() == 0,
    {
        Amount { digits: Vec::new() }
    }

    pub fn is_zero(&self) -> (r: bool)
        requires
            self.wf(),
        ensures
            r == (self.as_nat() == 0),
    {
        proof {
            if self.digits@.len() > 0 {
                lemma_digits_val_lower(self.digits@);
            }
        }
        self.digits.len() == 0
    }

    /// Exact multiply-and-add: the result denotes `self * k + m`, with no
    /// possibility of a silent wrap at any operand size.
    pub fn mul_add(&self, k: u64, m: u128) -> (r: Amount)
        requires
            self.wf(),
            m as nat + 9 * (k as nat) < 0x1_0000_0000_0000_0000_0000_0000_0000_0000,
        ensures
            r.wf(),
            r.as_nat() == self.as_nat() * k + m,
    {
        let ghost s = self.digits@;
        let n = self.digits.len();
        let mut rev: Vec<u8> = Vec::new();
        let mut carry: u128 = m;
        let mut j: usize = n;
        proof {
            assert(s.skip(n as int) =~= Seq::<u8>::empty());
            assert(rev@ =~= Seq::<u8>::empty());
            assert(rev@.reverse() =~= Seq::<u8>::empty());
            assert(digits_val(Seq::<u8>::empty()) == 0);
            assert(pow10(0) == 1);
            assert(digits_val(rev@.reverse()) + carry * pow10(rev@.len() as nat) == digits_val(
                s.skip(j as int),
            ) * k + m) by (nonlinear_arith)
                requires
                    digits_val(rev@.reverse()) == 0,
                    pow10(rev@.len() as nat) == 1,
                    digits_val(s.skip(j as int)) == 0,
                    carry == m,
            ;
        }
        while j > 0
            invariant
                j <= n,
                n == s.len(),
                self.digits@ == s,
                digits_wf(s),
                digits_wf(rev@),
                rev@.len() == n - j,
                carry <= m || carry <= 10 * (k as u128),
                m as nat + 9 * (k as nat) < 0x1_0000_0000_0000_0000_0000_0000_0000_0000,
                digits_val(rev@.reverse()) + carry * pow10(rev@.len() as nat) == digits_val(
                    s.skip(j as int),
                ) * k + m,
            decreases j,
        {
            let d = self.digits[j - 1];
            proof {
                assert(d < 10);
                assert((d as u128) * (k as u128) <= 9 * (k as u128)) by (nonlinear_arith)
                    requires
                        d < 10,
                ;
            }
            let t = (d as u128) * (k as u128) + carry;
            let ghost old_rev = rev@;
            let ghost old_carry = carry;
            rev.push((t % 10) as u8);
            carry = t / 10;
            j = j - 1;
            proof {
                let dig = (t % 10) as u8;
                assert(rev@.reverse() =~= seq![dig] + old_rev.reverse());
                lemma_digits_val_concat(seq![dig], old_rev.reverse());
                lemma_digits_val_single(dig);
                let l = old_rev.len();
                assert(s.skip(j as int) =~= seq![d] + s.skip(j as int + 1));
                lemma_digits_val_concat(seq![d], s.skip(j as int + 1));
                lemma_digits_val_single(d);
                assert(s.skip(j as int + 1).len() == n - j - 1);
                // value accounting for one schoolbook step
                let vtail = digits_val(s.skip(j as int + 1));
                let p = pow10(l);
                assert(t as nat == (d as nat) * (k as nat) + old_carry);
                assert((t as nat % 10) + (t as nat / 10) * 10 == t as nat);
                assert(digits_val(rev@.reverse()) == dig * p + digits_val(old_rev.reverse()));
                assert(digits_val(old_rev.reverse()) + old_carry * p == vtail * k + m);
                assert(dig * p + (t as nat / 10) * (10 * p) == t as nat * p) by (nonlinear_arith)
                    requires
                        dig == t as nat % 10,
                        (t as nat % 10) + (t as nat / 10) * 10 == t as nat,
                        p >= 0,
                ;
                assert(t as nat * p == (d as nat) * (k as nat) * p + old_carry * p)
                    by (nonlinear_arith)
                    requires
                        t as nat == (d as nat) * (k as nat) + old_carry,
                ;
                assert(((d as nat) * pow10(l) + vtail) * (k as nat) == (d as nat) * (k as nat)
                    * pow10(l) + vtail * (k as nat)) by (nonlinear_arith);
                assert(digits_val(s.skip(j as int)) == (d as nat) * pow10(l) + vtail);
                assert(digits_val(rev@.reverse()) + carry * pow10(rev@.len() as nat)
                    == digits_val(s.skip(j as int)) * k + m);
            }
        }
        proof {
            assert(s.skip(0) =~= s);
        }
        while carry > 0
            invariant
                digits_wf(rev@),
                digits_val(rev@.reverse()) + carry * pow10(rev@.len() as nat) == digits_val(s)
                    * k + m,
            decreases carry,
        {
            let ghost old_rev = rev@;
            let ghost old_carry = carry as nat;
            let dig_e = (carry % 10) as u8;
            rev.push(dig_e);
            carry = carry / 10;
            proof {
                let dig = dig_e;
                assert(rev@.reverse() =~= seq![dig] + old_rev.reverse());
                lemma_digits_val_concat(seq![dig], old_rev.reverse());
                lemma_digits_val_single(dig);
                let l = old_rev.len();
                let p = pow10(l);
                assert(pow10(rev@.len() as nat) == 10 * p);
                assert((old_carry % 10) + (old_carry / 10) * 10 == old_carry);
                assert(dig * p + (old_carry / 10) * (10 * p) == old_carry * p)
                    by (nonlinear_arith)
                    requires
                        dig == old_carry % 10,
                        (old_carry % 10) + (old_carry / 10) * 10 == old_carry,
                        p >= 0,
                ;
            }
        }
        // reverse into most-significant-first order
        let mut out: Vec<u8> = Vec::new();
        let mut i: usize = rev.len();
        while i > 0
            invariant
                i <= rev.len(),
                out@.len() == rev.len() - i,
                forall|q: int|
                    0 <= q < out@.len() ==> out@[q] == rev@[rev@.len() - 1 - q],
            decreases i,
        {
            let d = rev[i - 1];
            out.push(d);
            i = i - 1;
        }
        proof {
            assert(out@ =~= rev@.reverse());
            assert(digits_wf(out@));
            assert(digits_val(out@) == digits_val(s) * k + m);
        }
        canonicalize(out)
    }

    /// The product with a machine word, exact at every size.
    pub fn mul_u64(&self, k: u64) -> (r: Amount)
        requires
            self.wf(),
        ensures
            r.wf(),
            r.as_nat() == self.as_nat() * k,
    {
        self.mul_add(k, 0)
    }

    pub fn from_u64(n: u64) -> (r: Amount)
        ensures
            r.wf(),
            r.as_nat() == n,
    {
        let z = Amount::zero();
        let r = z.mul_add(0, n as u128);
        proof {
            assert(r.as_nat() == 0 * 0 + n);
        }
        r
    }

    pub fn from_u128(n: u128) -> (r: Amount)
        ensures
            r.wf(),
            r.as_nat() == n,
    {
        let z = Amount::zero();
        let r = z.mul_add(0, n);
        proof {
            assert(r.as_nat() == 0 * 0 + n);
        }
        r
    }

    /// Whether the digit vector is in canonical form; decidable at run
    /// time, so unverified callers can be checked.
    pub fn is_canonical(&self) -> (r: bool)
        ensures
            r == self.wf(),
    {
        let n = self.digits.len();
        if n > 0 && self.digits[0] == 0 {
            return false;
        }
        let mut i: usize = 0;
        while i < n
            invariant
                i <= n,
                n == self.digits@.len(),
                forall|q: int| 0 <= q < i ==> self.digits@[q] < 10,
            decreases n - i,
        {
            if self.digits[i] >= 10 {
                return false;
            }
            i = i + 1;
        }
        true
    }

    /// The value as a machine word, exactly when it fits in 128 bits.
    pub fn to_u128(&self) -> (r: Option<u128>)
        requires
            self.wf(),
        ensures
            r matches Some(v) ==> v == self.as_nat(),
            r is None ==> self.as_nat() >= 0x1_0000_0000_0000_0000_0000_0000_0000_0000,
    {
        let mut acc: u128 = 0;
        let mut i: usize = 0;
        let n = self.digits.len();
        while i < n
            invariant
                i <= n,
                n == self.digits@.len(),
                digits_wf(self.digits@),
                acc == digits_val(self.digits@.take(i as int)),
            decreases n - i,
        {
            let d = self.digits[i];
            let limit = (u128::MAX - d as u128) / 10;
            proof {
                let pre = self.digits@.take(i as int + 1);
                assert(pre.drop_last() =~= self.digits@.take(i as int));
                assert(pre.last() == d);
                let m = u128::MAX as nat;
                assert((m - d) == 10 * ((m - d) / 10) + (m - d) % 10 && (m - d) % 10 < 10);
                if acc > limit {
                    assert(10 * (acc as nat) + d > m) by (nonlinear_arith)
                        requires
                            acc as nat >= (m - d) / 10 + 1,
                            (m - d) == 10 * ((m - d) / 10) + (m - d) % 10,
                            (m - d) % 10 < 10,
                            d < 10,
                    ;
                } else {
                    assert(10 * (acc as nat) + d <= m) by (nonlinear_arith)
                        requires
                            acc as nat <= (m - d) / 10,
                            (m - d) == 10 * ((m - d) / 10) + (m - d) % 10,
                            d < 10,
                    ;
                }
            }
            if acc > limit {
                proof {
                    let pre = self.digits@.take(i as int + 1);
                    let rest = self.digits@.skip(i as int + 1);
                    assert(self.digits@ =~= pre + rest);
                    lemma_digits_val_concat(pre, rest);
                    lemma_pow10_pos(rest.len());
                    assert(digits_val(pre) * pow10(rest.len()) >= digits_val(pre))
                        by (nonlinear_arith)
                        requires
                            pow10(rest.len()) >= 1,
                    ;
                }
                return None;
            }
            acc = acc * 10 + (d as u128);
            i = i + 1;
        }
        proof {
            assert(self.digits@.take(n as int) =~= self.digits@);
        }
        Some(acc)
    }

    /// Digit-wise equality; on canonical amounts this coincides with
    /// equality of the denoted values.
    pub fn eq_amount(&self, other: &Amount) -> (r: bool)
        ensures
            r == (self.digits@ == other.digits@),
    {
        if self.digits.len() != other.digits.len() {
            proof {
                assert(self.digits@ != other.digits@);
            }
            return false;
        }
        let n = self.digits.len();
        let mut i: usize = 0;
        while i < n
            invariant
                i <= n,
                n == self.digits@.len(),
                n == other.digits@.len(),
                forall|q: int| 0 <= q < i ==> self.digits@[q] == other.digits@[q],
            decreases n - i,
        {
            if self.digits[i] != other.digits[i] {
                proof {
                    assert(self.digits@[i as int] != other.digits@[i as int]);
                }
                return false;
            }
            i = i + 1;
        }
        proof {
            assert(self.digits@ =~= other.digits@);
        }
        true
    }

    pub fn clone_amount(&self) -> (r: Amount)
        ensures
            r.digits@ == self.digits@,
            r.wf() == self.wf(),
            r.as_nat() == self.as_nat(),
    {
        let mut d: Vec<u8> = Vec::new();
        let mut i: usize = 0;
        while i < self.digits.len()
            invariant
                i <= self.digits@.len(),
                d@ =~= self.digits@.take(i as int),
            decreases self.digits@.len() - i,
        {
            let x = self.digits[i];
            d.push(x);
            i = i + 1;
            proof {
                assert(d@ =~= self.digits@.take(i as int));
            }
        }
        proof {
            assert(d@ =~= self.digits@);
        }
        Amount { digits: d }
    }
}

/// Two canonical digit sequences denoting the same value are identical:
/// an amount has exactly one canonical representation.
pub proof fn lemma_canonical_injective(a: Seq<u8>, b: Seq<u8>)
    requires
        canonical_digits(a),
        canonical_digits(b),
        digits_val(a) == digits_val(b),
    ensures
        a == b,
    decreases a.len(),
{
    if a.len() == 0 {
        if b.len() > 0 {
            lemma_digits_val_lower(b);
        }
        assert(a =~= b);
    } else if b.len() == 0 {
        lemma_digits_val_lower(a);
    } else {
        let a0 = a.drop_last();
        let b0 = b.drop_last();
        assert(digits_val(a) == 10 * digits_val(a0) + a.last());
        assert(digits_val(b) == 10 * digits_val(b0) + b.last());
        assert(a.last() == digits_val(a) % 10 && digits_val(a0) == digits_val(a) / 10)
            by (nonlinear_arith)
            requires
                digits_val(a) == 10 * digits_val(a0) + a.last(),
                a.last() < 10,
        ;
        assert(b.last() == digits_val(b) % 10 && digits_val(b0) == digits_val(b) / 10)
            by (nonlinear_arith)
            requires
                digits_val(b) == 10 * digits_val(b0) + b.last(),
                b.last() < 10,
        ;
        assert(digits_wf(a0) && digits_wf(b0));
        if a.len() == 1 && b.len() == 1 {
            assert(a =~= b);
        } else if a.len() == 1 {
            // b has at least two digits yet the same value as a one-digit a
            lemma_digits_val_lower(b);
            lemma_pow10_lower((b.len() - 1) as nat);
        } else if b.len() == 1 {
            lemma_digits_val_lower(a);
            lemma_pow10_lower((a.len() - 1) as nat);
        } else {
            assert(canonical_digits(a0) && canonical_digits(b0));
            lemma_canonical_injective(a0, b0);
            assert forall|i: int| 0 <= i < a.len() implies a[i] == b[i] by {
                if i < a.len() - 1 {
                    assert(a[i] == a0[i]);
                    assert(b[i] == b0[i]);
                } else {
                    assert(a[i] == a.last());
                    assert(b[i] == b.last());
                }
            }
            assert(a =~= b);
        }
    }
}

/// The canonical big-endian digit sequence of a number.
pub open spec fn nat_digits(n: nat) -> Seq<u8>
    decreases n,
{
    if n == 0 {
        Seq::<u8>::empty()
    } else {
        nat_digits(n / 10).push((n % 10) as u8)
    }
}

pub proof fn lemma_nat_digits(n: nat)
    ensures
        canonical_digits(nat_digits(n)),
        digits_val(nat_digits(n)) == n,
    decreases n,
{
    if n > 0 {
        lemma_nat_digits(n / 10);
        let t = nat_digits(n / 10);
        let s = nat_digits(n);
        assert(s == t.push((n % 10) as u8));
        assert(s.drop_last() =~= t);
        assert(s.last() == (n % 10) as u8);
        assert(digits_val(s) == 10 * (n / 10) + n % 10);
        if n / 10 == 0 {
            assert(s.len() == 1);
            assert(s[0] == n % 10);
            assert(n % 10 != 0);
        } else {
            assert(t.len() > 0);
            assert(s[0] == t[0]);
        }
    }
}

/// Ten to a positive power is at least ten.
pub proof fn lemma_pow10_lower(n: nat)
    requires
        n >= 1,
    ensures
        pow10(n) >= 10,
{
    lemma_pow10_pos((n - 1) as nat);
}

} // verus!
