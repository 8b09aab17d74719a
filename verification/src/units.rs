use vstd::prelude::*;

use crate::amount::{Amount, canonicalize, digits_wf, digits_val, canonical_digits, zero_digits,
    trim_leading, trim_trailing, lemma_trim_leading_concat, lemma_trim_leading_val,
    lemma_trim_leading_structure, lemma_trim_leading_all_zeros, lemma_trim_trailing_zeros,
    lemma_trim_trailing_cut, lemma_trim_trailing_structure};
use crate::errors::ClientError;

verus! {

use vstd::string::StrSliceExecFns;
use vstd::string::StringExecFns;

/// Decimal digit characters.
pub open spec fn is_digit_char(c: char) -> bool {
    48 <= c as u32 <= 57
}

pub open spec fn char_to_digit(c: char) -> u8 {
    (c as u32 - 48) as u8
}

pub open spec fn digit_to_char(d: u8) -> char {
    if d == 0 {
        '0'
    } else if d == 1 {
        '1'
    } else if d == 2 {
        '2'
    } else if d == 3 {
        '3'
    } else if d == 4 {
        '4'
    } else if d == 5 {
        '5'
    } else if d == 6 {
        '6'
    } else if d == 7 {
        '7'
    } else if d == 8 {
        '8'
    } else {
        '9'
    }
}

pub open spec fn all_digit_chars(s: Seq<char>) -> bool {
    forall|i: int| 0 <= i < s.len() ==> is_digit_char(s[i])
}

pub open spec fn to_digit_seq(s: Seq<char>) -> Seq<u8> {
    Seq::new(s.len(), |i: int| char_to_digit(s[i]))
}

pub open spec fn from_digit_seq(d: Seq<u8>) -> Seq<char> {
    Seq::new(d.len(), |i: int| digit_to_char(d[i]))
}

/// Index of the first decimal point, or the length if there is none.
pub open spec fn find_dot(s: Seq<char>) -> int
    decreases s.len(),
{
    if s.len() == 0 {
        0
    } else if s[0] == '.' {
        0
    } else {
        1 + find_dot(s.drop_first())
    }
}

pub open spec fn int_part(s: Seq<char>) -> Seq<char> {
    s.take(find_dot(s))
}

pub open spec fn frac_part(s: Seq<char>) -> Seq<char> {
    if find_dot(s) < s.len() {
        s.skip(find_dot(s) + 1)
    } else {
        Seq::<char>::empty()
    }
}

/// A valid non-negative decimal string at the given precision: one or more
/// integer digits, then optionally a point followed by one to `p` fraction
/// digits.
pub open spec fn valid_decimal(s: Seq<char>, p: nat) -> bool {
    &&& int_part(s).len() > 0
    &&& all_digit_chars(int_part(s))
    &&& (find_dot(s) < s.len() ==> {
        &&& frac_part(s).len() > 0
        &&& frac_part(s).len() <= p
        &&& all_digit_chars(frac_part(s))
    })
}

/// The base-unit digits of a valid decimal string: integer digits, then
/// fraction digits padded with trailing zeros up to the precision.
pub open spec fn base_digit_seq(s: Seq<char>, p: nat) -> Seq<u8> {
    to_digit_seq(int_part(s)) + to_digit_seq(frac_part(s)) + zero_digits(
        (p - frac_part(s).len()) as nat,
    )
}

/// The canonical digits of the amount a valid decimal string denotes.
pub open spec fn spec_to_base_units(s: Seq<char>, p: nat) -> Seq<u8> {
    trim_leading(base_digit_seq(s, p))
}

/// The decimal rendering of a canonical digit sequence at precision `p`:
/// the integer digits (or a single zero), then, unless the fraction is all
/// zeros, a point and the fraction digits with trailing zeros removed.
pub open spec fn spec_format(d: Seq<u8>, p: nat) -> Seq<char> {
    let ip = if d.len() > p {
        d.take((d.len() - p) as int)
    } else {
        Seq::<u8>::empty()
    };
    let fp = if d.len() > p {
        d.skip((d.len() - p) as int)
    } else {
        zero_digits((p - d.len()) as nat) + d
    };
    let ft = trim_trailing(fp);
    (if ip.len() == 0 {
        seq!['0']
    } else {
        from_digit_seq(ip)
    }) + (if ft.len() == 0 {
        Seq::<char>::empty()
    } else {
        seq!['.'] + from_digit_seq(ft)
    })
}

/// The normalized form of a valid decimal string: leading integer zeros
/// and trailing fraction zeros removed, the point dropped when the
/// fraction vanishes, and a bare zero left in an empty integer part.
pub open spec fn spec_normalize(s: Seq<char>) -> Seq<char> {
    let ii = trim_leading(to_digit_seq(int_part(s)));
    let ff = trim_trailing(to_digit_seq(frac_part(s)));
    (if ii.len() == 0 {
        seq!['0']
    } else {
        from_digit_seq(ii)
    }) + (if ff.len() == 0 {
        Seq::<char>::empty()
    } else {
        seq!['.'] + from_digit_seq(ff)
    })
}

proof fn lemma_find_dot_characterize(s: Seq<char>, d: int)
    requires
        0 <= d <= s.len(),
        forall|i: int| 0 <= i < d ==> s[i] != '.',
        d == s.len() || s[d] == '.',
    ensures
        find_dot(s) == d,
    decreases s.len(),
{
    if s.len() == 0 {
    } else if s[0] == '.' {
        assert(d == 0);
    } else {
        assert(d > 0);
        let t = s.drop_first();
        assert(forall|i: int| 0 <= i < d - 1 ==> t[i] != '.');
        assert(d - 1 == t.len() || t[d - 1] == '.');
        lemma_find_dot_characterize(t, d - 1);
    }
}

/// Single-character strings for the pieces a decimal rendering is built of.
fn digit_str(d: u8) -> (s: &'static str)
    requires
        d < 10,
    ensures
        s@ == seq![digit_to_char(d)],
{
    let r: &'static str = match d {
        0 => "0",
        1 => "1",
        2 => "2",
        3 => "3",
        4 => "4",
        5 => "5",
        6 => "6",
        7 => "7",
        8 => "8",
        _ => "9",
    };
    proof {
        reveal_strlit("0");
        reveal_strlit("1");
        reveal_strlit("2");
        reveal_strlit("3");
        reveal_strlit("4");
        reveal_strlit("5");
        reveal_strlit("6");
        reveal_strlit("7");
        reveal_strlit("8");
        reveal_strlit("9");
        assert(r@ =~= seq![digit_to_char(d)]);
    }
    r
}

/// Parses a human decimal string into base units at the given precision.
/// Succeeds exactly on valid decimal strings with at most `precision`
/// fraction digits; the conversion is exact, with no rounding of any kind.
pub fn to_base_units(s: &str, precision: usize) -> (r: Result<Amount, ClientError>)
    ensures
        r is Ok <==> valid_decimal(s@, precision as nat),
        r matches Ok(a) ==> a.wf() && a.digits@ == spec_to_base_units(s@, precision as nat)
            && a.as_nat() == digits_val(base_digit_seq(s@, precision as nat)),
        r is Err ==> r == Err::<Amount, ClientError>(ClientError::InvalidFormat),
{
    let n = s.unicode_len();
    // locate the decimal point
    let mut i: usize = 0;
    while i < n && s.get_char(i) != '.'
        invariant
            i <= n,
            n == s@.len(),
            forall|q: int| 0 <= q < i ==> s@[q] != '.',
        decreases n - i,
    {
        i = i + 1;
    }
    let dot: usize = i;
    proof {
        lemma_find_dot_characterize(s@, dot as int);
    }
    if dot == 0 {
        // empty integer part
        return Err(ClientError::InvalidFormat);
    }
    let frac_len: usize = if dot < n {
        n - dot - 1
    } else {
        0
    };
    if dot < n && frac_len == 0 {
        // trailing point with no fraction digits
        proof {
            assert(frac_part(s@).len() == 0);
        }
        return Err(ClientError::InvalidFormat);
    }
    if frac_len > precision {
        proof {
            assert(frac_part(s@).len() > precision as nat);
        }
        return Err(ClientError::InvalidFormat);
    }
    let mut digits: Vec<u8> = Vec::new();
    let mut i: usize = 0;
    while i < dot
        invariant
            i <= dot,
            dot <= n,
            n == s@.len(),
            find_dot(s@) == dot as int,
            digits@ =~= to_digit_seq(s@.take(i as int)),
            forall|q: int| 0 <= q < i ==> is_digit_char(s@[q]),
        decreases dot - i,
    {
        let c = s.get_char(i);
        let u = c as u32;
        if u < 48 || u > 57 {
            proof {
                assert(int_part(s@)[i as int] == s@[i as int]);
                assert(!is_digit_char(int_part(s@)[i as int]));
            }
            return Err(ClientError::InvalidFormat);
        }
        digits.push((u - 48) as u8);
        i = i + 1;
        proof {
            assert(digits@ =~= to_digit_seq(s@.take(i as int)));
        }
    }
    proof {
        assert(s@.take(dot as int) =~= int_part(s@));
        assert(all_digit_chars(int_part(s@)));
    }
    let ghost int_digits = digits@;
    if dot < n {
        let mut j: usize = dot + 1;
        while j < n
            invariant
                dot + 1 <= j <= n,
                n == s@.len(),
                find_dot(s@) == dot as int,
                dot < n,
                s@[dot as int] == '.',
                digits@ =~= int_digits + to_digit_seq(s@.subrange(dot + 1, j as int)),
                forall|q: int| dot < q < j ==> is_digit_char(s@[q]),
            decreases n - j,
        {
            let c = s.get_char(j);
            let u = c as u32;
            if u < 48 || u > 57 {
                proof {
                    assert(frac_part(s@)[j - dot - 1] == s@[j as int]);
                    assert(!is_digit_char(frac_part(s@)[j - dot - 1]));
                }
                return Err(ClientError::InvalidFormat);
            }
            digits.push((u - 48) as u8);
            j = j + 1;
            proof {
                assert(digits@ =~= int_digits + to_digit_seq(s@.subrange(dot + 1, j as int)));
            }
        }
        proof {
            assert(s@.subrange(dot + 1, n as int) =~= frac_part(s@));
            assert(all_digit_chars(frac_part(s@)));
        }
    }
    proof {
        if dot == n {
            assert(frac_part(s@) =~= Seq::<char>::empty());
            assert(to_digit_seq(frac_part(s@)) =~= Seq::<u8>::empty());
            assert(digits@ =~= int_digits + to_digit_seq(frac_part(s@)));
        }
        assert(digits@ =~= to_digit_seq(int_part(s@)) + to_digit_seq(frac_part(s@)));
        assert(frac_part(s@).len() == frac_len as int);
    }
    let ghost head = digits@;
    let pad = precision - frac_len;
    let mut z: usize = 0;
    while z < pad
        invariant
            z <= pad,
            digits@ =~= head + zero_digits(z as nat),
        decreases pad - z,
    {
        digits.push(0u8);
        z = z + 1;
        proof {
            assert(digits@ =~= head + zero_digits(z as nat));
        }
    }
    proof {
        assert(digits@ =~= base_digit_seq(s@, precision as nat));
        assert(valid_decimal(s@, precision as nat));
        lemma_base_digits_wf(s@, precision as nat);
    }
    Ok(canonicalize(digits))
}

proof fn lemma_base_digits_wf(s: Seq<char>, p: nat)
    requires
        valid_decimal(s, p),
    ensures
        digits_wf(base_digit_seq(s, p)),
{
    let b = base_digit_seq(s, p);
    assert forall|q: int| 0 <= q < b.len() implies b[q] < 10 by {
        let di = to_digit_seq(int_part(s));
        let df = to_digit_seq(frac_part(s));
        if q < di.len() {
            assert(is_digit_char(int_part(s)[q]));
        } else if q < di.len() + df.len() {
            assert(is_digit_char(frac_part(s)[q - di.len()]));
        } else {
            assert(b[q] == 0);
        }
    }
}

/// Renders base units as a decimal string at the given precision. The
/// exact inverse of `to_base_units`: no rounding, trailing fraction zeros
/// trimmed, a single zero for an empty integer part.
pub fn to_decimal_string(a: &Amount, precision: usize) -> (r: String)
    requires
        a.wf(),
    ensures
        r@ == spec_format(a.digits@, precision as nat),
{
    let n = a.digits.len();
    let p = precision;
    let ghost dv = a.digits@;
    let mut out = String::new();
    let lo: usize = if n > p {
        n - p
    } else {
        0
    };
    if n > p {
        let mut i: usize = 0;
        while i < lo
            invariant
                i <= lo,
                lo <= n,
                n == dv.len(),
                a.digits@ == dv,
                digits_wf(dv),
                out@ =~= from_digit_seq(dv.take(i as int)),
            decreases lo - i,
        {
            let x = a.digits[i];
            out.append(digit_str(x));
            i = i + 1;
            proof {
                assert(out@ =~= from_digit_seq(dv.take(i as int)));
            }
        }
        proof {
            assert(out@ =~= from_digit_seq(dv.take(lo as int)));
        }
    } else {
        let zs = digit_str(0);
        out.append(zs);
        proof {
            assert(out@ =~= seq!['0']);
        }
    }
    let ghost ipart = out@;
    // find where the trailing zeros of the fraction begin
    let mut k: usize = n;
    while k > lo && a.digits[k - 1] == 0
        invariant
            lo <= k <= n,
            n == dv.len(),
            a.digits@ == dv,
            forall|q: int| k <= q < n ==> dv[q] == 0,
        decreases k,
    {
        k = k - 1;
    }
    if k > lo {
        proof {
            reveal_strlit(".");
        }
        out.append(".");
        let ghost zpad: nat = if n > p {
            0
        } else {
            (p - n) as nat
        };
        if n < p {
            let pad = p - n;
            let mut z: usize = 0;
            while z < pad
                invariant
                    z <= pad,
                    out@ =~= ipart + seq!['.'] + from_digit_seq(zero_digits(z as nat)),
                decreases pad - z,
            {
                out.append(digit_str(0));
                z = z + 1;
                proof {
                    assert(out@ =~= ipart + seq!['.'] + from_digit_seq(zero_digits(z as nat)));
                }
            }
        }
        proof {
            assert(out@ =~= ipart + seq!['.'] + from_digit_seq(zero_digits(zpad)));
        }
        let mut i: usize = lo;
        while i < k
            invariant
                lo <= i <= k,
                k <= n,
                n == dv.len(),
                a.digits@ == dv,
                digits_wf(dv),
                out@ =~= ipart + seq!['.'] + from_digit_seq(
                    zero_digits(if n > p { 0nat } else { (p - n) as nat }) + dv.subrange(
                        lo as int,
                        i as int,
                    ),
                ),
            decreases k - i,
        {
            let x = a.digits[i];
            out.append(digit_str(x));
            i = i + 1;
            proof {
                assert(out@ =~= ipart + seq!['.'] + from_digit_seq(
                    zero_digits(if n > p { 0nat } else { (p - n) as nat }) + dv.subrange(
                        lo as int,
                        i as int,
                    ),
                ));
            }
        }
    }
    proof {
        lemma_format_assembly(dv, p as nat, lo as int, k as int, out@, ipart);
    }
    out
}

/// Relates the string assembled by `to_decimal_string` to `spec_format`.
proof fn lemma_format_assembly(
    d: Seq<u8>,
    p: nat,
    lo: int,
    k: int,
    built: Seq<char>,
    ipart: Seq<char>,
)
    requires
        canonical_digits(d),
        lo == if d.len() > p {
            d.len() - p
        } else {
            0
        },
        lo <= k <= d.len(),
        forall|q: int| k <= q < d.len() ==> d[q] == 0,
        k > lo ==> d[k - 1] != 0,
        ipart == if d.len() > p {
            from_digit_seq(d.take(lo))
        } else {
            seq!['0']
        },
        built == if k > lo {
            ipart + seq!['.'] + from_digit_seq(
                zero_digits(if d.len() > p { 0nat } else { (p - d.len()) as nat }) + d.subrange(
                    lo,
                    k,
                ),
            )
        } else {
            ipart
        },
    ensures
        built == spec_format(d, p),
{
    let n = d.len() as int;
    let zpad: nat = if d.len() > p {
        0nat
    } else {
        (p - d.len()) as nat
    };
    let fp = if d.len() > p {
        d.skip(lo)
    } else {
        zero_digits((p - d.len()) as nat) + d
    };
    // fp equals zero padding followed by all of d past lo
    assert(fp =~= zero_digits(zpad) + d.subrange(lo, n));
    let cut = zpad + (k - lo) as nat;
    assert(forall|j: int| cut <= j < fp.len() ==> fp[j] == 0);
    lemma_trim_trailing_cut(fp, cut as int);
    assert(fp.take(cut as int) =~= zero_digits(zpad) + d.subrange(lo, k));
    if k > lo {
        assert(fp.take(cut as int).last() == d[k - 1]);
        assert(trim_trailing(fp.take(cut as int)) == fp.take(cut as int));
        assert(trim_trailing(fp) == zero_digits(zpad) + d.subrange(lo, k));
        let ip = if d.len() > p {
            d.take(lo)
        } else {
            Seq::<u8>::empty()
        };
        if d.len() > p {
            assert(ip.len() == lo);
        } else {
            assert(ip.len() == 0);
        }
        assert(built =~= spec_format(d, p));
    } else {
        // the whole fraction is zeros
        lemma_trim_trailing_of_zeros(zpad);
        assert(fp.take(cut as int) =~= zero_digits(zpad));
        assert(trim_trailing(fp) == trim_trailing(zero_digits(zpad)));
        assert(trim_trailing(fp).len() == 0);
        assert(built =~= spec_format(d, p));
    }
}

proof fn lemma_trim_trailing_of_zeros(n: nat)
    ensures
        trim_trailing(zero_digits(n)) == Seq::<u8>::empty(),
        trim_trailing(zero_digits(n)).len() == 0,
    decreases n,
{
    if n > 0 {
        assert(zero_digits(n).last() == 0);
        assert(zero_digits(n).drop_last() =~= zero_digits((n - 1) as nat));
        lemma_trim_trailing_of_zeros((n - 1) as nat);
    }
}

/// Law: for every valid decimal string at precision `p`, converting to
/// base units and rendering back yields the normalized input, with no
/// precision loss in either direction.
pub proof fn lemma_units_round_trip(s: Seq<char>, p: nat)
    requires
        valid_decimal(s, p),
    ensures
        spec_format(spec_to_base_units(s, p), p) == spec_normalize(s),
{
    let di = to_digit_seq(int_part(s));
    let df = to_digit_seq(frac_part(s));
    let z = zero_digits((p - frac_part(s).len()) as nat);
    let zl = (p - frac_part(s).len()) as nat;
    let b = base_digit_seq(s, p);
    assert(b =~= di + (df + z));
    lemma_trim_leading_concat(di, df + z);
    let ii = trim_leading(di);
    let d = trim_leading(b);
    assert(df.len() + zl == p);
    if ii.len() > 0 {
        assert(d == ii + (df + z));
        assert(d.len() == ii.len() + p);
        assert(d.len() > p);
        let lo = d.len() - p;
        assert(lo == ii.len());
        assert(d.take(lo as int) =~= ii);
        assert(d.skip(lo as int) =~= df + z);
        assert(z =~= zero_digits(zl));
        lemma_trim_trailing_zeros(df, zl);
        assert(trim_trailing(df + z) == trim_trailing(df));
        assert(spec_format(d, p) == spec_normalize(s));
    } else {
        assert(d == trim_leading(df + z));
        lemma_trim_leading_val(df + z);
        assert(d.len() <= (df + z).len());
        assert((df + z).len() == p);
        assert(!(d.len() > p));
        // the fraction slot is exactly the untrimmed tail
        lemma_trim_leading_structure(df + z);
        assert(df + z == zero_digits(((df + z).len() - d.len()) as nat) + d);
        let fp = zero_digits((p - d.len()) as nat) + d;
        assert(fp =~= df + z);
        lemma_trim_trailing_zeros(df, zl);
        assert(trim_trailing(fp) == trim_trailing(df));
        assert(spec_format(d, p) == spec_normalize(s));
    }
}

/// Digit characters are exactly the images of digits, and never the
/// decimal point.
proof fn lemma_digit_char_val(x: u8)
    requires
        x < 10,
    ensures
        is_digit_char(digit_to_char(x)),
        char_to_digit(digit_to_char(x)) == x,
        digit_to_char(x) != '.',
{
}

/// Law: rendering any amount at a precision and parsing the result back
/// at the same precision recovers the amount exactly: the conversion
/// pair is lossless in the other direction as well.
pub proof fn lemma_amount_round_trip(d: Seq<u8>, p: nat)
    requires
        canonical_digits(d),
    ensures
        valid_decimal(spec_format(d, p), p),
        spec_to_base_units(spec_format(d, p), p) == d,
{
    let ip = if d.len() > p {
        d.take((d.len() - p) as int)
    } else {
        Seq::<u8>::empty()
    };
    let fp = if d.len() > p {
        d.skip((d.len() - p) as int)
    } else {
        zero_digits((p - d.len()) as nat) + d
    };
    let ft = trim_trailing(fp);
    let a = if ip.len() == 0 {
        seq!['0']
    } else {
        from_digit_seq(ip)
    };
    let b = if ft.len() == 0 {
        Seq::<char>::empty()
    } else {
        seq!['.'] + from_digit_seq(ft)
    };
    let s = spec_format(d, p);
    assert(s == a + b);
    lemma_trim_trailing_structure(fp);
    assert(fp.len() == p);
    assert(digits_wf(fp));
    assert(digits_wf(ft)) by {
        assert forall|i: int| 0 <= i < ft.len() implies ft[i] < 10 by {
            assert(ft[i] == fp[i]);
        }
    }
    assert forall|i: int| 0 <= i < a.len() implies is_digit_char(#[trigger] a[i]) && a[i] != '.' by {
        if ip.len() == 0 {
            assert(a[i] == '0');
        } else {
            lemma_digit_char_val(ip[i]);
        }
    }
    // the point, if present, stands right after the integer digits
    assert forall|i: int| 0 <= i < a.len() implies s[i] != '.' by {
        assert(s[i] == a[i]);
    }
    if ft.len() == 0 {
        assert(b.len() == 0);
        lemma_find_dot_characterize(s, s.len() as int);
    } else {
        assert(s[a.len() as int] == '.');
        lemma_find_dot_characterize(s, a.len() as int);
    }
    assert(int_part(s) =~= a);
    let frac = frac_part(s);
    if ft.len() == 0 {
        assert(frac =~= Seq::<char>::empty());
    } else {
        assert(frac =~= from_digit_seq(ft));
        assert forall|i: int| 0 <= i < frac.len() implies is_digit_char(#[trigger] frac[i]) by {
            lemma_digit_char_val(ft[i]);
        }
    }
    assert(valid_decimal(s, p));
    // the parsed digits are the rendered ones
    let di = to_digit_seq(int_part(s));
    let df = to_digit_seq(frac);
    let az = if ip.len() == 0 {
        seq![0u8]
    } else {
        ip
    };
    assert(di =~= az) by {
        assert forall|i: int| 0 <= i < di.len() implies di[i] == az[i] by {
            if ip.len() == 0 {
            } else {
                lemma_digit_char_val(ip[i]);
            }
        }
    }
    assert(df =~= ft) by {
        assert forall|i: int| 0 <= i < df.len() implies df[i] == ft[i] by {
            lemma_digit_char_val(ft[i]);
        }
    }
    let base = base_digit_seq(s, p);
    assert(base =~= az + (ft + zero_digits((p - ft.len()) as nat)));
    assert(ft + zero_digits((p - ft.len()) as nat) == fp) by {
        assert(fp == trim_trailing(fp) + zero_digits((fp.len() - trim_trailing(fp).len()) as nat));
    }
    assert(base =~= az + fp);
    if ip.len() == 0 {
        // everything left of the fraction is zeros, which trim away
        assert(d.len() <= p);
        assert(seq![0u8] + zero_digits((p - d.len()) as nat) =~= zero_digits(
            (p - d.len() + 1) as nat,
        ));
        assert(base =~= zero_digits((p - d.len() + 1) as nat) + d);
        lemma_trim_leading_all_zeros((p - d.len() + 1) as nat);
        lemma_trim_leading_concat(zero_digits((p - d.len() + 1) as nat), d);
        assert(trim_leading(base) == trim_leading(d));
        assert(trim_leading(d) == d);
    } else {
        assert(d.len() > p);
        assert(base =~= ip + fp);
        assert(ip + fp =~= d);
        assert(d.len() > 0 && d[0] != 0);
        assert(trim_leading(d) == d);
        assert(trim_leading(base) == d);
    }
}

} // verus!
