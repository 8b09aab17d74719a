use vstd::prelude::*;

use crate::errors::ClientError;
use crate::keccak::{keccak256, keccak256_of};

verus! {

use vstd::string::StrSliceExecFns;
use vstd::string::StringExecFns;

/// A 20-byte account identifier, immutable once constructed.
#[derive(Debug, PartialEq, Eq)]
pub struct Address {
    pub bytes: Vec<u8>,
}

pub open spec fn is_upper_hex_letter(c: char) -> bool {
    65 <= c as u32 <= 70
}

pub open spec fn is_lower_hex_letter(c: char) -> bool {
    97 <= c as u32 <= 102
}

pub open spec fn is_hex_char(c: char) -> bool {
    (48 <= c as u32 <= 57) || is_lower_hex_letter(c) || is_upper_hex_letter(c)
}

/// The value of a hexadecimal digit character, either case.
pub open spec fn hex_val(c: char) -> u8 {
    if 48 <= c as u32 <= 57 {
        (c as u32 - 48) as u8
    } else if is_lower_hex_letter(c) {
        (c as u32 - 87) as u8
    } else {
        (c as u32 - 55) as u8
    }
}

pub open spec fn hex_char_lower(d: u8) -> char {
    if d == 0 {
        '0'
    } else if d == 1 {
        '1'
    } else if d == 2 {
        '2'
    } else if d == 3 {
        '3'
    } else if d == 4 {
        '4'
    } else if d == 5 {
        '5'
    } else if d == 6 {
        '6'
    } else if d == 7 {
        '7'
    } else if d == 8 {
        '8'
    } else if d == 9 {
        '9'
    } else if d == 10 {
        'a'
    } else if d == 11 {
        'b'
    } else if d == 12 {
        'c'
    } else if d == 13 {
        'd'
    } else if d == 14 {
        'e'
    } else {
        'f'
    }
}

pub open spec fn hex_char_upper(d: u8) -> char {
    if d < 10 {
        hex_char_lower(d)
    } else if d == 10 {
        'A'
    } else if d == 11 {
        'B'
    } else if d == 12 {
        'C'
    } else if d == 13 {
        'D'
    } else if d == 14 {
        'E'
    } else {
        'F'
    }
}

/// The ASCII byte of the lowercase hexadecimal digit `d`.
pub open spec fn hex_ascii_lower(d: u8) -> u8 {
    if d < 10 {
        (48 + d) as u8
    } else {
        (87 + d) as u8
    }
}

/// The ASCII lowercase hexadecimal rendering of a byte string, two digits
/// per byte, most significant nibble first. This is the checksum's input.
pub open spec fn lower_hex_ascii(b: Seq<u8>) -> Seq<u8> {
    Seq::new(2 * b.len(), |i: int| {
        if i % 2 == 0 {
            hex_ascii_lower(b[i / 2] / 16)
        } else {
            hex_ascii_lower(b[i / 2] % 16)
        }
    })
}

/// The lowercase hexadecimal character rendering of a byte string.
pub open spec fn lower_hex_chars(b: Seq<u8>) -> Seq<char> {
    Seq::new(2 * b.len(), |i: int| {
        if i % 2 == 0 {
            hex_char_lower(b[i / 2] / 16)
        } else {
            hex_char_lower(b[i / 2] % 16)
        }
    })
}

/// The case-sensitive checksummed rendering of an address: each hex digit
/// is uppercased exactly when it is a letter and the corresponding nibble
/// of the Keccak-256 digest of the lowercase hex rendering is at least 8.
#[verifier::opaque]
pub open spec fn checksummed_chars(b: Seq<u8>) -> Seq<char> {
    let h = keccak256_of(lower_hex_ascii(b));
    Seq::new(2 * b.len(), |i: int| {
        let d = if i % 2 == 0 {
            b[i / 2] / 16
        } else {
            b[i / 2] % 16
        };
        let hn = if i % 2 == 0 {
            h[i / 2] / 16
        } else {
            h[i / 2] % 16
        };
        if d >= 10 && hn >= 8 {
            hex_char_upper(d)
        } else {
            hex_char_lower(d)
        }
    })
}

/// The textual form without its optional `0x` prefix.
pub open spec fn strip_prefix(s: Seq<char>) -> Seq<char> {
    if s.len() >= 2 && s[0] == '0' && s[1] == 'x' {
        s.skip(2)
    } else {
        s
    }
}

pub open spec fn addr_shape_ok(h: Seq<char>) -> bool {
    h.len() == 40 && forall|i: int| 0 <= i < 40 ==> is_hex_char(#[trigger] h[i])
}

pub open spec fn has_upper_hex(h: Seq<char>) -> bool {
    exists|i: int| 0 <= i < h.len() && is_upper_hex_letter(#[trigger] h[i])
}

pub open spec fn has_lower_hex(h: Seq<char>) -> bool {
    exists|i: int| 0 <= i < h.len() && is_lower_hex_letter(#[trigger] h[i])
}

/// A checksum is considered present exactly when letters of both cases
/// occur; an all-lowercase or all-uppercase rendering carries none.
pub open spec fn mixed_case(h: Seq<char>) -> bool {
    has_upper_hex(h) && has_lower_hex(h)
}

pub open spec fn hex_decode(h: Seq<char>) -> Seq<u8> {
    Seq::new(h.len() / 2, |i: int| (16 * hex_val(h[2 * i]) + hex_val(h[2 * i + 1])) as u8)
}

/// When a text parses as an address: correctly shaped hex of 40 digits
/// (with optional `0x` prefix) whose checksum, if present, validates.
pub open spec fn spec_parse_ok(s: Seq<char>) -> bool {
    let h = strip_prefix(s);
    addr_shape_ok(h) && (mixed_case(h) ==> h == checksummed_chars(hex_decode(h)))
}

pub open spec fn spec_parse_bytes(s: Seq<char>) -> Seq<u8> {
    hex_decode(strip_prefix(s))
}

/// The deterministic textual form: `0x`, then either the checksummed or
/// the all-lowercase hex rendering.
pub open spec fn spec_format_addr(b: Seq<u8>, with_checksum: bool) -> Seq<char> {
    seq!['0', 'x'] + (if with_checksum {
        checksummed_chars(b)
    } else {
        lower_hex_chars(b)
    })
}

proof fn lemma_hex_char_lower_props(d: u8)
    requires
        d < 16,
    ensures
        is_hex_char(hex_char_lower(d)),
        hex_val(hex_char_lower(d)) == d,
        !is_upper_hex_letter(hex_char_lower(d)),
        d >= 10 ==> is_lower_hex_letter(hex_char_lower(d)),
        d < 10 ==> !is_lower_hex_letter(hex_char_lower(d)),
{
}

proof fn lemma_hex_char_upper_props(d: u8)
    requires
        d < 16,
    ensures
        is_hex_char(hex_char_upper(d)),
        hex_val(hex_char_upper(d)) == d,
        d >= 10 ==> is_upper_hex_letter(hex_char_upper(d)),
        d >= 10 ==> !is_lower_hex_letter(hex_char_upper(d)),
        d < 10 ==> hex_char_upper(d) == hex_char_lower(d),
{
}

fn hex_char_lower_exec(d: u8) -> (c: char)
    requires
        d < 16,
    ensures
        c == hex_char_lower(d),
{
    match d {
        0 => '0',
        1 => '1',
        2 => '2',
        3 => '3',
        4 => '4',
        5 => '5',
        6 => '6',
        7 => '7',
        8 => '8',
        9 => '9',
        10 => 'a',
        11 => 'b',
        12 => 'c',
        13 => 'd',
        14 => 'e',
        _ => 'f',
    }
}

fn hex_char_upper_exec(d: u8) -> (c: char)
    requires
        d < 16,
    ensures
        c == hex_char_upper(d),
{
    match d {
        0 => '0',
        1 => '1',
        2 => '2',
        3 => '3',
        4 => '4',
        5 => '5',
        6 => '6',
        7 => '7',
        8 => '8',
        9 => '9',
        10 => 'A',
        11 => 'B',
        12 => 'C',
        13 => 'D',
        14 => 'E',
        _ => 'F',
    }
}

/// The checksummed hex digits of a 20-byte value, as characters.
fn checksummed_chars_exec(b: &Vec<u8>) -> (r: Vec<char>)
    requires
        b@.len() == 20,
    ensures
        r@ == checksummed_chars(b@),
        r@.len() == 40,
        forall|i: int| 0 <= i < 40 ==> is_hex_char(#[trigger] r@[i]),
{
    proof {
        reveal(checksummed_chars);
    }
    let mut input: Vec<u8> = Vec::new();
    let mut i: usize = 0;
    while i < 20
        invariant
            i <= 20,
            b@.len() == 20,
            input@ =~= lower_hex_ascii(b@).take(2 * i as int),
        decreases 20 - i,
    {
        let hi = b[i] / 16;
        let lo = b[i] % 16;
        input.push(if hi < 10 {
            48 + hi
        } else {
            87 + hi
        });
        input.push(if lo < 10 {
            48 + lo
        } else {
            87 + lo
        });
        i = i + 1;
        proof {
            assert(input@ =~= lower_hex_ascii(b@).take(2 * i as int));
        }
    }
    proof {
        assert(input@ =~= lower_hex_ascii(b@));
    }
    let hash = keccak256(&input);
    let mut out: Vec<char> = Vec::new();
    let mut i: usize = 0;
    while i < 20
        invariant
            i <= 20,
            b@.len() == 20,
            hash@ == keccak256_of(lower_hex_ascii(b@)),
            hash@.len() == 32,
            out@ =~= checksummed_chars(b@).take(2 * i as int),
            forall|q: int| 0 <= q < out@.len() ==> is_hex_char(#[trigger] out@[q]),
        decreases 20 - i,
    {
        let d_hi = b[i] / 16;
        let d_lo = b[i] % 16;
        let h_hi = hash[i] / 16;
        let h_lo = hash[i] % 16;
        let c_hi = if d_hi >= 10 && h_hi >= 8 {
            hex_char_upper_exec(d_hi)
        } else {
            hex_char_lower_exec(d_hi)
        };
        let c_lo = if d_lo >= 10 && h_lo >= 8 {
            hex_char_upper_exec(d_lo)
        } else {
            hex_char_lower_exec(d_lo)
        };
        out.push(c_hi);
        out.push(c_lo);
        i = i + 1;
        proof {
            reveal(checksummed_chars);
            lemma_hex_char_lower_props(d_hi);
            lemma_hex_char_lower_props(d_lo);
            lemma_hex_char_upper_props(d_hi);
            lemma_hex_char_upper_props(d_lo);
            assert(out@ =~= checksummed_chars(b@).take(2 * i as int));
        }
    }
    proof {
        reveal(checksummed_chars);
        assert(out@ =~= checksummed_chars(b@));
    }
    out
}

impl Address {
    pub open spec fn wf(&self) -> bool {
        self.bytes@.len() == 20
    }

    /// Wraps exactly 20 bytes as an address.
    pub fn from_bytes(b: Vec<u8>) -> (r: Result<Address, ClientError>)
        ensures
            r is Ok <==> b@.len() == 20,
            r matches Ok(a) ==> a.wf() && a.bytes@ == b@,
            r is Err ==> r == Err::<Address, ClientError>(ClientError::InvalidAddress),
    {
        if b.len() == 20 {
            Ok(Address { bytes: b })
        } else {
            Err(ClientError::InvalidAddress)
        }
    }

    pub fn clone_address(&self) -> (r: Address)
        ensures
            r.bytes@ == self.bytes@,
            r.wf() == self.wf(),
    {
        let mut d: Vec<u8> = Vec::new();
        let mut i: usize = 0;
        while i < self.bytes.len()
            invariant
                i <= self.bytes@.len(),
                d@ =~= self.bytes@.take(i as int),
            decreases self.bytes@.len() - i,
        {
            let x = self.bytes[i];
            d.push(x);
            i = i + 1;
            proof {
                assert(d@ =~= self.bytes@.take(i as int));
            }
        }
        proof {
            assert(d@ =~= self.bytes@);
        }
        Address { bytes: d }
    }

    /// Parses an account identifier: 40 hex digits with an optional `0x`
    /// prefix. A mixed-case rendering carries a checksum, which must
    /// validate against the decoded bytes; a single-case rendering
    /// carries none. Fails with `InvalidAddress` in every other case.
    #[verifier::rlimit(80)]
    pub fn parse(s: &str) -> (r: Result<Address, ClientError>)
        ensures
            r is Ok <==> spec_parse_ok(s@),
            r matches Ok(a) ==> a.wf() && a.bytes@ == spec_parse_bytes(s@),
            r is Err ==> r == Err::<Address, ClientError>(ClientError::InvalidAddress),
    {
        let n = s.unicode_len();
        let start: usize = if n >= 2 && s.get_char(0) == '0' && s.get_char(1) == 'x' {
            2
        } else {
            0
        };
        let ghost h = strip_prefix(s@);
        proof {
            assert(h =~= s@.skip(start as int));
        }
        if n < start || n - start != 40 {
            proof {
                assert(h.len() != 40);
            }
            return Err(ClientError::InvalidAddress);
        }
        let mut vals: Vec<u8> = Vec::new();
        let mut saw_upper = false;
        let mut saw_lower = false;
        let mut i: usize = 0;
        while i < 40
            invariant
                i <= 40,
                n == s@.len(),
                start + 40 == n,
                h == strip_prefix(s@),
                h =~= s@.skip(start as int),
                h.len() == 40,
                vals@.len() == i,
                forall|q: int|
                    0 <= q < i ==> is_hex_char(#[trigger] h[q]) && vals@[q] == hex_val(h[q])
                        && vals@[q] < 16,
                saw_upper == exists|q: int| 0 <= q < i && is_upper_hex_letter(#[trigger] h[q]),
                saw_lower == exists|q: int| 0 <= q < i && is_lower_hex_letter(#[trigger] h[q]),
            decreases 40 - i,
        {
            let c = s.get_char(start + i);
            proof {
                assert(c == h[i as int]);
            }
            let u = c as u32;
            let v: u8;
            if 48 <= u && u <= 57 {
                v = (u - 48) as u8;
            } else if 97 <= u && u <= 102 {
                v = (u - 87) as u8;
                saw_lower = true;
            } else if 65 <= u && u <= 70 {
                v = (u - 55) as u8;
                saw_upper = true;
            } else {
                proof {
                    assert(!is_hex_char(h[i as int]));
                    assert(!addr_shape_ok(h));
                }
                return Err(ClientError::InvalidAddress);
            }
            vals.push(v);
            i = i + 1;
        }
        proof {
            assert(addr_shape_ok(h));
            assert(saw_upper == has_upper_hex(h));
            assert(saw_lower == has_lower_hex(h));
        }
        let mut bytes: Vec<u8> = Vec::new();
        let mut i: usize = 0;
        while i < 20
            invariant
                i <= 20,
                vals@.len() == 40,
                h.len() == 40,
                forall|q: int|
                    0 <= q < 40 ==> #[trigger] vals@[q] == hex_val(h[q]) && vals@[q] < 16,
                bytes@ =~= hex_decode(h).take(i as int),
            decreases 20 - i,
        {
            let b = 16 * vals[2 * i] + vals[2 * i + 1];
            bytes.push(b);
            i = i + 1;
            proof {
                assert(bytes@ =~= hex_decode(h).take(i as int));
            }
        }
        proof {
            assert(bytes@ =~= hex_decode(h));
        }
        if saw_upper && saw_lower {
            let expected = checksummed_chars_exec(&bytes);
            let mut i: usize = 0;
            while i < 40
                invariant
                    i <= 40,
                    n == s@.len(),
                    start + 40 == n,
                    h == strip_prefix(s@),
                    h =~= s@.skip(start as int),
                    h.len() == 40,
                    expected@ == checksummed_chars(hex_decode(h)),
                    expected@.len() == 40,
                    mixed_case(h),
                    forall|q: int| 0 <= q < i ==> h[q] == expected@[q],
                decreases 40 - i,
            {
                let c = s.get_char(start + i);
                proof {
                    assert(c == h[i as int]);
                }
                if c != expected[i] {
                    proof {
                        assert(h[i as int] != checksummed_chars(hex_decode(h))[i as int]);
                        assert(h != checksummed_chars(hex_decode(h)));
                    }
                    return Err(ClientError::InvalidAddress);
                }
                i = i + 1;
            }
            proof {
                assert(h =~= checksummed_chars(hex_decode(h)));
            }
        }
        proof {
            assert(spec_parse_ok(s@));
        }
        Ok(Address { bytes })
    }

    /// Renders the address as `0x` plus 40 hex digits, checksummed on
    /// request. Deterministic: equal inputs give equal strings.
    #[verifier::rlimit(80)]
    pub fn format(&self, with_checksum: bool) -> (r: String)
        requires
            self.wf(),
        ensures
            r@ == spec_format_addr(self.bytes@, with_checksum),
    {
        let mut out = String::new();
        proof {
            reveal_strlit("0x");
        }
        out.append("0x");
        proof {
            assert(out@ =~= seq!['0', 'x']);
        }
        if with_checksum {
            let chars = checksummed_chars_exec(&self.bytes);
            let mut i: usize = 0;
            while i < 40
                invariant
                    i <= 40,
                    self.wf(),
                    chars@ == checksummed_chars(self.bytes@),
                    chars@.len() == 40,
                    forall|q: int| 0 <= q < 40 ==> is_hex_char(#[trigger] chars@[q]),
                    out@ =~= seq!['0', 'x'] + chars@.take(i as int),
                decreases 40 - i,
            {
                let c = chars[i];
                out.append(char_str(c));
                i = i + 1;
                proof {
                    assert(out@ =~= seq!['0', 'x'] + chars@.take(i as int));
                }
            }
            proof {
                assert(out@ =~= spec_format_addr(self.bytes@, with_checksum));
            }
        } else {
            let mut i: usize = 0;
            while i < self.bytes.len()
                invariant
                    i <= 20,
                    self.wf(),
                    out@ =~= seq!['0', 'x'] + lower_hex_chars(self.bytes@).take(2 * i as int),
                decreases 20 - i,
            {
                let hi = self.bytes[i] / 16;
                let lo = self.bytes[i] % 16;
                out.append(char_str(hex_char_lower_exec(hi)));
                out.append(char_str(hex_char_lower_exec(lo)));
                i = i + 1;
                proof {
                    assert(out@ =~= seq!['0', 'x'] + lower_hex_chars(self.bytes@).take(
                        2 * i as int,
                    ));
                }
            }
            proof {
                assert(out@ =~= spec_format_addr(self.bytes@, with_checksum));
            }
        }
        out
    }
}

/// A single-character string slice for each character an address
/// rendering can contain.
fn char_str(c: char) -> (s: &'static str)
    requires
        is_hex_char(c),
    ensures
        s@ == seq![c],
{
    let r: &'static str = match c {
        '0' => "0",
        '1' => "1",
        '2' => "2",
        '3' => "3",
        '4' => "4",
        '5' => "5",
        '6' => "6",
        '7' => "7",
        '8' => "8",
        '9' => "9",
        'a' => "a",
        'b' => "b",
        'c' => "c",
        'd' => "d",
        'e' => "e",
        'f' => "f",
        'A' => "A",
        'B' => "B",
        'C' => "C",
        'D' => "D",
        'E' => "E",
        _ => "F",
    };
    proof {
        reveal_strlit("0");
        reveal_strlit("1");
        reveal_strlit("2");
        reveal_strlit("3");
        reveal_strlit("4");
        reveal_strlit("5");
        reveal_strlit("6");
        reveal_strlit("7");
        reveal_strlit("8");
        reveal_strlit("9");
        reveal_strlit("a");
        reveal_strlit("b");
        reveal_strlit("c");
        reveal_strlit("d");
        reveal_strlit("e");
        reveal_strlit("f");
        reveal_strlit("A");
        reveal_strlit("B");
        reveal_strlit("C");
        reveal_strlit("D");
        reveal_strlit("E");
        reveal_strlit("F");
        assert(r@ =~= seq![c]);
    }
    r
}

/// Law: formatting any 20-byte address with its checksum and parsing the
/// result yields the same address, and a mixed-case rendering that does
/// not match the checksum always fails to parse.
pub proof fn lemma_address_round_trip(b: Seq<u8>)
    requires
        b.len() == 20,
    ensures
        spec_parse_ok(spec_format_addr(b, true)),
        spec_parse_bytes(spec_format_addr(b, true)) == b,
{
    reveal(checksummed_chars);
    let c = checksummed_chars(b);
    let s = spec_format_addr(b, true);
    assert(c.len() == 40);
    assert(s.len() == 42);
    assert(s[0] == '0' && s[1] == 'x');
    assert(strip_prefix(s) =~= c);
    let h = keccak256_of(lower_hex_ascii(b));
    assert forall|i: int| 0 <= i < 40 implies is_hex_char(#[trigger] c[i]) && hex_val(c[i]) == (
    if i % 2 == 0 {
        b[i / 2] / 16
    } else {
        b[i / 2] % 16
    }) by {
        let d = if i % 2 == 0 {
            b[i / 2] / 16
        } else {
            b[i / 2] % 16
        };
        assert(d < 16);
        lemma_hex_char_lower_props(d);
        lemma_hex_char_upper_props(d);
    }
    assert(addr_shape_ok(c));
    let dec = hex_decode(c);
    assert forall|i: int| 0 <= i < 20 implies dec[i] == b[i] by {
        assert(hex_val(c[2 * i]) == b[i] / 16);
        assert(hex_val(c[2 * i + 1]) == b[i] % 16);
        assert(16 * (b[i] / 16) + b[i] % 16 == b[i]);
    }
    assert(dec =~= b);
    assert(checksummed_chars(dec) == c);
    assert(spec_parse_ok(s));
    assert(spec_parse_bytes(s) == b);
}

} // verus!
