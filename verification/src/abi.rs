use vstd::prelude::*;

use crate::address::Address;
use crate::amount::Amount;
use crate::errors::ClientError;
use crate::keccak::{keccak256, keccak256_of};
use crate::wire::{
    bytes_val, lemma_bytes_val_single, lemma_bytes_val_split, lemma_bytes_val_upper,
    lemma_bytes_val_zero, lemma_pow256_pos, pow256, push_bytes, push_u128_be, push_u64_be,
    spec_u128_be, spec_u64_be, zero_bytes,
};

verus! {

use vstd::string::StrSliceExecFns;
use vstd::string::StringSliceAdditionalSpecFns;

/// The value shapes the contract interface understands. `Str` stands for
/// a dynamically sized string or byte-string return.
#[derive(Clone, Copy, Debug, PartialEq, Eq, Structural)]
pub enum AbiType {
    Uint8,
    Uint64,
    Uint256,
    Bool,
    Address,
    Str,
}

/// A typed argument or decoded return value. Textual returns are handed
/// out as their raw bytes; rendering them is the caller's business.
#[derive(Debug)]
pub enum AbiValue {
    Uint8(u8),
    Uint64(u64),
    Uint256(Amount),
    Bool(bool),
    Address(Address),
    Str(Vec<u8>),
}

pub open spec fn type_of_value(v: AbiValue) -> AbiType {
    match v {
        AbiValue::Uint8(_) => AbiType::Uint8,
        AbiValue::Uint64(_) => AbiType::Uint64,
        AbiValue::Uint256(_) => AbiType::Uint256,
        AbiValue::Bool(_) => AbiType::Bool,
        AbiValue::Address(_) => AbiType::Address,
        AbiValue::Str(_) => AbiType::Str,
    }
}

/// A declarative contract function: a name, its ordered parameter types,
/// and its return shape. Stateless, reused across calls.
pub struct ContractFunction {
    pub name: Vec<u8>,
    pub params: Vec<AbiType>,
    pub ret_type: AbiType,
}

impl ContractFunction {
    /// Describes a function by its ASCII name.
    pub fn describe(name: &str, params: Vec<AbiType>, ret_type: AbiType) -> (r: ContractFunction)
        ensures
            r.name@ == name.spec_bytes(),
            r.params@ == params@,
            r.ret_type == ret_type,
    {
        ContractFunction { name: name.as_bytes_vec(), params, ret_type }
    }
}

/// The canonical ASCII name of a value shape.
pub open spec fn spec_type_name(t: AbiType) -> Seq<u8> {
    match t {
        AbiType::Uint8 => seq![117u8, 105u8, 110u8, 116u8, 56u8],
        AbiType::Uint64 => seq![117u8, 105u8, 110u8, 116u8, 54u8, 52u8],
        AbiType::Uint256 => seq![117u8, 105u8, 110u8, 116u8, 50u8, 53u8, 54u8],
        AbiType::Bool => seq![98u8, 111u8, 111u8, 108u8],
        AbiType::Address => seq![97u8, 100u8, 100u8, 114u8, 101u8, 115u8, 115u8],
        AbiType::Str => seq![115u8, 116u8, 114u8, 105u8, 110u8, 103u8],
    }
}

fn push_type_name(dst: &mut Vec<u8>, t: AbiType)
    ensures
        final(dst)@ == old(dst)@ + spec_type_name(t),
{
    let ghost base = dst@;
    match t {
        AbiType::Uint8 => {
            dst.push(117);
            dst.push(105);
            dst.push(110);
            dst.push(116);
            dst.push(56);
        },
        AbiType::Uint64 => {
            dst.push(117);
            dst.push(105);
            dst.push(110);
            dst.push(116);
            dst.push(54);
            dst.push(52);
        },
        AbiType::Uint256 => {
            dst.push(117);
            dst.push(105);
            dst.push(110);
            dst.push(116);
            dst.push(50);
            dst.push(53);
            dst.push(54);
        },
        AbiType::Bool => {
            dst.push(98);
            dst.push(111);
            dst.push(111);
            dst.push(108);
        },
        AbiType::Address => {
            dst.push(97);
            dst.push(100);
            dst.push(100);
            dst.push(114);
            dst.push(101);
            dst.push(115);
            dst.push(115);
        },
        AbiType::Str => {
            dst.push(115);
            dst.push(116);
            dst.push(114);
            dst.push(105);
            dst.push(110);
            dst.push(103);
        },
    }
    proof {
        assert(dst@ =~= base + spec_type_name(t));
    }
}

/// The comma-separated parameter list of a signature.
pub open spec fn spec_params_sig(params: Seq<AbiType>) -> Seq<u8>
    decreases params.len(),
{
    if params.len() == 0 {
        Seq::<u8>::empty()
    } else if params.len() == 1 {
        spec_type_name(params[0])
    } else {
        spec_params_sig(params.drop_last()) + seq![44u8] + spec_type_name(params.last())
    }
}

/// The canonical signature a selector is derived from:
/// `name(type1,type2,...)`.
pub open spec fn spec_signature(name: Seq<u8>, params: Seq<AbiType>) -> Seq<u8> {
    name + seq![40u8] + spec_params_sig(params) + seq![41u8]
}

/// The 4-byte selector of a function: the leading bytes of the
/// Keccak-256 digest of its canonical signature.
pub open spec fn spec_selector(name: Seq<u8>, params: Seq<AbiType>) -> Seq<u8> {
    keccak256_of(spec_signature(name, params)).take(4)
}

/// The 32-byte word a static value encodes to.
pub open spec fn spec_encode_word(v: AbiValue) -> Seq<u8> {
    match v {
        AbiValue::Uint8(x) => zero_bytes(31) + seq![x],
        AbiValue::Uint64(x) => zero_bytes(24) + spec_u64_be(x),
        AbiValue::Uint256(a) => zero_bytes(16) + spec_u128_be(a.as_nat() as u128),
        AbiValue::Bool(b) => zero_bytes(31) + seq![
            if b {
                1u8
            } else {
                0u8
            },
        ],
        AbiValue::Address(a) => zero_bytes(12) + a.bytes@,
        AbiValue::Str(_) => Seq::<u8>::empty(),
    }
}

pub open spec fn spec_encode_args(args: Seq<AbiValue>) -> Seq<u8>
    decreases args.len(),
{
    if args.len() == 0 {
        Seq::<u8>::empty()
    } else {
        spec_encode_args(args.drop_last()) + spec_encode_word(args.last())
    }
}

/// The full call data: selector, then one 32-byte word per argument.
pub open spec fn spec_encode_call(
    name: Seq<u8>,
    params: Seq<AbiType>,
    args: Seq<AbiValue>,
) -> Seq<u8> {
    spec_selector(name, params) + spec_encode_args(args)
}

/// Arguments match the declared parameters, type by type.
pub open spec fn args_match(params: Seq<AbiType>, args: Seq<AbiValue>) -> bool {
    params.len() == args.len() && forall|i: int|
        0 <= i < args.len() ==> type_of_value(#[trigger] args[i]) == params[i]
}

/// What this encoder can place in a static argument word: every plain
/// value, an address of the right width, and a 256-bit quantity that
/// fits a 128-bit word. A dynamic string argument is not supported.
pub open spec fn encodable(args: Seq<AbiValue>) -> bool {
    forall|i: int|
        0 <= i < args.len() ==> match #[trigger] args[i] {
            AbiValue::Uint256(a) => a.wf() && a.as_nat()
                < 0x1_0000_0000_0000_0000_0000_0000_0000_0000,
            AbiValue::Address(ad) => ad.wf(),
            AbiValue::Str(_) => false,
            _ => true,
        }
}

/// Builds the canonical signature bytes of a function.
fn signature_bytes(f: &ContractFunction) -> (r: Vec<u8>)
    ensures
        r@ == spec_signature(f.name@, f.params@),
{
    let mut sig: Vec<u8> = Vec::new();
    push_bytes(&mut sig, &f.name);
    sig.push(40);
    let n = f.params.len();
    let mut i: usize = 0;
    while i < n
        invariant
            i <= n,
            n == f.params@.len(),
            sig@ =~= f.name@ + seq![40u8] + spec_params_sig(f.params@.take(i as int)),
        decreases n - i,
    {
        if i > 0 {
            sig.push(44);
        }
        let t = f.params[i];
        push_type_name(&mut sig, t);
        i = i + 1;
        proof {
            let pre = f.params@.take(i as int);
            assert(pre.drop_last() =~= f.params@.take(i as int - 1));
            assert(pre.last() == f.params@[i as int - 1]);
            assert(sig@ =~= f.name@ + seq![40u8] + spec_params_sig(pre));
        }
    }
    proof {
        assert(f.params@.take(n as int) =~= f.params@);
    }
    sig.push(41);
    proof {
        assert(sig@ =~= spec_signature(f.name@, f.params@));
    }
    sig
}

/// Encodes a call deterministically: the 4-byte selector of the
/// function's signature followed by one 32-byte big-endian word per
/// argument. Fails with `InvalidFormat` exactly when the arguments do
/// not match the declared parameters or contain a value no static word
/// can carry; no network is involved.
pub fn encode_call(f: &ContractFunction, args: &Vec<AbiValue>) -> (r: Result<Vec<u8>, ClientError>)
    ensures
        r is Ok <==> args_match(f.params@, args@) && encodable(args@),
        r matches Ok(data) ==> data@ == spec_encode_call(f.name@, f.params@, args@),
        r is Err ==> r == Err::<Vec<u8>, ClientError>(ClientError::InvalidFormat),
{
    let sig = signature_bytes(f);
    let hash = keccak256(&sig);
    let mut data: Vec<u8> = Vec::new();
    let h0 = hash[0];
    let h1 = hash[1];
    let h2 = hash[2];
    let h3 = hash[3];
    data.push(h0);
    data.push(h1);
    data.push(h2);
    data.push(h3);
    proof {
        assert(data@ =~= spec_selector(f.name@, f.params@));
    }
    if f.params.len() != args.len() {
        return Err(ClientError::InvalidFormat);
    }
    let n = args.len();
    let mut i: usize = 0;
    while i < n
        invariant
            i <= n,
            n == args@.len(),
            n == f.params@.len(),
            data@ =~= spec_selector(f.name@, f.params@) + spec_encode_args(args@.take(i as int)),
            forall|q: int|
                0 <= q < i ==> type_of_value(#[trigger] args@[q]) == f.params@[q],
            forall|q: int|
                0 <= q < i ==> match #[trigger] args@[q] {
                    AbiValue::Uint256(a) => a.wf() && a.as_nat()
                        < 0x1_0000_0000_0000_0000_0000_0000_0000_0000,
                    AbiValue::Address(ad) => ad.wf(),
                    AbiValue::Str(_) => false,
                    _ => true,
                },
        decreases n - i,
    {
        let ghost base = data@;
        let ok: bool = match (&args[i], f.params[i]) {
            (AbiValue::Uint8(x), AbiType::Uint8) => {
                push_zero_bytes(&mut data, 31);
                data.push(*x);
                true
            },
            (AbiValue::Uint64(x), AbiType::Uint64) => {
                push_zero_bytes(&mut data, 24);
                push_u64_be(&mut data, *x);
                true
            },
            (AbiValue::Uint256(a), AbiType::Uint256) => {
                if !a.is_canonical() {
                    false
                } else {
                    match a.to_u128() {
                        Some(v) => {
                            push_zero_bytes(&mut data, 16);
                            push_u128_be(&mut data, v);
                            true
                        },
                        None => false,
                    }
                }
            },
            (AbiValue::Bool(b), AbiType::Bool) => {
                push_zero_bytes(&mut data, 31);
                data.push(if *b {
                    1
                } else {
                    0
                });
                true
            },
            (AbiValue::Address(ad), AbiType::Address) => {
                if ad.bytes.len() != 20 {
                    false
                } else {
                    push_zero_bytes(&mut data, 12);
                    push_bytes(&mut data, &ad.bytes);
                    true
                }
            },
            _ => false,
        };
        if !ok {
            return Err(ClientError::InvalidFormat);
        }
        i = i + 1;
        proof {
            let pre = args@.take(i as int);
            assert(pre.drop_last() =~= args@.take(i as int - 1));
            assert(pre.last() == args@[i as int - 1]);
            assert(data@ =~= base + spec_encode_word(args@[i as int - 1]));
            assert(data@ =~= spec_selector(f.name@, f.params@) + spec_encode_args(pre));
        }
    }
    proof {
        assert(args@.take(n as int) =~= args@);
    }
    Ok(data)
}

fn push_zero_bytes(dst: &mut Vec<u8>, n: usize)
    ensures
        final(dst)@ == old(dst)@ + zero_bytes(n as nat),
{
    let ghost base = dst@;
    let mut i: usize = 0;
    while i < n
        invariant
            i <= n,
            dst@ =~= base + zero_bytes(i as nat),
        decreases n - i,
    {
        dst.push(0);
        i = i + 1;
        proof {
            assert(dst@ =~= base + zero_bytes(i as nat));
        }
    }
}

/// The declared byte length of a dynamic return inside its envelope.
pub open spec fn str_len_of(d: Seq<u8>) -> nat {
    bytes_val(d.subrange(32, 64))
}

/// The shape a dynamic string return must have: an offset word denoting
/// 32, a length word fitting 64 bits, and exactly the declared bytes
/// padded out to whole 32-byte words.
pub open spec fn str_shape_ok(d: Seq<u8>) -> bool {
    &&& d.len() >= 64
    &&& bytes_val(d.take(32)) == 32
    &&& str_len_of(d) < pow256(8)
    &&& str_len_of(d) <= d.len() - 64
    &&& d.len() == 64 + 32 * ((str_len_of(d) + 31) / 32)
}

/// When a response decodes under a declared return shape.
pub open spec fn spec_decode_ok(d: Seq<u8>, t: AbiType) -> bool {
    match t {
        AbiType::Uint8 => d.len() == 32 && bytes_val(d) < 256,
        AbiType::Uint64 => d.len() == 32 && bytes_val(d) < pow256(8),
        AbiType::Uint256 => d.len() == 32,
        AbiType::Bool => d.len() == 32 && bytes_val(d) < 2,
        AbiType::Address => d.len() == 32 && bytes_val(d) < pow256(20),
        AbiType::Str => str_shape_ok(d),
    }
}

fn leading_zeros(data: &Vec<u8>, k: usize) -> (r: bool)
    requires
        k <= data@.len(),
    ensures
        r == (forall|q: int| 0 <= q < k ==> data@[q] == 0),
{
    let mut i: usize = 0;
    while i < k
        invariant
            i <= k,
            k <= data@.len(),
            forall|q: int| 0 <= q < i ==> data@[q] == 0,
        decreases k - i,
    {
        if data[i] != 0 {
            return false;
        }
        i = i + 1;
    }
    true
}

/// Reads the number denoted by `data[from..from + 8]`.
fn read_u64_be(data: &Vec<u8>, from: usize) -> (n: u64)
    requires
        from + 8 <= data@.len(),
    ensures
        n == bytes_val(data@.subrange(from as int, from + 8)),
{
    let total = data.len();
    let mut n: u64 = 0;
    let mut i: usize = 0;
    while i < 8
        invariant
            i <= 8,
            total == data@.len(),
            from + 8 <= total,
            n == bytes_val(data@.subrange(from as int, from + i)),
            n < pow256(i as nat),
        decreases 8 - i,
    {
        proof {
            assert(pow256((i + 1) as nat) == 256 * pow256(i as nat));
            assert(pow256(8) == 0x1_0000_0000_0000_0000) by {
                assert(pow256(0) == 1);
                assert(pow256(1) == 256);
                assert(pow256(2) == 65536);
                assert(pow256(3) == 16777216);
                assert(pow256(4) == 4294967296);
                assert(pow256(5) == 1099511627776);
                assert(pow256(6) == 281474976710656);
                assert(pow256(7) == 72057594037927936);
                assert(pow256(8) == 18446744073709551616);
            }
            lemma_pow256_mono(i as nat, 7);
        }
        let b = data[from + i];
        n = n * 256 + (b as u64);
        i = i + 1;
        proof {
            let pre = data@.subrange(from as int, from + i);
            assert(pre.drop_last() =~= data@.subrange(from as int, from + i - 1));
            assert(pre.last() == b);
        }
    }
    proof {
        assert(data@.subrange(from as int, from + 8) == data@.subrange(from as int, from + 8));
    }
    n
}

proof fn lemma_nonzero_prefix(d: Seq<u8>, k: int)
    requires
        0 <= k <= d.len(),
        exists|q: int| 0 <= q < k && d[q] != 0,
    ensures
        bytes_val(d.take(k)) != 0,
{
    let q0 = choose|q: int| 0 <= q < k && d[q] != 0;
    lemma_bytes_val_zero(d.take(k));
    assert(d.take(k)[q0] != 0);
}

proof fn lemma_pow256_mono(a: nat, b: nat)
    requires
        a <= b,
    ensures
        pow256(a) <= pow256(b),
    decreases b,
{
    if a < b {
        lemma_pow256_mono(a, (b - 1) as nat);
        lemma_pow256_pos((b - 1) as nat);
    }
}

/// Decodes a read-call response against the declared return shape.
/// Fails with `DecodeError` exactly when the bytes do not fit that
/// shape: wrong length, an out-of-range scalar, or a malformed dynamic
/// envelope.
pub fn decode_return(data: &Vec<u8>, t: AbiType) -> (r: Result<AbiValue, ClientError>)
    ensures
        r is Ok <==> spec_decode_ok(data@, t),
        r is Err ==> r == Err::<AbiValue, ClientError>(ClientError::DecodeError),
        r matches Ok(v) ==> match t {
            AbiType::Uint8 => v == AbiValue::Uint8(data@[31]),
            AbiType::Uint64 => v matches AbiValue::Uint64(x) && x == bytes_val(data@),
            AbiType::Uint256 => v matches AbiValue::Uint256(a) && a.wf() && a.as_nat()
                == bytes_val(data@),
            AbiType::Bool => v matches AbiValue::Bool(b) && b == (bytes_val(data@) == 1),
            AbiType::Address => v matches AbiValue::Address(a) && a.bytes@ == data@.skip(12),
            AbiType::Str => v matches AbiValue::Str(b) && b@ == data@.subrange(
                64,
                64 + str_len_of(data@) as int,
            ),
        },
{
    match t {
        AbiType::Uint8 => {
            if data.len() != 32 {
                return Err(ClientError::DecodeError);
            }
            proof {
                lemma_bytes_val_split(data@, 31);
                lemma_bytes_val_zero(data@.take(31));
                assert(pow256(0) == 1);
                assert(pow256(1) == 256);
                assert(data@.skip(31) =~= seq![data@[31]]);
                lemma_bytes_val_single(data@[31]);
            }
            if !leading_zeros(data, 31) {
                proof {
                    lemma_nonzero_prefix(data@, 31);
                }
                return Err(ClientError::DecodeError);
            }
            let x = data[31];
            Ok(AbiValue::Uint8(x))
        },
        AbiType::Uint64 => {
            if data.len() != 32 {
                return Err(ClientError::DecodeError);
            }
            proof {
                lemma_bytes_val_split(data@, 24);
                lemma_bytes_val_zero(data@.take(24));
            }
            if !leading_zeros(data, 24) {
                proof {
                    lemma_nonzero_prefix(data@, 24);
                }
                return Err(ClientError::DecodeError);
            }
            let n = read_u64_be(data, 24);
            proof {
                assert(data@.subrange(24, 32) =~= data@.skip(24));
            }
            Ok(AbiValue::Uint64(n))
        },
        AbiType::Uint256 => {
            if data.len() != 32 {
                return Err(ClientError::DecodeError);
            }
            let mut acc = Amount::zero();
            let mut i: usize = 0;
            while i < 32
                invariant
                    i <= 32,
                    data@.len() == 32,
                    acc.wf(),
                    acc.as_nat() == bytes_val(data@.take(i as int)),
                decreases 32 - i,
            {
                let b = data[i];
                acc = acc.mul_add(256, b as u128);
                i = i + 1;
                proof {
                    let pre = data@.take(i as int);
                    assert(pre.drop_last() =~= data@.take(i as int - 1));
                    assert(pre.last() == b);
                }
            }
            proof {
                assert(data@.take(32) =~= data@);
            }
            Ok(AbiValue::Uint256(acc))
        },
        AbiType::Bool => {
            if data.len() != 32 {
                return Err(ClientError::DecodeError);
            }
            proof {
                lemma_bytes_val_split(data@, 31);
                lemma_bytes_val_zero(data@.take(31));
                assert(pow256(0) == 1);
                assert(pow256(1) == 256);
                assert(data@.skip(31) =~= seq![data@[31]]);
                lemma_bytes_val_single(data@[31]);
            }
            if !leading_zeros(data, 31) {
                proof {
                    lemma_nonzero_prefix(data@, 31);
                }
                return Err(ClientError::DecodeError);
            }
            let x = data[31];
            if x > 1 {
                return Err(ClientError::DecodeError);
            }
            Ok(AbiValue::Bool(x == 1))
        },
        AbiType::Address => {
            if data.len() != 32 {
                return Err(ClientError::DecodeError);
            }
            proof {
                lemma_bytes_val_split(data@, 12);
                lemma_bytes_val_zero(data@.take(12));
            }
            if !leading_zeros(data, 12) {
                proof {
                    lemma_nonzero_prefix(data@, 12);
                }
                return Err(ClientError::DecodeError);
            }
            let mut bytes: Vec<u8> = Vec::new();
            let mut i: usize = 12;
            while i < 32
                invariant
                    12 <= i <= 32,
                    data@.len() == 32,
                    bytes@ =~= data@.subrange(12, i as int),
                decreases 32 - i,
            {
                let b = data[i];
                bytes.push(b);
                i = i + 1;
                proof {
                    assert(bytes@ =~= data@.subrange(12, i as int));
                }
            }
            proof {
                assert(bytes@ =~= data@.skip(12));
            }
            Ok(AbiValue::Address(Address { bytes }))
        },
        AbiType::Str => {
            if data.len() < 64 {
                return Err(ClientError::DecodeError);
            }
            let ghost w0 = data@.take(32);
            let ghost w1 = data@.subrange(32, 64);
            proof {
                lemma_bytes_val_split(w0, 31);
                lemma_bytes_val_zero(w0.take(31));
                assert(pow256(0) == 1);
                assert(pow256(1) == 256);
                assert(w0.skip(31) =~= seq![data@[31]]);
                lemma_bytes_val_single(data@[31]);
                assert(w0.take(31) =~= data@.take(31));
                lemma_bytes_val_split(w1, 24);
                lemma_bytes_val_zero(w1.take(24));
                assert(w1.take(24) =~= data@.subrange(32, 56));
                assert(w1.skip(24) =~= data@.subrange(56, 64));
            }
            if !leading_zeros(data, 31) {
                proof {
                    lemma_nonzero_prefix(data@, 31);
                    assert(bytes_val(w0.take(31)) != 0);
                }
                return Err(ClientError::DecodeError);
            }
            let offset_byte = data[31];
            if offset_byte != 32 {
                return Err(ClientError::DecodeError);
            }
            // the length word must fit 64 bits
            let mut i: usize = 32;
            while i < 56
                invariant
                    32 <= i <= 56,
                    data@.len() >= 64,
                    forall|q: int| 32 <= q < i ==> data@[q] == 0,
                decreases 56 - i,
            {
                if data[i] != 0 {
                    proof {
                        let w1l = data@.subrange(32, 64);
                        lemma_bytes_val_split(w1l, 24);
                        lemma_bytes_val_zero(w1l.take(24));
                        assert(w1l.take(24)[i - 32] == data@[i as int]);
                        assert(bytes_val(w1l.take(24)) != 0);
                        assert(!(str_len_of(data@) < pow256(8)));
                    }
                    return Err(ClientError::DecodeError);
                }
                i = i + 1;
            }
            proof {
                assert(forall|q: int|
                    0 <= q < 24 ==> #[trigger] data@.subrange(32, 56)[q] == data@[32 + q]);
            }
            let n = read_u64_be(data, 56);
            proof {
                assert(forall|q: int| 0 <= q < 24 ==> #[trigger] w1.take(24)[q] == data@[32 + q]);
                assert(bytes_val(w1.take(24)) == 0) by {
                    lemma_bytes_val_zero(w1.take(24));
                }
                assert(bytes_val(w1) == bytes_val(w1.skip(24)));
                assert(str_len_of(data@) == n);
            }
            if n > (data.len() - 64) as u64 {
                return Err(ClientError::DecodeError);
            }
            let nn = n as usize;
            let padded = ((nn + 31) / 32) * 32;
            if data.len() - 64 != padded {
                return Err(ClientError::DecodeError);
            }
            let dl = data.len();
            let mut b: Vec<u8> = Vec::new();
            let mut i: usize = 0;
            while i < nn
                invariant
                    i <= nn,
                    dl == data@.len(),
                    nn + 64 <= dl,
                    b@ =~= data@.subrange(64, 64 + i as int),
                decreases nn - i,
            {
                let x = data[64 + i];
                b.push(x);
                i = i + 1;
                proof {
                    assert(b@ =~= data@.subrange(64, 64 + i as int));
                }
            }
            Ok(AbiValue::Str(b))
        },
    }
}

} // verus!
