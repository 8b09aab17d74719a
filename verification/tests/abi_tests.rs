use ethclient::abi::{decode_return, encode_call, AbiType, AbiValue, ContractFunction};
use ethclient::address::Address;
use ethclient::amount::Amount;
use ethclient::errors::ClientError;

fn no_arg(name: &str, ret: AbiType) -> ContractFunction {
    ContractFunction::describe(name, Vec::new(), ret)
}

#[test]
fn selector_of_decimals_matches_the_network() {
    // the well-known selector of the ERC-20 decimals() function
    let data = encode_call(&no_arg("decimals", AbiType::Uint8), &Vec::new()).unwrap();
    assert_eq!(data, vec![0x31, 0x3c, 0xe5, 0x67]);
}

#[test]
fn selector_of_name_matches_the_network() {
    let data = encode_call(&no_arg("name", AbiType::Str), &Vec::new()).unwrap();
    assert_eq!(data, vec![0x06, 0xfd, 0xde, 0x03]);
}

#[test]
fn selector_of_symbol_matches_the_network() {
    let data = encode_call(&no_arg("symbol", AbiType::Str), &Vec::new()).unwrap();
    assert_eq!(data, vec![0x95, 0xd8, 0x9b, 0x41]);
}

#[test]
fn selector_of_total_supply_matches_the_network() {
    let data = encode_call(&no_arg("totalSupply", AbiType::Uint256), &Vec::new()).unwrap();
    assert_eq!(data, vec![0x18, 0x16, 0x0d, 0xdd]);
}

#[test]
fn encodes_address_argument_as_padded_word() {
    let f = ContractFunction::describe(
        "balanceOf",
        vec![AbiType::Address],
        AbiType::Uint256,
    );
    let who = Address::parse("0xf6febd05224397e58cfd604220b31f84c089a2e1").unwrap();
    let arg_bytes = who.bytes.clone();
    let data = encode_call(&f, &vec![AbiValue::Address(who)]).unwrap();
    // the well-known selector of balanceOf(address), then 12 zero bytes,
    // then the 20 address bytes
    assert_eq!(&data[0..4], &[0x70, 0xa0, 0x82, 0x31]);
    assert_eq!(data.len(), 36);
    assert_eq!(&data[4..16], &[0u8; 12]);
    assert_eq!(&data[16..36], arg_bytes.as_slice());
}

#[test]
fn encoding_is_deterministic() {
    let a = encode_call(&no_arg("decimals", AbiType::Uint8), &Vec::new()).unwrap();
    let b = encode_call(&no_arg("decimals", AbiType::Uint8), &Vec::new()).unwrap();
    assert_eq!(a, b);
}

#[test]
fn rejects_argument_count_mismatch() {
    let f = no_arg("decimals", AbiType::Uint8);
    let r = encode_call(&f, &vec![AbiValue::Bool(true)]);
    assert_eq!(r.unwrap_err(), ClientError::InvalidFormat);
}

#[test]
fn rejects_argument_type_mismatch() {
    let f = ContractFunction::describe("f", vec![AbiType::Uint64], AbiType::Bool);
    let r = encode_call(&f, &vec![AbiValue::Bool(true)]);
    assert_eq!(r.unwrap_err(), ClientError::InvalidFormat);
}

#[test]
fn encodes_scalar_arguments() {
    let f = ContractFunction::describe(
        "g",
        vec![AbiType::Uint64, AbiType::Bool],
        AbiType::Bool,
    );
    let data = encode_call(&f, &vec![AbiValue::Uint64(0x0102), AbiValue::Bool(true)]).unwrap();
    assert_eq!(data.len(), 4 + 64);
    let word1 = &data[4..36];
    assert_eq!(&word1[0..30], &[0u8; 30]);
    assert_eq!(word1[30], 0x01);
    assert_eq!(word1[31], 0x02);
    let word2 = &data[36..68];
    assert_eq!(&word2[0..31], &[0u8; 31]);
    assert_eq!(word2[31], 1);
}

#[test]
fn uint8_response_of_wrong_length_fails_decode() {
    // a declared uint8 return against a short response
    let r = decode_return(&vec![0u8; 31], AbiType::Uint8);
    assert_eq!(r.unwrap_err(), ClientError::DecodeError);
    let r2 = decode_return(&vec![0u8; 33], AbiType::Uint8);
    assert_eq!(r2.unwrap_err(), ClientError::DecodeError);
    let r3 = decode_return(&Vec::new(), AbiType::Uint8);
    assert_eq!(r3.unwrap_err(), ClientError::DecodeError);
}

#[test]
fn uint8_decodes_from_padded_word() {
    let mut w = vec![0u8; 32];
    w[31] = 18;
    match decode_return(&w, AbiType::Uint8).unwrap() {
        AbiValue::Uint8(x) => assert_eq!(x, 18),
        _ => panic!("wrong variant"),
    }
}

#[test]
fn uint8_rejects_out_of_range_word() {
    let mut w = vec![0u8; 32];
    w[30] = 1;
    w[31] = 18;
    assert_eq!(
        decode_return(&w, AbiType::Uint8).unwrap_err(),
        ClientError::DecodeError
    );
}

#[test]
fn uint64_decodes_big_endian() {
    let mut w = vec![0u8; 32];
    w[30] = 0x01;
    w[31] = 0x00;
    match decode_return(&w, AbiType::Uint64).unwrap() {
        AbiValue::Uint64(x) => assert_eq!(x, 256),
        _ => panic!("wrong variant"),
    }
}

#[test]
fn uint256_decodes_to_exact_amount() {
    let mut w = vec![0u8; 32];
    w[15] = 1;  // 2 to the 128th power
    match decode_return(&w, AbiType::Uint256).unwrap() {
        AbiValue::Uint256(a) => {
            assert!(a.eq_amount(
                &ethclient::units::to_base_units("340282366920938463463374607431768211456", 0)
                    .unwrap()
            ));
        },
        _ => panic!("wrong variant"),
    }
}

#[test]
fn bool_decodes_and_rejects_other_values() {
    let mut w = vec![0u8; 32];
    w[31] = 1;
    match decode_return(&w, AbiType::Bool).unwrap() {
        AbiValue::Bool(b) => assert!(b),
        _ => panic!("wrong variant"),
    }
    w[31] = 2;
    assert_eq!(
        decode_return(&w, AbiType::Bool).unwrap_err(),
        ClientError::DecodeError
    );
}

#[test]
fn address_decodes_from_padded_word() {
    let mut w = vec![0u8; 32];
    for i in 0..20 {
        w[12 + i] = i as u8 + 1;
    }
    match decode_return(&w, AbiType::Address).unwrap() {
        AbiValue::Address(a) => {
            assert_eq!(a.bytes, (1..=20u8).collect::<Vec<u8>>());
        },
        _ => panic!("wrong variant"),
    }
}

#[test]
fn string_decodes_from_dynamic_envelope() {
    // offset 32, length 5, "hello" padded to a full word
    let mut d = vec![0u8; 96];
    d[31] = 32;
    d[63] = 5;
    d[64] = b'h';
    d[65] = b'e';
    d[66] = b'l';
    d[67] = b'l';
    d[68] = b'o';
    match decode_return(&d, AbiType::Str).unwrap() {
        AbiValue::Str(b) => assert_eq!(b, b"hello".to_vec()),
        _ => panic!("wrong variant"),
    }
}

#[test]
fn string_envelope_of_wrong_size_fails_decode() {
    let mut d = vec![0u8; 95];
    d[31] = 32;
    d[63] = 5;
    assert_eq!(
        decode_return(&d, AbiType::Str).unwrap_err(),
        ClientError::DecodeError
    );
    let mut d2 = vec![0u8; 96];
    d2[31] = 32;
    d2[63] = 40;  // declared length exceeds the data
    assert_eq!(
        decode_return(&d2, AbiType::Str).unwrap_err(),
        ClientError::DecodeError
    );
}

#[test]
fn uint256_argument_too_large_for_a_word_fails_explicitly() {
    let f = ContractFunction::describe("h", vec![AbiType::Uint256], AbiType::Bool);
    let big = Amount::from_u128(u128::MAX).mul_u64(2);
    let r = encode_call(&f, &vec![AbiValue::Uint256(big)]);
    assert_eq!(r.unwrap_err(), ClientError::InvalidFormat);
    let small = Amount::from_u64(5);
    assert!(encode_call(&f, &vec![AbiValue::Uint256(small)]).is_ok());
}
