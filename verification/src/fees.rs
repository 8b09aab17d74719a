use vstd::prelude::*;

use crate::amount::{Amount, lemma_canonical_injective, lemma_nat_digits, nat_digits};
use crate::units::{spec_format, to_decimal_string};

verus! {

/// The computation allowance of a plain value transfer.
pub const TRANSFER_GAS_LIMIT: u64 = 21000;

/// The native asset's precision: base units per whole unit, in decimal
/// digits.
pub const NATIVE_DECIMALS: usize = 18;

/// Renders an account balance in base units as a human-readable decimal
/// at the native 18-digit precision.
pub fn get_readable_balance(balance: &Amount) -> (r: String)
    requires
        balance.wf(),
    ensures
        r@ == spec_format(balance.digits@, NATIVE_DECIMALS as nat),
{
    to_decimal_string(balance, NATIVE_DECIMALS)
}

/// The maximum fee of a plain transfer: gas price times the transfer
/// allowance, computed exactly at any size.
pub fn transfer_fee(gas_price: &Amount) -> (r: Amount)
    requires
        gas_price.wf(),
    ensures
        r.wf(),
        r.as_nat() == gas_price.as_nat() * TRANSFER_GAS_LIMIT,
{
    gas_price.mul_u64(TRANSFER_GAS_LIMIT)
}

/// The estimated fee of a plain transfer, rendered as a decimal string at
/// the native precision: exactly the digits of gas price times the
/// transfer allowance.
pub fn estimate_transfer_gas_fee(gas_price: &Amount) -> (r: String)
    requires
        gas_price.wf(),
    ensures
        r@ == spec_format(
            nat_digits((gas_price.as_nat() * TRANSFER_GAS_LIMIT) as nat),
            NATIVE_DECIMALS as nat,
        ),
{
    let fee = transfer_fee(gas_price);
    proof {
        lemma_nat_digits((gas_price.as_nat() * TRANSFER_GAS_LIMIT) as nat);
        lemma_canonical_injective(
            fee.digits@,
            nat_digits((gas_price.as_nat() * TRANSFER_GAS_LIMIT) as nat),
        );
    }
    to_decimal_string(&fee, NATIVE_DECIMALS)
}

} // verus!
