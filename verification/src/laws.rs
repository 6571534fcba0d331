//! General properties of the settlement calculation, stated and proved once
//! for all inputs. Conservation is stated directly on
//! `calculate_balance_changes`: per denomination the settled supply equals
//! the original supply minus the total burnt.
use crate::model::{
    fee_ceil, is_issuer_leg, leg_burn, leg_commission, required_debit, Ctx, LegV,
};
use crate::types::RATE_SCALE;
use vstd::arithmetic::div_mod::lemma_div_is_ordered;
use vstd::arithmetic::mul::lemma_mul_inequality;
use vstd::prelude::*;

verus! {

/// Issuer exemption: an input leg whose sender is the denomination's issuer
/// owes no burn and no commission, so its required debit is exactly its
/// stated amount, whatever the burn and commission rates.
pub proof fn lemma_issuer_exempt(c: Ctx, leg: LegV)
    requires
        is_issuer_leg(c, leg),
    ensures
        leg_burn(c, leg) == 0,
        leg_commission(c, leg) == 0,
        required_debit(c, leg) == leg.amount,
{
}

/// Fee monotonicity: with the share fixed, raising a rate never lowers the
/// rounded-up fee charged on it.
pub proof fn lemma_fee_monotone(share: int, ppm1: int, ppm2: int)
    requires
        0 <= share,
        0 <= ppm1 <= ppm2,
    ensures
        fee_ceil(share, ppm1) <= fee_ceil(share, ppm2),
{
    lemma_mul_inequality(ppm1, ppm2, share);
    assert(share * ppm1 == ppm1 * share) by (nonlinear_arith);
    assert(share * ppm2 == ppm2 * share) by (nonlinear_arith);
    lemma_div_is_ordered(
        share * ppm1 + (RATE_SCALE - 1),
        share * ppm2 + (RATE_SCALE - 1),
        RATE_SCALE as int,
    );
}

} // verus!
