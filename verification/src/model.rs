//! Mathematical model of the settlement calculation.
//!
//! A transfer is flattened into *legs*: one `(address, denom, amount)` triple
//! per coin of an input or output entry. The working ledger is modelled as a
//! sequence of such triples with pairwise distinct `(address, denom)` keys.
//! The whole calculation is specified by `apply_inputs` and `apply_outputs`
//! over that ledger, and by `result_wf` / `result_covers` over the returned
//! delta list.
use crate::types::{BalanceV, DefV, TransferError, RATE_SCALE};
use vstd::prelude::*;

verus! {

/// One accounting leg, and also one working-ledger entry.
pub ghost struct LegV {
    pub address: Seq<char>,
    pub denom: Seq<char>,
    pub amount: int,
}

/// The legs of one balance entry: its address paired with each of its coins.
pub open spec fn bal_legs(b: BalanceV) -> Seq<LegV> {
    b.coins.map_values(
        |c: crate::types::CoinV| LegV { address: b.address, denom: c.denom, amount: c.amount },
    )
}

/// The legs of a balance list, in order.
pub open spec fn legs_of(bs: Seq<BalanceV>) -> Seq<LegV>
    decreases bs.len(),
{
    if bs.len() == 0 {
        Seq::empty()
    } else {
        legs_of(bs.drop_last()) + bal_legs(bs.last())
    }
}

/// What a leg contributes to the total of denomination `d`.
pub open spec fn leg_contrib(l: LegV, d: Seq<char>) -> int {
    if l.denom == d {
        l.amount
    } else {
        0
    }
}

/// Sum of the amounts of all legs of denomination `d`.
pub open spec fn sum_amt(legs: Seq<LegV>, d: Seq<char>) -> int
    decreases legs.len(),
{
    if legs.len() == 0 {
        0
    } else {
        sum_amt(legs.drop_last(), d) + leg_contrib(legs.last(), d)
    }
}

/// What a leg contributes to the non-issuer total of denomination `d`.
pub open spec fn ni_contrib(l: LegV, d: Seq<char>, issuer: Seq<char>) -> int {
    if l.denom == d && l.address != issuer {
        l.amount
    } else {
        0
    }
}

/// Sum of the amounts of the legs of denomination `d` whose address is not
/// the issuer.
pub open spec fn sum_ni(legs: Seq<LegV>, d: Seq<char>, issuer: Seq<char>) -> int
    decreases legs.len(),
{
    if legs.len() == 0 {
        0
    } else {
        sum_ni(legs.drop_last(), d, issuer) + ni_contrib(legs.last(), d, issuer)
    }
}

pub open spec fn key_match(l: LegV, a: Seq<char>, d: Seq<char>) -> bool {
    l.address == a && l.denom == d
}

pub open spec fn has_key(l: Seq<LegV>, a: Seq<char>, d: Seq<char>) -> bool {
    exists|i: int| 0 <= i < l.len() && key_match(l[i], a, d)
}

pub open spec fn key_at(l: Seq<LegV>, a: Seq<char>, d: Seq<char>) -> int {
    choose|i: int| 0 <= i < l.len() && key_match(l[i], a, d)
}

/// The ledger entry for `(a, d)`, absent entries reading as zero.
pub open spec fn val_of(l: Seq<LegV>, a: Seq<char>, d: Seq<char>) -> int {
    if has_key(l, a, d) {
        l[key_at(l, a, d)].amount
    } else {
        0
    }
}

pub open spec fn has_addr(l: Seq<LegV>, a: Seq<char>) -> bool {
    exists|i: int| 0 <= i < l.len() && l[i].address == a
}

/// No two ledger entries share an `(address, denom)` key.
pub open spec fn distinct_keys(l: Seq<LegV>) -> bool {
    forall|i: int, j: int|
        0 <= i < j < l.len() ==> !(l[i].address == l[j].address && l[i].denom == l[j].denom)
}

pub open spec fn nonneg(l: Seq<LegV>) -> bool {
    forall|i: int| 0 <= i < l.len() ==> l[i].amount >= 0
}

/// Every key of `s` is a key of `l`.
pub open spec fn keys_subset(s: Seq<LegV>, l: Seq<LegV>) -> bool {
    forall|i: int| 0 <= i < s.len() ==> has_key(l, #[trigger] s[i].address, s[i].denom)
}

pub open spec fn has_def(defs: Seq<DefV>, d: Seq<char>) -> bool {
    exists|i: int| 0 <= i < defs.len() && defs[i].denom == d
}

pub open spec fn def_at(defs: Seq<DefV>, d: Seq<char>) -> int {
    choose|i: int| 0 <= i < defs.len() && defs[i].denom == d
}

/// The definition of denomination `d`; meaningful only when `has_def` holds,
/// and then unique because catalog denominations are distinct.
pub open spec fn def_of(defs: Seq<DefV>, d: Seq<char>) -> DefV {
    defs[def_at(defs, d)]
}

pub open spec fn distinct_denoms(defs: Seq<DefV>) -> bool {
    forall|i: int, j: int| 0 <= i < j < defs.len() ==> defs[i].denom != defs[j].denom
}

/// Every rate of the catalog lies in `[0, 1]`.
pub open spec fn rates_wf(defs: Seq<DefV>) -> bool {
    forall|i: int|
        0 <= i < defs.len() ==> {
            &&& 0 <= #[trigger] defs[i].burn_ppm <= RATE_SCALE
            &&& 0 <= defs[i].commission_ppm <= RATE_SCALE
        }
}

pub open spec fn all_defined(defs: Seq<DefV>, legs: Seq<LegV>) -> bool {
    forall|i: int| 0 <= i < legs.len() ==> has_def(defs, #[trigger] legs[i].denom)
}

/// Conservation: every denomination's input total equals its output total.
pub open spec fn balanced(ins: Seq<LegV>, outs: Seq<LegV>) -> bool {
    forall|d: Seq<char>| #[trigger] sum_amt(ins, d) == sum_amt(outs, d)
}

/// The fixed context of one settlement: catalog and flattened transfer legs.
pub ghost struct Ctx {
    pub defs: Seq<DefV>,
    pub ins: Seq<LegV>,
    pub outs: Seq<LegV>,
}

/// Fees for denomination `d` are capped by whichever side of non-issuer flow
/// is smaller.
pub open spec fn burn_base(c: Ctx, d: Seq<char>) -> int {
    let issuer = def_of(c.defs, d).issuer;
    let ni_in = sum_ni(c.ins, d, issuer);
    let ni_out = sum_ni(c.outs, d, issuer);
    if ni_in <= ni_out {
        ni_in
    } else {
        ni_out
    }
}

/// `amount * rate`, rounded up: the fee owed on a share at a fixed-point
/// rate of `ppm / RATE_SCALE`.
pub open spec fn fee_ceil(share: int, ppm: int) -> int {
    (share * ppm + (RATE_SCALE - 1)) / (RATE_SCALE as int)
}

/// The rounding-sensitive proportional base of an input leg: the floor of
/// `amount * burn_base / total_input`, with the denomination-wide input total
/// (issuer legs included) as the divisor.
pub open spec fn share_of(c: Ctx, leg: LegV) -> int {
    leg.amount * burn_base(c, leg.denom) / sum_amt(c.ins, leg.denom)
}

/// An input leg whose sender is the denomination's issuer is fee-exempt.
pub open spec fn is_issuer_leg(c: Ctx, leg: LegV) -> bool {
    def_of(c.defs, leg.denom).issuer == leg.address
}

pub open spec fn leg_burn(c: Ctx, leg: LegV) -> int {
    if is_issuer_leg(c, leg) {
        0
    } else {
        fee_ceil(share_of(c, leg), def_of(c.defs, leg.denom).burn_ppm)
    }
}

pub open spec fn leg_commission(c: Ctx, leg: LegV) -> int {
    if is_issuer_leg(c, leg) {
        0
    } else {
        fee_ceil(share_of(c, leg), def_of(c.defs, leg.denom).commission_ppm)
    }
}

/// What an input leg's sender must hold: the stated amount plus both fees.
pub open spec fn required_debit(c: Ctx, leg: LegV) -> int {
    leg.amount + leg_burn(c, leg) + leg_commission(c, leg)
}

/// Overwrite the amount of entry `i`.
pub open spec fn upd_amount(l: Seq<LegV>, i: int, v: int) -> Seq<LegV> {
    l.update(i, LegV { address: l[i].address, denom: l[i].denom, amount: v })
}

/// Add `x` to the entry for `(a, d)`, creating the entry if absent.
pub open spec fn ledger_credit(l: Seq<LegV>, a: Seq<char>, d: Seq<char>, x: int) -> Seq<LegV> {
    if has_key(l, a, d) {
        upd_amount(l, key_at(l, a, d), l[key_at(l, a, d)].amount + x)
    } else {
        l.push(LegV { address: a, denom: d, amount: x })
    }
}

/// Settle one input leg: debit the sender for amount plus fees, then credit
/// the commission to the issuer. `None` when the sender has no entry or an
/// entry smaller than the required debit.
pub open spec fn step_input(l: Seq<LegV>, c: Ctx, leg: LegV) -> Option<Seq<LegV>> {
    let req = required_debit(c, leg);
    if !has_key(l, leg.address, leg.denom) {
        None
    } else {
        let i = key_at(l, leg.address, leg.denom);
        if l[i].amount < req {
            None
        } else {
            Some(
                ledger_credit(
                    upd_amount(l, i, l[i].amount - req),
                    def_of(c.defs, leg.denom).issuer,
                    leg.denom,
                    leg_commission(c, leg),
                ),
            )
        }
    }
}

/// Settle the input legs in order; the first failing leg aborts the whole
/// transfer.
pub open spec fn apply_inputs(l: Seq<LegV>, c: Ctx, legs: Seq<LegV>) -> Option<Seq<LegV>>
    decreases legs.len(),
{
    if legs.len() == 0 {
        Some(l)
    } else {
        match apply_inputs(l, c, legs.drop_last()) {
            None => None,
            Some(m) => step_input(m, c, legs.last()),
        }
    }
}

/// Credit the output legs in order.
pub open spec fn apply_outputs(l: Seq<LegV>, legs: Seq<LegV>) -> Seq<LegV>
    decreases legs.len(),
{
    if legs.len() == 0 {
        l
    } else {
        let m = apply_outputs(l, legs.drop_last());
        ledger_credit(m, legs.last().address, legs.last().denom, legs.last().amount)
    }
}

/// Total amount burnt for denomination `d` over the given input legs.
pub open spec fn burn_total(c: Ctx, legs: Seq<LegV>, d: Seq<char>) -> int
    decreases legs.len(),
{
    if legs.len() == 0 {
        0
    } else {
        burn_total(c, legs.drop_last(), d) + if legs.last().denom == d {
            leg_burn(c, legs.last())
        } else {
            0
        }
    }
}

/// The ledger after every input leg is debited and every output leg is
/// credited; meaningful only when `apply_inputs` succeeds.
pub open spec fn settled_ledger(s: Seq<LegV>, c: Ctx) -> Seq<LegV> {
    apply_outputs(apply_inputs(s, c, c.ins).unwrap(), c.outs)
}

/// Per-denomination totals never exceed this bound; it keeps every
/// intermediate product of the fee arithmetic inside `i128`.
pub const AMOUNT_LIMIT: i128 = 0x7fff_ffff_ffff_ffff;

pub open spec fn bounded(legs: Seq<LegV>) -> bool {
    forall|d: Seq<char>| #[trigger] sum_amt(legs, d) <= AMOUNT_LIMIT as int
}

/// What the caller must uphold of snapshot, catalog and transfer: amounts of
/// balances and legs are non-negative with bounded per-denomination totals,
/// the snapshot holds at most one entry per `(address, denom)`, the catalog
/// at most one definition per denomination with rates in `[0, 1]`, and no
/// denomination that would pass validation and conservation sums its input
/// legs to zero (the proportional base divides by that total).
pub open spec fn inputs_wf(s: Seq<LegV>, defs: Seq<DefV>, ins: Seq<LegV>, outs: Seq<LegV>) -> bool {
    &&& nonneg(s)
    &&& nonneg(ins)
    &&& nonneg(outs)
    &&& bounded(s)
    &&& bounded(ins)
    &&& bounded(outs)
    &&& distinct_keys(s)
    &&& distinct_denoms(defs)
    &&& rates_wf(defs)
    &&& (all_defined(defs, ins) && all_defined(defs, outs) && balanced(ins, outs) ==> forall|
        i: int,
    |
        0 <= i < ins.len() ==> sum_amt(ins, #[trigger] ins[i].denom) > 0)
}

/// Whether the delta list names address `a`.
pub open spec fn listed(rv: Seq<BalanceV>, a: Seq<char>) -> bool {
    exists|i: int| 0 <= i < rv.len() && rv[i].address == a
}

/// Whether some of the first `k` ledger entries belongs to address `a`.
pub open spec fn addr_before(f: Seq<LegV>, k: int, a: Seq<char>) -> bool {
    exists|i: int| 0 <= i < k && i < f.len() && f[i].address == a
}

/// Whether address `a` earns a place in the delta list: it existed in the
/// snapshot, or it ends with some non-zero holding.
pub open spec fn keepable(f: Seq<LegV>, s: Seq<LegV>, a: Seq<char>) -> bool {
    has_addr(s, a) || exists|k: int| 0 <= k < f.len() && f[k].address == a && f[k].amount != 0
}

/// Structure of the returned delta list: addresses are pairwise distinct and
/// each address's coins name pairwise distinct denominations.
pub open spec fn result_wf(rv: Seq<BalanceV>) -> bool {
    &&& forall|i: int, j: int| 0 <= i < j < rv.len() ==> rv[i].address != rv[j].address
    &&& forall|i: int, p: int, q: int|
        0 <= i < rv.len() && 0 <= p < q < rv[i].coins.len() ==> rv[i].coins[p].denom
            != rv[i].coins[q].denom
}

/// The returned delta list against final ledger `f` and snapshot legs `s`:
/// every listed coin is the exact signed difference between the final and
/// the original entry under its key; a listed address lists a coin for every
/// final-ledger entry it owns; and an address is listed iff it stands in the
/// final ledger and either existed in the snapshot or ends with some
/// non-zero holding.
pub open spec fn result_covers(rv: Seq<BalanceV>, f: Seq<LegV>, s: Seq<LegV>) -> bool {
    &&& forall|i: int, p: int|
        0 <= i < rv.len() && 0 <= p < rv[i].coins.len() ==> {
            &&& has_key(f, rv[i].address, #[trigger] rv[i].coins[p].denom)
            &&& rv[i].coins[p].amount == val_of(f, rv[i].address, rv[i].coins[p].denom) - val_of(
                s,
                rv[i].address,
                rv[i].coins[p].denom,
            )
        }
    &&& forall|i: int, k: int|
        0 <= i < rv.len() && 0 <= k < f.len() && #[trigger] f[k].address == #[trigger] rv[i].address
            ==> exists|p: int| 0 <= p < rv[i].coins.len() && rv[i].coins[p].denom == f[k].denom
    &&& forall|a: Seq<char>| #[trigger] listed(rv, a) <==> (has_addr(f, a) && keepable(f, s, a))
}

/// Which rejection, if any, the given snapshot, catalog and transfer earn:
/// an undefined denomination first, then a conservation mismatch, then the
/// first insufficient sender.
pub open spec fn rejection(s: Seq<LegV>, c: Ctx) -> Option<TransferError> {
    if !(all_defined(c.defs, c.ins) && all_defined(c.defs, c.outs)) {
        Some(TransferError::UndefinedDenomination)
    } else if !balanced(c.ins, c.outs) {
        Some(TransferError::ImbalancedTransfer)
    } else if apply_inputs(s, c, c.ins) is None {
        Some(TransferError::InsufficientBalance)
    } else {
        None
    }
}

} // verus!
