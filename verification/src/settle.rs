//! The settlement calculation itself: flattening, validation, conservation
//! check, fee application, credits, and the delta list.
use crate::model::{
    all_defined, apply_inputs, apply_outputs, bal_legs, balanced, burn_base, burn_total, def_of,
    distinct_keys, fee_ceil, has_addr, has_def, has_key, inputs_wf, is_issuer_leg, key_match,
    ledger_credit, leg_burn, leg_commission, legs_of, nonneg, rejection, required_debit,
    result_covers, result_wf, settled_ledger, share_of, step_input, sum_amt, sum_ni, upd_amount,
    val_of, Ctx, LegV, AMOUNT_LIMIT,
};
use crate::seqs::{
    lemma_addr_before_all, lemma_addr_before_succ, lemma_apply_inputs_none_persists,
    lemma_apply_inputs_take_succ, lemma_burn_take_succ, lemma_burn_total_prefix_nonneg,
    lemma_credit_props, lemma_def_at_unique, lemma_entry_le_sum, lemma_fee_bounds,
    lemma_key_at_unique, lemma_leg_fee_bounds, lemma_legs_of_take_succ, lemma_listed_push,
    lemma_ni_prefix_bounds, lemma_ni_take_succ, lemma_share_bounds, lemma_sum_absent_zero,
    lemma_sum_nonneg, lemma_sum_prefix_bounds, lemma_sum_take_succ, lemma_upd_amount_props,
};
use crate::types::{coins_v, Balance, BalanceV, Coin, DefV, DenomDefinition, MultiSend, Rate, TransferError};
use crate::types::RATE_SCALE;
use vstd::arithmetic::mul::lemma_mul_upper_bound;
use vstd::pervasive::VecAdditionalExecFns;
use vstd::prelude::*;

verus! {

/// One accounting leg of a transfer, and one entry of the working ledger.
pub struct Leg {
    pub address: String,
    pub denom: String,
    pub amount: i128,
}

impl View for Leg {
    type V = LegV;

    open spec fn view(&self) -> LegV {
        LegV { address: self.address@, denom: self.denom@, amount: self.amount as int }
    }
}

pub open spec fn legs_v(s: Seq<Leg>) -> Seq<LegV> {
    s.map_values(|l: Leg| l@)
}

pub open spec fn bals_v(s: Seq<Balance>) -> Seq<BalanceV> {
    s.map_values(|b: Balance| b@)
}

pub open spec fn defs_v(s: Seq<DenomDefinition>) -> Seq<DefV> {
    s.map_values(|x: DenomDefinition| x@)
}

/// Flatten a balance list into its legs, in order.
fn flatten(bs: &Vec<Balance>) -> (r: Vec<Leg>)
    ensures
        legs_v(r@) == legs_of(bals_v(bs@)),
{
    let ghost bv = bals_v(bs@);
    let mut r: Vec<Leg> = Vec::new();
    let mut i: usize = 0;
    proof {
        assert(legs_v(r@) =~= legs_of(bv.take(0)));
    }
    while i < bs.len()
        invariant
            i <= bs@.len(),
            legs_v(r@) == legs_of(bv.take(i as int)),
        decreases bs@.len() - i,
    {
        let b = &bs[i];
        let n = b.coins.len();
        let mut j: usize = 0;
        proof {
            assert(bal_legs(bv[i as int]).take(0) =~= Seq::<LegV>::empty());
            assert(legs_v(r@) + Seq::<LegV>::empty() =~= legs_v(r@));
        }
        while j < n
            invariant
                j <= n,
                i < bs@.len(),
                n == b.coins@.len(),
                b == bs@[i as int],
                legs_v(r@) == legs_of(bv.take(i as int)) + bal_legs(bv[i as int]).take(j as int),
        decreases n - j,
        {
            let c = &b.coins[j];
            let ghost r0 = r@;
            r.push(Leg { address: b.address.clone(), denom: c.denom.clone(), amount: c.amount });
            proof {
                assert(legs_v(r@) =~= legs_v(r0).push(r@[r0.len() as int]@));
                assert(r@[r0.len() as int]@ == bal_legs(bv[i as int])[j as int]);
                assert(bal_legs(bv[i as int]).take(j + 1) =~= bal_legs(bv[i as int]).take(
                    j as int,
                ).push(bal_legs(bv[i as int])[j as int]));
                assert(legs_of(bv.take(i as int)) + bal_legs(bv[i as int]).take(j + 1) =~= (legs_of(
                    bv.take(i as int),
                ) + bal_legs(bv[i as int]).take(j as int)).push(bal_legs(bv[i as int])[j as int]));
            }
            j = j + 1;
        }
        proof {
            assert(bal_legs(bv[i as int]).take(n as int) =~= bal_legs(bv[i as int]));
            lemma_legs_of_take_succ(bv, i as int);
        }
        i = i + 1;
    }
    proof {
        assert(bv.take(bs@.len() as int) =~= bv);
    }
    r
}

/// Index of the catalog definition for denomination `d`, if any.
fn find_def(defs: &Vec<DenomDefinition>, d: &String) -> (r: Option<usize>)
    ensures
        match r {
            Some(i) => i < defs@.len() && defs_v(defs@)[i as int].denom == d@,
            None => !has_def(defs_v(defs@), d@),
        },
{
    let mut i: usize = 0;
    while i < defs.len()
        invariant
            i <= defs@.len(),
            forall|k: int| 0 <= k < i ==> #[trigger] defs_v(defs@)[k].denom != d@,
        decreases defs@.len() - i,
    {
        if defs[i].denom == *d {
            return Some(i);
        }
        i = i + 1;
    }
    None
}

/// Whether every leg's denomination has a catalog definition.
fn check_defined(legs: &Vec<Leg>, defs: &Vec<DenomDefinition>) -> (r: bool)
    ensures
        r == all_defined(defs_v(defs@), legs_v(legs@)),
{
    let mut i: usize = 0;
    while i < legs.len()
        invariant
            i <= legs@.len(),
            forall|k: int|
                0 <= k < i ==> has_def(defs_v(defs@), #[trigger] legs_v(legs@)[k].denom),
        decreases legs@.len() - i,
    {
        match find_def(defs, &legs[i].denom) {
            Some(_) => {},
            None => {
                assert(!has_def(defs_v(defs@), legs_v(legs@)[i as int].denom));
                return false;
            },
        }
        i = i + 1;
    }
    true
}

/// The total transferred in `legs` for denomination `d`.
fn sum_for(legs: &Vec<Leg>, d: &String) -> (r: i128)
    requires
        nonneg(legs_v(legs@)),
        forall|dd: Seq<char>| #[trigger] sum_amt(legs_v(legs@), dd) <= AMOUNT_LIMIT as int,
    ensures
        r as int == sum_amt(legs_v(legs@), d@),
{
    let ghost lv = legs_v(legs@);
    let mut acc: i128 = 0;
    let mut i: usize = 0;
    while i < legs.len()
        invariant
            i <= legs@.len(),
            acc as int == sum_amt(lv.take(i as int), d@),
        decreases legs@.len() - i,
    {
        proof {
            lemma_sum_take_succ(lv, i as int, d@);
            lemma_sum_prefix_bounds(lv, i as int + 1, d@);
        }
        if legs[i].denom == *d {
            acc = acc + legs[i].amount;
        }
        i = i + 1;
    }
    proof {
        assert(lv.take(legs@.len() as int) =~= lv);
    }
    acc
}

/// The total transferred in `legs` for denomination `d` by senders other
/// than `issuer`.
fn sum_for_excl(legs: &Vec<Leg>, d: &String, issuer: &String) -> (r: i128)
    requires
        nonneg(legs_v(legs@)),
        forall|dd: Seq<char>| #[trigger] sum_amt(legs_v(legs@), dd) <= AMOUNT_LIMIT as int,
    ensures
        r as int == sum_ni(legs_v(legs@), d@, issuer@),
{
    let ghost lv = legs_v(legs@);
    let mut acc: i128 = 0;
    let mut i: usize = 0;
    while i < legs.len()
        invariant
            i <= legs@.len(),
            acc as int == sum_ni(lv.take(i as int), d@, issuer@),
        decreases legs@.len() - i,
    {
        proof {
            lemma_ni_take_succ(lv, i as int, d@, issuer@);
            lemma_ni_prefix_bounds(lv, i as int + 1, d@, issuer@);
        }
        if legs[i].denom == *d && !(legs[i].address == *issuer) {
            acc = acc + legs[i].amount;
        }
        i = i + 1;
    }
    proof {
        assert(lv.take(legs@.len() as int) =~= lv);
    }
    acc
}

/// Whether every denomination's input total equals its output total.
fn check_balanced(ins: &Vec<Leg>, outs: &Vec<Leg>) -> (r: bool)
    requires
        nonneg(legs_v(ins@)),
        nonneg(legs_v(outs@)),
        forall|dd: Seq<char>| #[trigger] sum_amt(legs_v(ins@), dd) <= AMOUNT_LIMIT as int,
        forall|dd: Seq<char>| #[trigger] sum_amt(legs_v(outs@), dd) <= AMOUNT_LIMIT as int,
    ensures
        r == balanced(legs_v(ins@), legs_v(outs@)),
{
    let ghost iv = legs_v(ins@);
    let ghost ov = legs_v(outs@);
    let mut i: usize = 0;
    while i < ins.len()
        invariant
            i <= ins@.len(),
            forall|k: int|
                0 <= k < i ==> sum_amt(iv, #[trigger] iv[k].denom) == sum_amt(ov, iv[k].denom),
        decreases ins@.len() - i,
    {
        let d = &ins[i].denom;
        if !(sum_for(ins, d) == sum_for(outs, d)) {
            assert(sum_amt(iv, iv[i as int].denom) != sum_amt(ov, iv[i as int].denom));
            return false;
        }
        i = i + 1;
    }
    let mut j: usize = 0;
    while j < outs.len()
        invariant
            j <= outs@.len(),
            forall|k: int|
                0 <= k < i ==> sum_amt(iv, #[trigger] iv[k].denom) == sum_amt(ov, iv[k].denom),
            forall|k: int|
                0 <= k < j ==> sum_amt(iv, #[trigger] ov[k].denom) == sum_amt(ov, ov[k].denom),
            i == ins@.len(),
        decreases outs@.len() - j,
    {
        let d = &outs[j].denom;
        if !(sum_for(ins, d) == sum_for(outs, d)) {
            assert(sum_amt(iv, ov[j as int].denom) != sum_amt(ov, ov[j as int].denom));
            return false;
        }
        j = j + 1;
    }
    proof {
        assert forall|d: Seq<char>| #[trigger] sum_amt(iv, d) == sum_amt(ov, d) by {
            if sum_amt(iv, d) != 0 {
                if forall|k: int| 0 <= k < iv.len() ==> #[trigger] iv[k].denom != d {
                    lemma_sum_absent_zero(iv, d);
                }
                let k = choose|k: int| 0 <= k < iv.len() && !(#[trigger] iv[k].denom != d);
                assert(sum_amt(iv, iv[k].denom) == sum_amt(ov, iv[k].denom));
            } else if sum_amt(ov, d) != 0 {
                if forall|k: int| 0 <= k < ov.len() ==> #[trigger] ov[k].denom != d {
                    lemma_sum_absent_zero(ov, d);
                }
                let k = choose|k: int| 0 <= k < ov.len() && !(#[trigger] ov[k].denom != d);
                assert(sum_amt(iv, ov[k].denom) == sum_amt(ov, ov[k].denom));
            }
        }
    }
    true
}

/// Index of the ledger entry for `(a, d)`, if any.
fn ledger_find(l: &Vec<Leg>, a: &String, d: &String) -> (r: Option<usize>)
    ensures
        match r {
            Some(i) => i < l@.len() && key_match(legs_v(l@)[i as int], a@, d@),
            None => !has_key(legs_v(l@), a@, d@),
        },
{
    let mut i: usize = 0;
    while i < l.len()
        invariant
            i <= l@.len(),
            forall|k: int| 0 <= k < i ==> !key_match(#[trigger] legs_v(l@)[k], a@, d@),
        decreases l@.len() - i,
    {
        if l[i].address == *a && l[i].denom == *d {
            return Some(i);
        }
        i = i + 1;
    }
    None
}

/// Whether any ledger entry belongs to address `a`.
fn contains_addr(l: &Vec<Leg>, a: &String) -> (r: bool)
    ensures
        r == has_addr(legs_v(l@), a@),
{
    let mut i: usize = 0;
    while i < l.len()
        invariant
            i <= l@.len(),
            forall|k: int| 0 <= k < i ==> #[trigger] legs_v(l@)[k].address != a@,
        decreases l@.len() - i,
    {
        if l[i].address == *a {
            assert(legs_v(l@)[i as int].address == a@);
            return true;
        }
        i = i + 1;
    }
    false
}

/// The fee owed on `share` at `rate`, rounded up.
fn fee_of(share: i128, rate: Rate) -> (r: i128)
    requires
        0 <= share <= AMOUNT_LIMIT,
        rate.ppm <= RATE_SCALE,
    ensures
        r as int == fee_ceil(share as int, rate.ppm as int),
        0 <= r <= share,
{
    proof {
        lemma_fee_bounds(share as int, rate.ppm as int);
        lemma_mul_upper_bound(share as int, AMOUNT_LIMIT as int, rate.ppm as int, RATE_SCALE as int);
    }
    let num: u128 = (share as u128) * (rate.ppm as u128) + ((RATE_SCALE - 1) as u128);
    let q: u128 = num / (RATE_SCALE as u128);
    q as i128
}

/// Settle every input leg in order: debit each sender for its amount plus
/// burn and commission, and credit the commission to the issuer. Returns
/// whether every sender could cover its required debit; on failure the
/// partly mutated ledger is abandoned by the caller.
fn apply_input_legs(
    ledger: &mut Vec<Leg>,
    ins: &Vec<Leg>,
    outs: &Vec<Leg>,
    defs: &Vec<DenomDefinition>,
) -> (ok: bool)
    requires
        distinct_keys(legs_v(old(ledger)@)),
        nonneg(legs_v(old(ledger)@)),
        nonneg(legs_v(ins@)),
        nonneg(legs_v(outs@)),
        forall|dd: Seq<char>| #[trigger] sum_amt(legs_v(old(ledger)@), dd) <= AMOUNT_LIMIT as int,
        forall|dd: Seq<char>| #[trigger] sum_amt(legs_v(ins@), dd) <= AMOUNT_LIMIT as int,
        forall|dd: Seq<char>| #[trigger] sum_amt(legs_v(outs@), dd) <= AMOUNT_LIMIT as int,
        crate::model::distinct_denoms(defs_v(defs@)),
        crate::model::rates_wf(defs_v(defs@)),
        all_defined(defs_v(defs@), legs_v(ins@)),
        forall|k: int|
            0 <= k < legs_v(ins@).len() ==> sum_amt(legs_v(ins@), #[trigger] legs_v(ins@)[k].denom)
                > 0,
    ensures
        ({
            let c = Ctx { defs: defs_v(defs@), ins: legs_v(ins@), outs: legs_v(outs@) };
            let s0 = legs_v(old(ledger)@);
            &&& ok == (apply_inputs(s0, c, c.ins) is Some)
            &&& (ok ==> {
                &&& apply_inputs(s0, c, c.ins) == Some(legs_v(final(ledger)@))
                &&& distinct_keys(legs_v(final(ledger)@))
                &&& nonneg(legs_v(final(ledger)@))
                &&& crate::model::keys_subset(s0, legs_v(final(ledger)@))
                &&& forall|d: Seq<char>|
                    #[trigger] sum_amt(legs_v(final(ledger)@), d) == sum_amt(s0, d) - sum_amt(
                        c.ins,
                        d,
                    ) - burn_total(c, c.ins, d)
            })
        }),
{
    let ghost c = Ctx { defs: defs_v(defs@), ins: legs_v(ins@), outs: legs_v(outs@) };
    let ghost s0 = legs_v(ledger@);
    let mut i: usize = 0;
    proof {
        assert(c.ins.take(0) =~= Seq::<LegV>::empty());
    }
    while i < ins.len()
        invariant
            i <= ins@.len(),
            apply_inputs(s0, c, c.ins.take(i as int)) == Some(legs_v(ledger@)),
            distinct_keys(legs_v(ledger@)),
            nonneg(legs_v(ledger@)),
            crate::model::keys_subset(s0, legs_v(ledger@)),
            forall|d: Seq<char>|
                #[trigger] sum_amt(legs_v(ledger@), d) == sum_amt(s0, d) - sum_amt(
                    c.ins.take(i as int),
                    d,
                ) - burn_total(c, c.ins.take(i as int), d),
        decreases ins@.len() - i,
    {
        let ghost lv = legs_v(ledger@);
        let ghost leg = c.ins[i as int];
        let a = &ins[i].address;
        let d = &ins[i].denom;
        let amount = ins[i].amount;
        proof {
            assert(leg.amount == amount as int && leg.denom == d@ && leg.address == a@);
            assert(has_def(c.defs, leg.denom));
            assert(sum_amt(c.ins, leg.denom) > 0);
            lemma_entry_le_sum(c.ins, i as int);
            lemma_leg_fee_bounds(c, leg);
        }
        let di = find_def(defs, d).unwrap();
        let issuer = &defs[di].issuer;
        proof {
            lemma_def_at_unique(c.defs, di as int);
            assert(def_of(c.defs, leg.denom) == c.defs[di as int]);
        }
        let tin = sum_for(ins, d);
        let burn: i128;
        let comm: i128;
        if *a == *issuer {
            burn = 0;
            comm = 0;
            proof {
                assert(is_issuer_leg(c, leg));
            }
        } else {
            let ni_in = sum_for_excl(ins, d, issuer);
            let ni_out = sum_for_excl(outs, d, issuer);
            let base = if ni_in <= ni_out {
                ni_in
            } else {
                ni_out
            };
            proof {
                assert(base as int == burn_base(c, leg.denom));
                crate::seqs::lemma_ni_nonneg(c.ins, leg.denom, issuer@);
                crate::seqs::lemma_ni_nonneg(c.outs, leg.denom, issuer@);
                crate::seqs::lemma_ni_le_sum(c.ins, leg.denom, issuer@);
                lemma_share_bounds(amount as int, base as int, tin as int);
                lemma_mul_upper_bound(
                    amount as int,
                    AMOUNT_LIMIT as int,
                    base as int,
                    AMOUNT_LIMIT as int,
                );
            }
            let share_u: u128 = (amount as u128) * (base as u128) / (tin as u128);
            let share: i128 = share_u as i128;
            proof {
                assert(share as int == share_of(c, leg));
            }
            burn = fee_of(share, defs[di].burn_rate);
            comm = fee_of(share, defs[di].commission_rate);
            proof {
                assert(burn as int == leg_burn(c, leg));
                assert(comm as int == leg_commission(c, leg));
            }
        }
        let req = amount + burn + comm;
        proof {
            assert(req as int == required_debit(c, leg));
        }
        let found = ledger_find(ledger, a, d);
        if found.is_none() {
            proof {
                assert(step_input(lv, c, leg) is None);
                lemma_apply_inputs_take_succ(s0, c, c.ins, i as int);
                lemma_apply_inputs_none_persists(s0, c, c.ins, i as int + 1);
            }
            return false;
        }
        let idx = found.unwrap();
        proof {
            lemma_key_at_unique(lv, idx as int);
        }
        let v = ledger[idx].amount;
        if v < req {
            proof {
                assert(step_input(lv, c, leg) is None);
                lemma_apply_inputs_take_succ(s0, c, c.ins, i as int);
                lemma_apply_inputs_none_persists(s0, c, c.ins, i as int + 1);
            }
            return false;
        }
        let debited = Leg {
            address: ledger[idx].address.clone(),
            denom: ledger[idx].denom.clone(),
            amount: v - req,
        };
        ledger.set(idx, debited);
        proof {
            assert(legs_v(ledger@) =~= upd_amount(lv, idx as int, v as int - req as int));
            lemma_upd_amount_props(lv, idx as int, v as int - req as int);
        }
        let ghost lv1 = legs_v(ledger@);
        proof {
            assert(nonneg(lv1));
            assert(distinct_keys(lv1));
        }
        let found2 = ledger_find(ledger, issuer, d);
        if found2.is_some() {
            let k2 = found2.unwrap();
            proof {
                lemma_key_at_unique(lv1, k2 as int);
                lemma_entry_le_sum(lv1, k2 as int);
                crate::seqs::lemma_sum_prefix_bounds(c.ins, i as int, leg.denom);
                lemma_burn_total_prefix_nonneg(c, i as int, leg.denom);
            }
            let w = ledger[k2].amount;
            let credited = Leg {
                address: ledger[k2].address.clone(),
                denom: ledger[k2].denom.clone(),
                amount: w + comm,
            };
            ledger.set(k2, credited);
            proof {
                assert(legs_v(ledger@) =~= upd_amount(lv1, k2 as int, w as int + comm as int));
                assert(legs_v(ledger@) =~= ledger_credit(lv1, issuer@, leg.denom, comm as int));
            }
        } else {
            ledger.push(Leg { address: issuer.clone(), denom: d.clone(), amount: comm });
            proof {
                assert(legs_v(ledger@) =~= lv1.push(
                    LegV { address: issuer@, denom: leg.denom, amount: comm as int },
                ));
                assert(legs_v(ledger@) =~= ledger_credit(lv1, issuer@, leg.denom, comm as int));
            }
        }
        proof {
            lemma_credit_props(lv1, issuer@, leg.denom, comm as int);
            assert(step_input(lv, c, leg) == Some(legs_v(ledger@)));
            lemma_apply_inputs_take_succ(s0, c, c.ins, i as int);
            assert(apply_inputs(s0, c, c.ins.take(i as int + 1)) == Some(legs_v(ledger@)));
            assert(crate::model::keys_subset(s0, legs_v(ledger@))) by {
                assert forall|k: int| 0 <= k < s0.len() implies has_key(
                    legs_v(ledger@),
                    #[trigger] s0[k].address,
                    s0[k].denom,
                ) by {
                    assert(has_key(lv, s0[k].address, s0[k].denom));
                    assert(has_key(lv1, s0[k].address, s0[k].denom));
                }
            }
            assert forall|dd: Seq<char>| #[trigger] sum_amt(legs_v(ledger@), dd) == sum_amt(
                s0,
                dd,
            ) - sum_amt(c.ins.take(i as int + 1), dd) - burn_total(
                c,
                c.ins.take(i as int + 1),
                dd,
            ) by {
                lemma_sum_take_succ(c.ins, i as int, dd);
                lemma_burn_take_succ(c, c.ins, i as int, dd);
            }
        }
        i = i + 1;
    }
    proof {
        assert(c.ins.take(ins@.len() as int) =~= c.ins);
    }
    true
}

/// Credit every output leg to its recipient, creating entries as needed.
fn apply_output_legs(ledger: &mut Vec<Leg>, outs: &Vec<Leg>)
    requires
        distinct_keys(legs_v(old(ledger)@)),
        nonneg(legs_v(old(ledger)@)),
        nonneg(legs_v(outs@)),
        forall|dd: Seq<char>| #[trigger] sum_amt(legs_v(old(ledger)@), dd) <= AMOUNT_LIMIT as int,
        forall|dd: Seq<char>| #[trigger] sum_amt(legs_v(outs@), dd) <= AMOUNT_LIMIT as int,
    ensures
        legs_v(final(ledger)@) == apply_outputs(legs_v(old(ledger)@), legs_v(outs@)),
        distinct_keys(legs_v(final(ledger)@)),
        nonneg(legs_v(final(ledger)@)),
        forall|a: Seq<char>, d: Seq<char>|
            has_key(legs_v(old(ledger)@), a, d) ==> #[trigger] has_key(
                legs_v(final(ledger)@),
                a,
                d,
            ),
        forall|dd: Seq<char>|
            #[trigger] sum_amt(legs_v(final(ledger)@), dd) == sum_amt(legs_v(old(ledger)@), dd)
                + sum_amt(legs_v(outs@), dd),
{
    let ghost s1 = legs_v(ledger@);
    let ghost ov = legs_v(outs@);
    let mut j: usize = 0;
    proof {
        assert(ov.take(0) =~= Seq::<LegV>::empty());
    }
    while j < outs.len()
        invariant
            j <= outs@.len(),
            legs_v(ledger@) == apply_outputs(s1, ov.take(j as int)),
            distinct_keys(legs_v(ledger@)),
            nonneg(legs_v(ledger@)),
            forall|a: Seq<char>, d: Seq<char>|
                has_key(s1, a, d) ==> #[trigger] has_key(legs_v(ledger@), a, d),
            forall|dd: Seq<char>|
                #[trigger] sum_amt(legs_v(ledger@), dd) == sum_amt(s1, dd) + sum_amt(
                    ov.take(j as int),
                    dd,
                ),
        decreases outs@.len() - j,
    {
        let ghost lv = legs_v(ledger@);
        let a = &outs[j].address;
        let d = &outs[j].denom;
        let amount = outs[j].amount;
        proof {
            assert(ov[j as int].amount == amount as int);
            lemma_entry_le_sum(ov, j as int);
            crate::seqs::lemma_sum_prefix_bounds(ov, j as int, d@);
        }
        let found = ledger_find(ledger, a, d);
        if found.is_some() {
            let k = found.unwrap();
            proof {
                lemma_key_at_unique(lv, k as int);
                lemma_entry_le_sum(lv, k as int);
            }
            let w = ledger[k].amount;
            let credited = Leg {
                address: ledger[k].address.clone(),
                denom: ledger[k].denom.clone(),
                amount: w + amount,
            };
            ledger.set(k, credited);
            proof {
                assert(legs_v(ledger@) =~= upd_amount(lv, k as int, w as int + amount as int));
                assert(legs_v(ledger@) =~= ledger_credit(lv, a@, d@, amount as int));
            }
        } else {
            ledger.push(Leg { address: a.clone(), denom: d.clone(), amount });
            proof {
                assert(legs_v(ledger@) =~= lv.push(
                    LegV { address: a@, denom: d@, amount: amount as int },
                ));
                assert(legs_v(ledger@) =~= ledger_credit(lv, a@, d@, amount as int));
            }
        }
        proof {
            lemma_credit_props(lv, a@, d@, amount as int);
            assert(ov.take(j + 1).drop_last() =~= ov.take(j as int));
            assert(ov.take(j + 1).last() == ov[j as int]);
            assert(legs_v(ledger@) == apply_outputs(s1, ov.take(j + 1)));
            assert forall|dd: Seq<char>| #[trigger] sum_amt(legs_v(ledger@), dd) == sum_amt(
                s1,
                dd,
            ) + sum_amt(ov.take(j + 1), dd) by {
                lemma_sum_take_succ(ov, j as int, dd);
            }
        }
        j = j + 1;
    }
    proof {
        assert(ov.take(outs@.len() as int) =~= ov);
    }
}

/// Whether the address of entry `k` already appears among the entries
/// before it.
fn addr_seen_before(ledger: &Vec<Leg>, k: usize) -> (r: bool)
    requires
        k < ledger@.len(),
    ensures
        r == crate::model::addr_before(legs_v(ledger@), k as int, legs_v(ledger@)[k as int].address),
{
    let a = &ledger[k].address;
    let mut t: usize = 0;
    while t < k
        invariant
            t <= k,
            k < ledger@.len(),
            forall|k2: int| 0 <= k2 < t ==> (#[trigger] legs_v(ledger@)[k2]).address != a@,
        decreases k - t,
    {
        if ledger[t].address == *a {
            assert(legs_v(ledger@)[t as int].address == a@);
            return true;
        }
        t = t + 1;
    }
    proof {
        if crate::model::addr_before(legs_v(ledger@), k as int, a@) {
            let k2 = choose|i: int|
                0 <= i < k && i < legs_v(ledger@).len() && legs_v(ledger@)[i].address == a@;
            assert(false);
        }
    }
    false
}

/// The delta coins `cs` gathered for the address of ledger entry `k`:
/// each names a key of the final ledger `f` and holds the signed difference
/// against the snapshot legs `s`; every entry of that address is covered,
/// denominations are distinct, and `nz` says whether any final amount of
/// that address is non-zero.
pub open spec fn gathered_ok(
    f: Seq<LegV>,
    s: Seq<LegV>,
    k: int,
    cs: Seq<crate::types::CoinV>,
    nz: bool,
) -> bool {
    let a = f[k].address;
    &&& forall|p: int|
        0 <= p < cs.len() ==> {
            &&& has_key(f, a, (#[trigger] cs[p]).denom)
            &&& cs[p].amount == val_of(f, a, cs[p].denom) - val_of(s, a, cs[p].denom)
        }
    &&& forall|k3: int|
        k <= k3 < f.len() && (#[trigger] f[k3]).address == a ==> exists|p: int|
            0 <= p < cs.len() && cs[p].denom == f[k3].denom
    &&& forall|p: int, q: int|
        0 <= p < q < cs.len() ==> (#[trigger] cs[p]).denom != (#[trigger] cs[q]).denom
    &&& nz == exists|k3: int|
        k <= k3 < f.len() && (#[trigger] f[k3]).address == a && f[k3].amount != 0
}

/// Collect, for the address of entry `k`, one delta coin per ledger entry
/// of that address at or after `k`, together with whether any of those
/// entries holds a non-zero final amount.
#[verifier::rlimit(30)]
fn gather_address(ledger: &Vec<Leg>, seed: &Vec<Leg>, k: usize) -> ((res, nz): (Vec<Coin>, bool))
    requires
        distinct_keys(legs_v(ledger@)),
        distinct_keys(legs_v(seed@)),
        nonneg(legs_v(ledger@)),
        nonneg(legs_v(seed@)),
        forall|dd: Seq<char>| #[trigger] sum_amt(legs_v(ledger@), dd) <= 2 * (AMOUNT_LIMIT as int),
        forall|dd: Seq<char>| #[trigger] sum_amt(legs_v(seed@), dd) <= AMOUNT_LIMIT as int,
        k < ledger@.len(),
    ensures
        gathered_ok(legs_v(ledger@), legs_v(seed@), k as int, coins_v(res@), nz),
{
    let ghost f = legs_v(ledger@);
    let ghost s = legs_v(seed@);
    let a = &ledger[k].address;
    let ghost av = a@;
    let mut coins: Vec<Coin> = Vec::new();
    let ghost mut idxs: Seq<int> = Seq::empty();
    let mut any_nonzero = false;
    let mut k2: usize = k;
    while k2 < ledger.len()
        invariant
            k <= k2 <= ledger@.len(),
            av == f[k as int].address,
            idxs.len() == coins@.len(),
            forall|p: int| 0 <= p < idxs.len() ==> k <= #[trigger] idxs[p] < k2,
            forall|p: int, q: int| 0 <= p < q < idxs.len() ==> idxs[p] < idxs[q],
            forall|p: int|
                0 <= p < idxs.len() ==> {
                    &&& f[#[trigger] idxs[p]].address == av
                    &&& coins@[p]@.denom == f[idxs[p]].denom
                    &&& coins@[p]@.amount == f[idxs[p]].amount - val_of(s, av, f[idxs[p]].denom)
                },
            forall|k3: int|
                k <= k3 < k2 && (#[trigger] f[k3]).address == av ==> exists|p: int|
                    0 <= p < idxs.len() && idxs[p] == k3,
            any_nonzero == exists|k3: int|
                k <= k3 < k2 && (#[trigger] f[k3]).address == av && f[k3].amount != 0,
        decreases ledger@.len() - k2,
    {
        if ledger[k2].address == *a {
            let d2 = &ledger[k2].denom;
            let v = ledger[k2].amount;
            let sfound = ledger_find(seed, a, d2);
            let sv: i128;
            if sfound.is_some() {
                let t2 = sfound.unwrap();
                proof {
                    lemma_key_at_unique(s, t2 as int);
                    lemma_entry_le_sum(s, t2 as int);
                }
                sv = seed[t2].amount;
            } else {
                sv = 0;
            }
            proof {
                assert(sv as int == val_of(s, av, d2@));
                lemma_entry_le_sum(f, k2 as int);
                lemma_sum_nonneg(s, d2@);
            }
            let ghost idxs0 = idxs;
            coins.push(Coin { denom: d2.clone(), amount: v - sv });
            proof {
                idxs = idxs.push(k2 as int);
                assert(idxs[idxs.len() - 1] == k2 as int);
                assert(coins@[coins@.len() - 1]@.denom == d2@);
                assert(f[k2 as int].denom == d2@ && f[k2 as int].address == av);
                assert forall|k3: int|
                    k <= k3 < k2 + 1 && (#[trigger] f[k3]).address == av implies exists|p: int|
                    0 <= p < idxs.len() && idxs[p] == k3 by {
                    if k3 == k2 as int {
                        assert(idxs[idxs.len() - 1] == k3);
                    } else {
                        let p0 = choose|p: int| 0 <= p < idxs0.len() && idxs0[p] == k3;
                        assert(idxs[p0] == k3);
                    }
                }
            }
            if v != 0 {
                any_nonzero = true;
                proof {
                    assert(f[k2 as int].address == av && f[k2 as int].amount != 0);
                }
            }
        }
        k2 = k2 + 1;
    }
    proof {
        assert(forall|p: int|
            0 <= p < coins@.len() ==> #[trigger] coins_v(coins@)[p] == coins@[p]@);
        crate::seqs::lemma_gather_post(f, s, av, k as int, idxs, coins_v(coins@));
        let cs = coins_v(coins@);
        assert(forall|p: int|
            0 <= p < cs.len() ==> {
                &&& has_key(f, av, (#[trigger] cs[p]).denom)
                &&& cs[p].amount == val_of(f, av, cs[p].denom) - val_of(s, av, cs[p].denom)
            });
        assert(gathered_ok(f, s, k as int, cs, any_nonzero));
    }
    (coins, any_nonzero)
}

/// Invariant of the result construction after the first `k` ledger entries
/// have been considered: the listed balances are structurally well formed,
/// every listed coin is the exact delta under its key, every final-ledger
/// entry of a listed address is listed, and an address is listed iff one of
/// its entries stands before `k` and it earns a place in the list.
pub open spec fn building_ok(rv: Seq<BalanceV>, f: Seq<LegV>, s: Seq<LegV>, k: int) -> bool {
    &&& result_wf(rv)
    &&& forall|i: int, p: int|
        0 <= i < rv.len() && 0 <= p < rv[i].coins.len() ==> {
            &&& has_key(f, rv[i].address, (#[trigger] rv[i].coins[p]).denom)
            &&& rv[i].coins[p].amount == val_of(f, rv[i].address, rv[i].coins[p].denom) - val_of(
                s,
                rv[i].address,
                rv[i].coins[p].denom,
            )
        }
    &&& forall|i: int, k3: int|
        0 <= i < rv.len() && 0 <= k3 < f.len() && #[trigger] f[k3].address == #[trigger] rv[i].address
            ==> exists|p: int| 0 <= p < rv[i].coins.len() && rv[i].coins[p].denom == f[k3].denom
    &&& forall|i: int|
        0 <= i < rv.len() ==> crate::model::addr_before(f, k, (#[trigger] rv[i]).address)
    &&& forall|a: Seq<char>|
        #[trigger] crate::model::listed(rv, a) <==> (crate::model::addr_before(f, k, a)
            && crate::model::keepable(f, s, a))
}

/// Group the final ledger into per-address delta records: for every entry of
/// an included address, the signed difference between its final and original
/// amount. An address absent from the snapshot is included only if some of
/// its final holdings is non-zero.
fn build_result(ledger: &Vec<Leg>, seed: &Vec<Leg>) -> (r: Vec<Balance>)
    requires
        distinct_keys(legs_v(ledger@)),
        distinct_keys(legs_v(seed@)),
        nonneg(legs_v(ledger@)),
        nonneg(legs_v(seed@)),
        forall|dd: Seq<char>| #[trigger] sum_amt(legs_v(ledger@), dd) <= 2 * (AMOUNT_LIMIT as int),
        forall|dd: Seq<char>| #[trigger] sum_amt(legs_v(seed@), dd) <= AMOUNT_LIMIT as int,
    ensures
        result_wf(bals_v(r@)),
        result_covers(bals_v(r@), legs_v(ledger@), legs_v(seed@)),
{
    let ghost f = legs_v(ledger@);
    let ghost s = legs_v(seed@);
    let mut r: Vec<Balance> = Vec::new();
    let mut k: usize = 0;
    proof {
        assert(bals_v(r@) =~= Seq::<BalanceV>::empty());
        assert forall|a: Seq<char>| !(#[trigger] crate::model::listed(bals_v(r@), a)) by {
            if crate::model::listed(bals_v(r@), a) {
                let i = choose|i: int|
                    0 <= i < bals_v(r@).len() && bals_v(r@)[i].address == a;
            }
        }
        assert forall|a: Seq<char>| !(#[trigger] crate::model::addr_before(f, 0, a)) by {
            if crate::model::addr_before(f, 0, a) {
                let i = choose|i: int| 0 <= i < 0 && i < f.len() && f[i].address == a;
            }
        }
        assert(building_ok(bals_v(r@), f, s, 0));
    }
    while k < ledger.len()
        invariant
            k <= ledger@.len(),
            building_ok(bals_v(r@), f, s, k as int),
        decreases ledger@.len() - k,
    {
        let ghost rv0 = bals_v(r@);
        let seen = addr_seen_before(ledger, k);
        let ghost av = f[k as int].address;
        if !seen {
            let a = &ledger[k].address;
            proof {
                assert(av == a@);
            }
            let gathered = gather_address(ledger, seed, k);
            let coins = gathered.0;
            let nz = gathered.1;
            let keep = if contains_addr(seed, a) {
                true
            } else {
                nz
            };
            proof {
                assert(keep == crate::model::keepable(f, s, av)) by {
                    if !has_addr(s, av) {
                        if nz {
                            let k3 = choose|k3: int|
                                k <= k3 < f.len() && f[k3].address == av && f[k3].amount != 0;
                            assert(0 <= k3 < f.len() && f[k3].address == av && f[k3].amount != 0);
                        }
                        if crate::model::keepable(f, s, av) {
                            let k3 = choose|k3: int|
                                0 <= k3 < f.len() && f[k3].address == av && f[k3].amount != 0;
                            assert(k as int <= k3);
                            assert(nz);
                        }
                    }
                }
            }
            if keep {
                r.push(Balance { address: a.clone(), coins });
                proof {
                    let rv = bals_v(r@);
                    assert(rv =~= rv0.push(r@[rv0.len() as int]@));
                    let b = rv[rv0.len() as int];
                    assert(b.address == av && b.coins == coins_v(r@[rv0.len() as int].coins@));
                    assert forall|a2: Seq<char>| #[trigger] crate::model::listed(rv, a2) == (
                    crate::model::listed(rv0, a2) || av == a2) by {
                        lemma_listed_push(rv0, b, a2);
                    }
                    assert forall|a2: Seq<char>| #[trigger] crate::model::addr_before(
                        f,
                        k + 1,
                        a2,
                    ) == (crate::model::addr_before(f, k as int, a2) || av == a2) by {
                        lemma_addr_before_succ(f, k as int, a2);
                    }
                    assert(result_wf(rv)) by {
                        assert forall|i: int, j: int|
                            0 <= i < j < rv.len() implies rv[i].address != rv[j].address by {
                            if j == rv.len() - 1 && rv[i].address == av {
                                assert(crate::model::listed(rv0, av));
                            }
                        }
                    }
                    assert forall|i: int, k3: int|
                        0 <= i < rv.len() && 0 <= k3 < f.len() && #[trigger] f[k3].address
                            == #[trigger] rv[i].address implies exists|p: int|
                        0 <= p < rv[i].coins.len() && rv[i].coins[p].denom == f[k3].denom by {
                        if i == rv.len() - 1 {
                            assert(k as int <= k3);
                        }
                    }
                    assert(building_ok(rv, f, s, k + 1));
                }
            } else {
                proof {
                    let rv = bals_v(r@);
                    assert forall|a2: Seq<char>| #[trigger] crate::model::addr_before(
                        f,
                        k + 1,
                        a2,
                    ) == (crate::model::addr_before(f, k as int, a2) || av == a2) by {
                        lemma_addr_before_succ(f, k as int, a2);
                    }
                    assert(!crate::model::listed(rv, av));
                    assert(building_ok(rv, f, s, k + 1));
                }
            }
        } else {
            proof {
                let rv = bals_v(r@);
                assert forall|a2: Seq<char>| #[trigger] crate::model::addr_before(f, k + 1, a2)
                    == (crate::model::addr_before(f, k as int, a2) || av == a2) by {
                    lemma_addr_before_succ(f, k as int, a2);
                }
                assert(building_ok(rv, f, s, k + 1));
            }
        }
        k = k + 1;
    }
    proof {
        let rv = bals_v(r@);
        assert forall|a2: Seq<char>| #[trigger] crate::model::addr_before(
            f,
            ledger@.len() as int,
            a2,
        ) == has_addr(f, a2) by {
            lemma_addr_before_all(f, a2);
        }
        assert(result_covers(rv, f, s));
    }
    r
}

/// Compute the signed balance changes of a multi-send transfer against a
/// balance snapshot and a fee catalog, or reject it: with an undefined
/// denomination first, then a conservation mismatch, then the first sender
/// whose holdings cannot cover its amount plus fees. On success the returned
/// records hold the exact delta for every affected account, and per
/// denomination the total supply drops by exactly the amount burnt.
pub fn calculate_balance_changes(
    original_balances: Vec<Balance>,
    definitions: Vec<DenomDefinition>,
    multi_send_tx: MultiSend,
) -> (r: Result<Vec<Balance>, TransferError>)
    requires
        inputs_wf(
            legs_of(bals_v(original_balances@)),
            defs_v(definitions@),
            legs_of(bals_v(multi_send_tx.inputs@)),
            legs_of(bals_v(multi_send_tx.outputs@)),
        ),
    ensures
        ({
            let s = legs_of(bals_v(original_balances@));
            let c = Ctx {
                defs: defs_v(definitions@),
                ins: legs_of(bals_v(multi_send_tx.inputs@)),
                outs: legs_of(bals_v(multi_send_tx.outputs@)),
            };
            &&& (r is Err <==> rejection(s, c) is Some)
            &&& (r is Err ==> r->Err_0 == rejection(s, c).unwrap())
            &&& (r is Ok ==> {
                &&& result_wf(bals_v(r->Ok_0@))
                &&& result_covers(bals_v(r->Ok_0@), settled_ledger(s, c), s)
                &&& forall|d: Seq<char>|
                    #[trigger] sum_amt(settled_ledger(s, c), d) == sum_amt(s, d) - burn_total(
                        c,
                        c.ins,
                        d,
                    )
                &&& forall|d: Seq<char>| #[trigger] burn_total(c, c.ins, d) >= 0
            })
        }),
{
    let ghost s = legs_of(bals_v(original_balances@));
    let ghost c = Ctx {
        defs: defs_v(definitions@),
        ins: legs_of(bals_v(multi_send_tx.inputs@)),
        outs: legs_of(bals_v(multi_send_tx.outputs@)),
    };
    let in_legs = flatten(&multi_send_tx.inputs);
    let out_legs = flatten(&multi_send_tx.outputs);
    if !check_defined(&in_legs, &definitions) {
        return Err(TransferError::UndefinedDenomination);
    }
    if !check_defined(&out_legs, &definitions) {
        return Err(TransferError::UndefinedDenomination);
    }
    if !check_balanced(&in_legs, &out_legs) {
        return Err(TransferError::ImbalancedTransfer);
    }
    let seed = flatten(&original_balances);
    let mut ledger = flatten(&original_balances);
    proof {
        assert forall|i: int| 0 <= i < c.ins.len() implies sum_amt(
            c.ins,
            #[trigger] c.ins[i].denom,
        ) > 0 by {}
    }
    let ok = apply_input_legs(&mut ledger, &in_legs, &out_legs, &definitions);
    if !ok {
        return Err(TransferError::InsufficientBalance);
    }
    proof {
        assert(apply_inputs(s, c, c.ins) == Some(legs_v(ledger@)));
        assert forall|dd: Seq<char>| #[trigger] sum_amt(legs_v(ledger@), dd) <= AMOUNT_LIMIT as int
            by {
            crate::seqs::lemma_sum_prefix_bounds(c.ins, c.ins.len() as int, dd);
            assert(c.ins.take(c.ins.len() as int) =~= c.ins);
            lemma_burn_total_prefix_nonneg(c, c.ins.len() as int, dd);
        }
    }
    let ghost mid = legs_v(ledger@);
    apply_output_legs(&mut ledger, &out_legs);
    proof {
        assert(legs_v(ledger@) == apply_outputs(mid, c.outs));
        assert(legs_v(ledger@) == settled_ledger(s, c));
        assert forall|dd: Seq<char>| #[trigger] sum_amt(legs_v(ledger@), dd) == sum_amt(s, dd)
            - burn_total(c, c.ins, dd) by {
            assert(c.ins.take(c.ins.len() as int) =~= c.ins);
            assert(sum_amt(c.ins, dd) == sum_amt(c.outs, dd));
        }
        assert forall|dd: Seq<char>| #[trigger] sum_amt(legs_v(ledger@), dd) <= 2 * (
        AMOUNT_LIMIT as int) by {
            lemma_burn_total_prefix_nonneg(c, c.ins.len() as int, dd);
            assert(c.ins.take(c.ins.len() as int) =~= c.ins);
        }
        assert forall|dd: Seq<char>| #[trigger] burn_total(c, c.ins, dd) >= 0 by {
            lemma_burn_total_prefix_nonneg(c, c.ins.len() as int, dd);
            assert(c.ins.take(c.ins.len() as int) =~= c.ins);
        }
    }
    let res = build_result(&ledger, &seed);
    Ok(res)
}

} // verus!

