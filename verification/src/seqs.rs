//! Supporting lemmas: how the model's per-denomination sums behave under
//! taking prefixes, updating, pushing and concatenation; uniqueness of keyed
//! lookups; and bounds on the proportional fee arithmetic.
use crate::model::{
    all_defined, apply_inputs, bal_legs, burn_base, burn_total, def_at, def_of, distinct_denoms,
    distinct_keys, fee_ceil, has_def, has_key, is_issuer_leg, key_at, key_match, ledger_credit,
    leg_burn, leg_commission, leg_contrib, legs_of, ni_contrib, nonneg, rates_wf, required_debit,
    share_of, step_input, sum_amt, sum_ni, upd_amount, val_of, Ctx, LegV,
};
use crate::types::{BalanceV, RATE_SCALE};
use vstd::arithmetic::div_mod::{
    lemma_div_pos_is_pos, lemma_multiply_divide_le, lemma_multiply_divide_lt,
};
use vstd::arithmetic::mul::{lemma_mul_inequality, lemma_mul_nonnegative, lemma_mul_upper_bound};
use vstd::prelude::*;

verus! {

pub proof fn lemma_sum_take_succ(l: Seq<LegV>, i: int, d: Seq<char>)
    requires
        0 <= i < l.len(),
    ensures
        sum_amt(l.take(i + 1), d) == sum_amt(l.take(i), d) + leg_contrib(l[i], d),
{
    assert(l.take(i + 1).drop_last() =~= l.take(i));
    assert(l.take(i + 1).last() == l[i]);
}

pub proof fn lemma_ni_take_succ(l: Seq<LegV>, i: int, d: Seq<char>, issuer: Seq<char>)
    requires
        0 <= i < l.len(),
    ensures
        sum_ni(l.take(i + 1), d, issuer) == sum_ni(l.take(i), d, issuer) + ni_contrib(
            l[i],
            d,
            issuer,
        ),
{
    assert(l.take(i + 1).drop_last() =~= l.take(i));
    assert(l.take(i + 1).last() == l[i]);
}

pub proof fn lemma_burn_take_succ(c: Ctx, l: Seq<LegV>, i: int, d: Seq<char>)
    requires
        0 <= i < l.len(),
    ensures
        burn_total(c, l.take(i + 1), d) == burn_total(c, l.take(i), d) + if l[i].denom == d {
            leg_burn(c, l[i])
        } else {
            0
        },
{
    assert(l.take(i + 1).drop_last() =~= l.take(i));
    assert(l.take(i + 1).last() == l[i]);
}

pub proof fn lemma_sum_update(l: Seq<LegV>, i: int, e: LegV, d: Seq<char>)
    requires
        0 <= i < l.len(),
    ensures
        sum_amt(l.update(i, e), d) == sum_amt(l, d) - leg_contrib(l[i], d) + leg_contrib(e, d),
    decreases l.len(),
{
    let lu = l.update(i, e);
    if i == l.len() - 1 {
        assert(lu.drop_last() =~= l.drop_last());
        assert(lu.last() == e);
    } else {
        assert(lu.drop_last() =~= l.drop_last().update(i, e));
        lemma_sum_update(l.drop_last(), i, e, d);
        assert(lu.last() == l.last());
    }
}

pub proof fn lemma_sum_push(l: Seq<LegV>, e: LegV, d: Seq<char>)
    ensures
        sum_amt(l.push(e), d) == sum_amt(l, d) + leg_contrib(e, d),
{
    assert(l.push(e).drop_last() =~= l);
    assert(l.push(e).last() == e);
}

pub proof fn lemma_sum_concat(x: Seq<LegV>, y: Seq<LegV>, d: Seq<char>)
    ensures
        sum_amt(x + y, d) == sum_amt(x, d) + sum_amt(y, d),
    decreases y.len(),
{
    if y.len() == 0 {
        assert(x + y =~= x);
    } else {
        assert((x + y).drop_last() =~= x + y.drop_last());
        assert((x + y).last() == y.last());
        lemma_sum_concat(x, y.drop_last(), d);
    }
}

pub proof fn lemma_sum_nonneg(l: Seq<LegV>, d: Seq<char>)
    requires
        nonneg(l),
    ensures
        sum_amt(l, d) >= 0,
    decreases l.len(),
{
    if l.len() > 0 {
        assert(nonneg(l.drop_last())) by {
            assert forall|k: int| 0 <= k < l.drop_last().len() implies l.drop_last()[k].amount
                >= 0 by {
                assert(l.drop_last()[k] == l[k]);
            }
        }
        lemma_sum_nonneg(l.drop_last(), d);
    }
}

pub proof fn lemma_sum_prefix_bounds(l: Seq<LegV>, i: int, d: Seq<char>)
    requires
        nonneg(l),
        0 <= i <= l.len(),
    ensures
        0 <= sum_amt(l.take(i), d) <= sum_amt(l, d),
{
    let pre = l.take(i);
    let post = l.skip(i);
    assert(nonneg(pre)) by {
        assert forall|k: int| 0 <= k < pre.len() implies pre[k].amount >= 0 by {
            assert(pre[k] == l[k]);
        }
    }
    assert(nonneg(post)) by {
        assert forall|k: int| 0 <= k < post.len() implies post[k].amount >= 0 by {
            assert(post[k] == l[k + i]);
        }
    }
    lemma_sum_nonneg(pre, d);
    lemma_sum_nonneg(post, d);
    assert(pre + post =~= l);
    lemma_sum_concat(pre, post, d);
}

pub proof fn lemma_entry_le_sum(l: Seq<LegV>, i: int)
    requires
        nonneg(l),
        0 <= i < l.len(),
    ensures
        l[i].amount <= sum_amt(l, l[i].denom),
    decreases l.len(),
{
    assert(nonneg(l.drop_last())) by {
        assert forall|k: int| 0 <= k < l.drop_last().len() implies l.drop_last()[k].amount >= 0 by {
            assert(l.drop_last()[k] == l[k]);
        }
    }
    if i == l.len() - 1 {
        lemma_sum_nonneg(l.drop_last(), l[i].denom);
    } else {
        lemma_entry_le_sum(l.drop_last(), i);
        assert(l.drop_last()[i] == l[i]);
    }
}

pub proof fn lemma_sum_absent_zero(l: Seq<LegV>, d: Seq<char>)
    requires
        forall|k: int| 0 <= k < l.len() ==> #[trigger] l[k].denom != d,
    ensures
        sum_amt(l, d) == 0,
    decreases l.len(),
{
    if l.len() > 0 {
        assert(forall|k: int|
            0 <= k < l.drop_last().len() ==> #[trigger] l.drop_last()[k].denom == l[k].denom);
        lemma_sum_absent_zero(l.drop_last(), d);
    }
}

pub proof fn lemma_ni_nonneg(l: Seq<LegV>, d: Seq<char>, issuer: Seq<char>)
    requires
        nonneg(l),
    ensures
        sum_ni(l, d, issuer) >= 0,
    decreases l.len(),
{
    if l.len() > 0 {
        assert(nonneg(l.drop_last())) by {
            assert forall|k: int| 0 <= k < l.drop_last().len() implies l.drop_last()[k].amount
                >= 0 by {
                assert(l.drop_last()[k] == l[k]);
            }
        }
        lemma_ni_nonneg(l.drop_last(), d, issuer);
    }
}

pub proof fn lemma_ni_le_sum(l: Seq<LegV>, d: Seq<char>, issuer: Seq<char>)
    requires
        nonneg(l),
    ensures
        sum_ni(l, d, issuer) <= sum_amt(l, d),
    decreases l.len(),
{
    if l.len() > 0 {
        assert(nonneg(l.drop_last())) by {
            assert forall|k: int| 0 <= k < l.drop_last().len() implies l.drop_last()[k].amount
                >= 0 by {
                assert(l.drop_last()[k] == l[k]);
            }
        }
        lemma_ni_le_sum(l.drop_last(), d, issuer);
    }
}

pub proof fn lemma_ni_prefix_bounds(l: Seq<LegV>, i: int, d: Seq<char>, issuer: Seq<char>)
    requires
        nonneg(l),
        0 <= i <= l.len(),
    ensures
        0 <= sum_ni(l.take(i), d, issuer) <= sum_amt(l, d),
{
    let pre = l.take(i);
    assert(nonneg(pre)) by {
        assert forall|k: int| 0 <= k < pre.len() implies pre[k].amount >= 0 by {
            assert(pre[k] == l[k]);
        }
    }
    lemma_ni_nonneg(pre, d, issuer);
    lemma_ni_le_sum(pre, d, issuer);
    lemma_sum_prefix_bounds(l, i, d);
}

/// With pairwise distinct keys, entry `i` is exactly the entry that the
/// keyed lookup finds.
pub proof fn lemma_key_at_unique(l: Seq<LegV>, i: int)
    requires
        distinct_keys(l),
        0 <= i < l.len(),
    ensures
        has_key(l, l[i].address, l[i].denom),
        key_at(l, l[i].address, l[i].denom) == i,
        val_of(l, l[i].address, l[i].denom) == l[i].amount,
{
    let a = l[i].address;
    let d = l[i].denom;
    assert(key_match(l[i], a, d));
    assert(has_key(l, a, d));
    let j = key_at(l, a, d);
    assert(0 <= j < l.len() && key_match(l[j], a, d));
    if j != i {
        if j < i {
            assert(!(l[j].address == l[i].address && l[j].denom == l[i].denom));
        } else {
            assert(!(l[i].address == l[j].address && l[i].denom == l[j].denom));
        }
        assert(false);
    }
}

/// With pairwise distinct catalog denominations, definition `i` is exactly
/// the definition that the lookup finds.
pub proof fn lemma_def_at_unique(defs: Seq<crate::types::DefV>, i: int)
    requires
        distinct_denoms(defs),
        0 <= i < defs.len(),
    ensures
        has_def(defs, defs[i].denom),
        def_at(defs, defs[i].denom) == i,
        def_of(defs, defs[i].denom) == defs[i],
{
    let d = defs[i].denom;
    assert(has_def(defs, d));
    let j = def_at(defs, d);
    assert(0 <= j < defs.len() && defs[j].denom == d);
    if j != i {
        if j < i {
            assert(defs[j].denom != defs[i].denom);
        } else {
            assert(defs[i].denom != defs[j].denom);
        }
        assert(false);
    }
}

pub proof fn lemma_legs_of_take_succ(bs: Seq<BalanceV>, i: int)
    requires
        0 <= i < bs.len(),
    ensures
        legs_of(bs.take(i + 1)) == legs_of(bs.take(i)) + bal_legs(bs[i]),
{
    assert(bs.take(i + 1).drop_last() =~= bs.take(i));
    assert(bs.take(i + 1).last() == bs[i]);
}

pub proof fn lemma_apply_inputs_take_succ(l: Seq<LegV>, c: Ctx, legs: Seq<LegV>, i: int)
    requires
        0 <= i < legs.len(),
    ensures
        apply_inputs(l, c, legs.take(i + 1)) == match apply_inputs(l, c, legs.take(i)) {
            None => None::<Seq<LegV>>,
            Some(m) => step_input(m, c, legs[i]),
        },
{
    assert(legs.take(i + 1).drop_last() =~= legs.take(i));
    assert(legs.take(i + 1).last() == legs[i]);
}

/// Once some input leg has failed, the whole input application fails.
pub proof fn lemma_apply_inputs_none_persists(l: Seq<LegV>, c: Ctx, legs: Seq<LegV>, i: int)
    requires
        0 <= i <= legs.len(),
        apply_inputs(l, c, legs.take(i)) is None,
    ensures
        apply_inputs(l, c, legs) is None,
    decreases legs.len() - i,
{
    if i == legs.len() {
        assert(legs.take(i) =~= legs);
    } else {
        lemma_apply_inputs_take_succ(l, c, legs, i);
        lemma_apply_inputs_none_persists(l, c, legs, i + 1);
    }
}

/// Overwriting an entry's amount keeps the keys, their distinctness and
/// their presence, and moves every per-denomination sum by the difference.
pub proof fn lemma_upd_amount_props(l: Seq<LegV>, i: int, v: int)
    requires
        0 <= i < l.len(),
    ensures
        upd_amount(l, i, v).len() == l.len(),
        forall|k: int|
            0 <= k < l.len() ==> {
                &&& (#[trigger] upd_amount(l, i, v)[k]).address == l[k].address
                &&& upd_amount(l, i, v)[k].denom == l[k].denom
                &&& upd_amount(l, i, v)[k].amount == if k == i {
                    v
                } else {
                    l[k].amount
                }
            },
        distinct_keys(l) ==> distinct_keys(upd_amount(l, i, v)),
        forall|a: Seq<char>, d: Seq<char>|
            #[trigger] has_key(upd_amount(l, i, v), a, d) == has_key(l, a, d),
        forall|d: Seq<char>|
            #[trigger] sum_amt(upd_amount(l, i, v), d) == sum_amt(l, d) + if l[i].denom == d {
                v - l[i].amount
            } else {
                0
            },
{
    let lu = upd_amount(l, i, v);
    assert forall|a: Seq<char>, d: Seq<char>| #[trigger] has_key(lu, a, d) == has_key(
        l,
        a,
        d,
    ) by {
        if has_key(l, a, d) {
            let k = key_at(l, a, d);
            assert(key_match(lu[k], a, d));
        }
        if has_key(lu, a, d) {
            let k = key_at(lu, a, d);
            assert(key_match(l[k], a, d));
        }
    }
    assert forall|d: Seq<char>| #[trigger] sum_amt(lu, d) == sum_amt(l, d) + (if l[i].denom == d {
        v - l[i].amount
    } else {
        0
    }) by {
        lemma_sum_update(l, i, LegV { address: l[i].address, denom: l[i].denom, amount: v }, d);
    }
}

/// Crediting `x` to `(a, d)` keeps distinctness, non-negativity (for a
/// non-negative `x`) and every present key, makes `(a, d)` present, and
/// raises the sum for `d` by exactly `x`.
pub proof fn lemma_credit_props(l: Seq<LegV>, a: Seq<char>, d: Seq<char>, x: int)
    requires
        distinct_keys(l),
        nonneg(l),
        x >= 0,
    ensures
        distinct_keys(ledger_credit(l, a, d, x)),
        nonneg(ledger_credit(l, a, d, x)),
        forall|a2: Seq<char>, d2: Seq<char>|
            has_key(l, a2, d2) ==> #[trigger] has_key(ledger_credit(l, a, d, x), a2, d2),
        has_key(ledger_credit(l, a, d, x), a, d),
        forall|dd: Seq<char>|
            #[trigger] sum_amt(ledger_credit(l, a, d, x), dd) == sum_amt(l, dd) + if d == dd {
                x
            } else {
                0
            },
{
    let lc = ledger_credit(l, a, d, x);
    if has_key(l, a, d) {
        let i = key_at(l, a, d);
        lemma_upd_amount_props(l, i, l[i].amount + x);
        assert(key_match(lc[i], a, d));
    } else {
        let e = LegV { address: a, denom: d, amount: x };
        assert(forall|k: int| 0 <= k < l.len() ==> #[trigger] lc[k] == l[k]);
        assert(distinct_keys(lc)) by {
            assert forall|p: int, q: int| 0 <= p < q < lc.len() implies !(lc[p].address
                == lc[q].address && lc[p].denom == lc[q].denom) by {
                if q == l.len() {
                    if lc[p].address == a && lc[p].denom == d {
                        assert(key_match(l[p], a, d));
                        assert(has_key(l, a, d));
                    }
                }
            }
        }
        assert forall|a2: Seq<char>, d2: Seq<char>| has_key(l, a2, d2) implies #[trigger] has_key(
            lc,
            a2,
            d2,
        ) by {
            let k = key_at(l, a2, d2);
            assert(key_match(lc[k], a2, d2));
        }
        assert(key_match(lc[l.len() as int], a, d));
        assert forall|dd: Seq<char>| #[trigger] sum_amt(lc, dd) == sum_amt(l, dd) + (if d == dd {
            x
        } else {
            0
        }) by {
            lemma_sum_push(l, e, dd);
        }
    }
}

/// The proportional base of a leg lies between zero and the leg's amount.
pub proof fn lemma_share_bounds(amount: int, base: int, total: int)
    requires
        0 <= amount,
        0 <= base <= total,
        0 < total,
    ensures
        0 <= amount * base / total <= amount,
{
    lemma_mul_nonnegative(amount, base);
    lemma_div_pos_is_pos(amount * base, total);
    lemma_mul_inequality(base, total, amount);
    assert(base * amount <= total * amount);
    assert(amount * base == base * amount) by (nonlinear_arith);
    assert(amount * total == total * amount) by (nonlinear_arith);
    lemma_multiply_divide_le(amount * base, total, amount);
}

/// A rounded-up fee at a rate of at most one lies between zero and the share
/// it is charged on, and the rounding matches the ceiling of the exact
/// product.
pub proof fn lemma_fee_bounds(share: int, ppm: int)
    requires
        0 <= share,
        0 <= ppm <= RATE_SCALE,
    ensures
        0 <= fee_ceil(share, ppm) <= share,
{
    let scale = RATE_SCALE as int;
    lemma_mul_nonnegative(share, ppm);
    lemma_div_pos_is_pos(share * ppm + (scale - 1), scale);
    lemma_mul_inequality(ppm, scale, share);
    assert(ppm * share <= scale * share);
    assert(share * ppm == ppm * share) by (nonlinear_arith);
    assert(scale * (share + 1) == scale * share + scale) by (nonlinear_arith);
    assert(share * ppm + (scale - 1) < scale * (share + 1));
    lemma_multiply_divide_lt(share * ppm + (scale - 1), scale, share + 1);
}

/// Both fees of an input leg lie between zero and the leg's amount, so the
/// required debit lies between the amount and three times the amount.
pub proof fn lemma_leg_fee_bounds(c: Ctx, leg: LegV)
    requires
        nonneg(c.ins),
        nonneg(c.outs),
        rates_wf(c.defs),
        has_def(c.defs, leg.denom),
        0 <= leg.amount,
        sum_amt(c.ins, leg.denom) > 0,
    ensures
        0 <= leg_burn(c, leg) <= leg.amount,
        0 <= leg_commission(c, leg) <= leg.amount,
        leg.amount <= required_debit(c, leg) <= 3 * leg.amount,
{
    if !is_issuer_leg(c, leg) {
        let d = leg.denom;
        let issuer = def_of(c.defs, d).issuer;
        let tin = sum_amt(c.ins, d);
        lemma_ni_nonneg(c.ins, d, issuer);
        lemma_ni_nonneg(c.outs, d, issuer);
        lemma_ni_le_sum(c.ins, d, issuer);
        assert(0 <= burn_base(c, d) <= tin);
        lemma_share_bounds(leg.amount, burn_base(c, d), tin);
        let j = def_at(c.defs, d);
        assert(0 <= j < c.defs.len() && c.defs[j].denom == d);
        lemma_fee_bounds(share_of(c, leg), def_of(c.defs, d).burn_ppm);
        lemma_fee_bounds(share_of(c, leg), def_of(c.defs, d).commission_ppm);
    }
}

/// The total burnt for any denomination is non-negative.
pub proof fn lemma_burn_total_nonneg(c: Ctx, legs: Seq<LegV>, d: Seq<char>)
    requires
        nonneg(c.ins),
        nonneg(c.outs),
        rates_wf(c.defs),
        all_defined(c.defs, legs),
        nonneg(legs),
        forall|k: int| 0 <= k < legs.len() ==> sum_amt(c.ins, #[trigger] legs[k].denom) > 0,
    ensures
        burn_total(c, legs, d) >= 0,
    decreases legs.len(),
{
    if legs.len() > 0 {
        let dl = legs.drop_last();
        assert(forall|k: int| 0 <= k < dl.len() ==> #[trigger] dl[k] == legs[k]);
        lemma_burn_total_nonneg(c, dl, d);
        if legs.last().denom == d {
            assert(legs.last() == legs[legs.len() - 1]);
            lemma_leg_fee_bounds(c, legs.last());
        }
    }
}

/// `lemma_burn_total_nonneg`, specialised to a prefix of the input legs.
pub proof fn lemma_burn_total_prefix_nonneg(c: Ctx, i: int, d: Seq<char>)
    requires
        nonneg(c.ins),
        nonneg(c.outs),
        rates_wf(c.defs),
        all_defined(c.defs, c.ins),
        forall|k: int| 0 <= k < c.ins.len() ==> sum_amt(c.ins, #[trigger] c.ins[k].denom) > 0,
        0 <= i <= c.ins.len(),
    ensures
        burn_total(c, c.ins.take(i), d) >= 0,
{
    let p = c.ins.take(i);
    assert(forall|k: int| 0 <= k < p.len() ==> #[trigger] p[k] == c.ins[k]);
    assert(nonneg(p));
    assert(all_defined(c.defs, p)) by {
        assert forall|k: int| 0 <= k < p.len() implies has_def(c.defs, #[trigger] p[k].denom) by {
            assert(p[k].denom == c.ins[k].denom);
        }
    }
    assert forall|k: int| 0 <= k < p.len() implies sum_amt(c.ins, #[trigger] p[k].denom) > 0 by {
        assert(p[k].denom == c.ins[k].denom);
    }
    lemma_burn_total_nonneg(c, p, d);
}


/// From a strictly increasing index witness into a distinct-keyed ledger,
/// the gathered coins of one address are exactly that address's entries.
#[verifier::rlimit(30)]
pub proof fn lemma_gather_post(
    f: Seq<LegV>,
    s: Seq<LegV>,
    av: Seq<char>,
    k: int,
    idxs: Seq<int>,
    cs: Seq<crate::types::CoinV>,
)
    requires
        distinct_keys(f),
        0 <= k,
        idxs.len() == cs.len(),
        forall|p: int| 0 <= p < idxs.len() ==> k <= #[trigger] idxs[p] < f.len(),
        forall|p: int, q: int| 0 <= p < q < idxs.len() ==> idxs[p] < idxs[q],
        forall|p: int|
            0 <= p < idxs.len() ==> {
                &&& f[#[trigger] idxs[p]].address == av
                &&& cs[p].denom == f[idxs[p]].denom
                &&& cs[p].amount == f[idxs[p]].amount - val_of(s, av, f[idxs[p]].denom)
            },
        forall|k3: int|
            k <= k3 < f.len() && (#[trigger] f[k3]).address == av ==> exists|p: int|
                0 <= p < idxs.len() && idxs[p] == k3,
    ensures
        forall|p: int|
            0 <= p < cs.len() ==> {
                &&& has_key(f, av, (#[trigger] cs[p]).denom)
                &&& cs[p].amount == val_of(f, av, cs[p].denom) - val_of(s, av, cs[p].denom)
            },
        forall|k3: int|
            k <= k3 < f.len() && (#[trigger] f[k3]).address == av ==> exists|p: int|
                0 <= p < cs.len() && cs[p].denom == f[k3].denom,
        forall|p: int, q: int|
            0 <= p < q < cs.len() ==> (#[trigger] cs[p]).denom != (#[trigger] cs[q]).denom,
{
    assert forall|p: int| 0 <= p < cs.len() implies has_key(f, av, (#[trigger] cs[p]).denom)
        && cs[p].amount == val_of(f, av, cs[p].denom) - val_of(s, av, cs[p].denom) by {
        lemma_key_at_unique(f, idxs[p]);
    }
    assert forall|k3: int| k <= k3 < f.len() && (#[trigger] f[k3]).address == av implies exists|
        p: int,
    | 0 <= p < cs.len() && cs[p].denom == f[k3].denom by {
        let pw = choose|p: int| 0 <= p < idxs.len() && idxs[p] == k3;
        assert(0 <= pw < cs.len() && cs[pw].denom == f[k3].denom);
        assert(exists|p: int| 0 <= p < cs.len() && cs[p].denom == f[k3].denom);
    }
    assert forall|p: int, q: int| 0 <= p < q < cs.len() implies (#[trigger] cs[p]).denom
        != (#[trigger] cs[q]).denom by {
        assert(idxs[p] < idxs[q]);
        assert(!(f[idxs[p]].address == f[idxs[q]].address && f[idxs[p]].denom == f[idxs[q]].denom));
    }
}


pub proof fn lemma_listed_push(rv: Seq<BalanceV>, b: BalanceV, a: Seq<char>)
    ensures
        crate::model::listed(rv.push(b), a) == (crate::model::listed(rv, a) || b.address == a),
{
    if crate::model::listed(rv, a) {
        let i = choose|i: int| 0 <= i < rv.len() && rv[i].address == a;
        assert(rv.push(b)[i].address == a);
    }
    if b.address == a {
        assert(rv.push(b)[rv.len() as int].address == a);
    }
    if crate::model::listed(rv.push(b), a) {
        let i = choose|i: int| 0 <= i < rv.push(b).len() && rv.push(b)[i].address == a;
        if i < rv.len() {
            assert(rv[i].address == a);
        }
    }
}

pub proof fn lemma_addr_before_succ(f: Seq<LegV>, k: int, a: Seq<char>)
    requires
        0 <= k < f.len(),
    ensures
        crate::model::addr_before(f, k + 1, a) == (crate::model::addr_before(f, k, a)
            || f[k].address == a),
{
    if crate::model::addr_before(f, k, a) {
        let i = choose|i: int| 0 <= i < k && i < f.len() && f[i].address == a;
        assert(0 <= i < k + 1 && i < f.len() && f[i].address == a);
    }
    if f[k].address == a {
        assert(0 <= k < k + 1 && k < f.len() && f[k].address == a);
    }
    if crate::model::addr_before(f, k + 1, a) {
        let i = choose|i: int| 0 <= i < k + 1 && i < f.len() && f[i].address == a;
        if i < k {
            assert(crate::model::addr_before(f, k, a));
        }
    }
}

pub proof fn lemma_addr_before_all(f: Seq<LegV>, a: Seq<char>)
    ensures
        crate::model::addr_before(f, f.len() as int, a) == crate::model::has_addr(f, a),
{
    if crate::model::addr_before(f, f.len() as int, a) {
        let i = choose|i: int| 0 <= i < f.len() && i < f.len() && f[i].address == a;
        assert(0 <= i < f.len() && f[i].address == a);
    }
    if crate::model::has_addr(f, a) {
        let i = choose|i: int| 0 <= i < f.len() && f[i].address == a;
        assert(0 <= i < f.len() as int && i < f.len() && f[i].address == a);
    }
}

} // verus!
