//! Data model: coins, balances, denomination definitions, transfers, and the
//! rejection reasons, together with their mathematical views.
use vstd::prelude::*;
use vstd::string::StringExecFns;

verus! {

/// Fee rates are fixed-point fractions with this denominator: a `Rate` with
/// `ppm == RATE_SCALE` is the rate 1, `ppm == 0` the rate 0.
pub const RATE_SCALE: u32 = 1_000_000;

/// An amount of one denomination.
#[derive(Debug, Clone)]
pub struct Coin {
    pub denom: String,
    pub amount: i128,
}

/// Mathematical view of a `Coin`.
pub ghost struct CoinV {
    pub denom: Seq<char>,
    pub amount: int,
}

impl View for Coin {
    type V = CoinV;

    open spec fn view(&self) -> CoinV {
        CoinV { denom: self.denom@, amount: self.amount as int }
    }
}

/// Coins are equal when both the denomination and the amount agree.
pub open spec fn coin_eq(a: CoinV, b: CoinV) -> bool {
    a.denom == b.denom && a.amount == b.amount
}

impl PartialEq for Coin {
    fn eq(&self, other: &Self) -> (r: bool) {
        self.denom == other.denom && self.amount == other.amount
    }
}

impl vstd::std_specs::cmp::PartialEqSpecImpl for Coin {
    open spec fn obeys_eq_spec() -> bool {
        true
    }

    open spec fn eq_spec(&self, other: &Self) -> bool {
        coin_eq(self@, other@)
    }
}

/// An account's holdings: one list entry per denomination.
#[derive(Debug, Clone)]
pub struct Balance {
    pub address: String,
    pub coins: Vec<Coin>,
}

/// Mathematical view of a `Balance`.
pub ghost struct BalanceV {
    pub address: Seq<char>,
    pub coins: Seq<CoinV>,
}

pub open spec fn coins_v(s: Seq<Coin>) -> Seq<CoinV> {
    s.map_values(|c: Coin| c@)
}

impl View for Balance {
    type V = BalanceV;

    open spec fn view(&self) -> BalanceV {
        BalanceV { address: self.address@, coins: coins_v(self.coins@) }
    }
}

/// Balances match when the addresses agree and some coin of one equals some
/// coin of the other. This deliberately loose relation mirrors how expected
/// outcomes are compared: it does not demand that the full coin lists agree.
pub open spec fn balance_matches(a: BalanceV, b: BalanceV) -> bool {
    a.address == b.address && exists|i: int, j: int|
        0 <= i < a.coins.len() && 0 <= j < b.coins.len() && coin_eq(a.coins[i], b.coins[j])
}

impl PartialEq for Balance {
    fn eq(&self, other: &Self) -> (r: bool) {
        if !(self.address == other.address) {
            return false;
        }
        let n: usize = self.coins.len();
        let m: usize = other.coins.len();
        let mut i: usize = 0;
        while i < n
            invariant
                i <= n,
                forall|p: int, q: int|
                    0 <= p < i && 0 <= q < m ==> !coin_eq(self@.coins[p], other@.coins[q]),
            decreases n - i,
        {
            let mut j: usize = 0;
            while j < m
                invariant
                    j <= m,
                    i < n,
                    forall|q: int| 0 <= q < j ==> !coin_eq(self@.coins[i as int], other@.coins[q]),
                decreases m - j,
            {
                if self.coins[i] == other.coins[j] {
                    proof {
                        assert(coin_eq(self@.coins[i as int], other@.coins[j as int]));
                    }
                    return true;
                }
                j = j + 1;
            }
            i = i + 1;
        }
        false
    }
}

impl vstd::std_specs::cmp::PartialEqSpecImpl for Balance {
    open spec fn obeys_eq_spec() -> bool {
        true
    }

    open spec fn eq_spec(&self, other: &Self) -> bool {
        balance_matches(self@, other@)
    }
}

/// A fee rate in `[0, 1]`, held as a fixed-point fraction of `RATE_SCALE`.
#[derive(Debug, Clone, Copy)]
pub struct Rate {
    pub ppm: u32,
}

impl Rate {
    /// A rate is well formed when it does not exceed 1.
    pub open spec fn wf(self) -> bool {
        self.ppm <= RATE_SCALE
    }

    pub fn from_ppm(ppm: u32) -> (r: Rate)
        requires
            ppm <= RATE_SCALE,
        ensures
            r.ppm == ppm,
            r.wf(),
    {
        Rate { ppm }
    }
}

/// Fee policy for one denomination: the issuer is fee-exempt, every other
/// sender owes burn and commission on top of the transferred amount.
#[derive(Debug, Clone)]
pub struct DenomDefinition {
    pub denom: String,
    pub issuer: String,
    pub burn_rate: Rate,
    pub commission_rate: Rate,
}

/// Mathematical view of a `DenomDefinition`.
pub ghost struct DefV {
    pub denom: Seq<char>,
    pub issuer: Seq<char>,
    pub burn_ppm: int,
    pub commission_ppm: int,
}

impl View for DenomDefinition {
    type V = DefV;

    open spec fn view(&self) -> DefV {
        DefV {
            denom: self.denom@,
            issuer: self.issuer@,
            burn_ppm: self.burn_rate.ppm as int,
            commission_ppm: self.commission_rate.ppm as int,
        }
    }
}

/// A proposed transfer: a list of input debits and output credits, each a
/// single accounting leg per coin, not a merged total.
#[derive(Debug)]
pub struct MultiSend {
    pub inputs: Vec<Balance>,
    pub outputs: Vec<Balance>,
}

/// The reasons a transfer is rejected. Every rejection is terminal: no
/// deltas are produced and nothing is applied.
#[derive(Debug, Clone, Copy, PartialEq, Eq, Structural)]
pub enum TransferError {
    /// A transfer leg references a denomination absent from the catalog.
    UndefinedDenomination,
    /// Summed inputs and outputs disagree for some denomination.
    ImbalancedTransfer,
    /// A sender's required debit (amount plus fees) exceeds its ledger entry,
    /// or the sender has no ledger entry for that denomination at all.
    InsufficientBalance,
}

pub fn coin(denom: &str, amount: i128) -> (c: Coin)
    ensures
        c@.denom == denom@,
        c@.amount == amount as int,
{
    Coin { denom: String::from_str(denom), amount }
}

pub fn balance(address: &str, coins: Vec<Coin>) -> (b: Balance)
    ensures
        b@.address == address@,
        b@.coins == coins_v(coins@),
{
    Balance { address: String::from_str(address), coins }
}

pub fn denom_definition(denom: &str, issuer: &str, burn_rate: Rate, commission_rate: Rate) -> (d:
    DenomDefinition)
    ensures
        d@.denom == denom@,
        d@.issuer == issuer@,
        d@.burn_ppm == burn_rate.ppm as int,
        d@.commission_ppm == commission_rate.ppm as int,
{
    DenomDefinition {
        denom: String::from_str(denom),
        issuer: String::from_str(issuer),
        burn_rate,
        commission_rate,
    }
}

} // verus!
