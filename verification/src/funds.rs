//! Attached funds: checking and deducting payments.
//!
//! A buyer attaches a list of coins to a purchase call.  The transport
//! layer normalizes the list, so each currency appears at most once.

use vstd::prelude::*;

use crate::types::Coin;

verus! {

/// Whether the list holds at least this amount of this currency.
pub open spec fn spec_has_coins(funds: Seq<Coin>, denom: Seq<char>, amount: int) -> bool {
    exists|i: int|
        0 <= i < funds.len() && (#[trigger] funds[i].denom)@ == denom && funds[i].amount >= amount
}

/// Each currency appears at most once.
pub open spec fn coins_normalized(funds: Seq<Coin>) -> bool {
    forall|i: int, j: int|
        0 <= i < funds.len() && 0 <= j < funds.len() && i != j ==> (#[trigger] funds[i].denom)@ != (
        #[trigger] funds[j].denom)@
}

/// The position of this currency's coin; meaningful only when present.
pub open spec fn denom_index(funds: Seq<Coin>, denom: Seq<char>) -> int {
    choose|i: int| 0 <= i < funds.len() && (#[trigger] funds[i].denom)@ == denom
}

/// The list after paying this amount out of its coin of this currency.
pub open spec fn spec_deduct(funds: Seq<Coin>, denom: Seq<char>, amount: int) -> Seq<Coin> {
    let i = denom_index(funds, denom);
    funds.update(
        i,
        Coin { denom: funds[i].denom, amount: (funds[i].amount - amount) as u128 },
    )
}

/// Checks whether the list holds at least this amount of this currency.
pub fn has_coins(funds: &Vec<Coin>, denom: &String, amount: u128) -> (r: bool)
    ensures
        r == spec_has_coins(funds@, denom@, amount as int),
{
    let n = funds.len();
    for i in 0..n
        invariant
            n == funds@.len(),
            forall|j: int|
                0 <= j < i ==> !((#[trigger] funds@[j].denom)@ == denom@ && funds@[j].amount
                    >= amount),
    {
        if funds[i].denom == *denom && funds[i].amount >= amount {
            return true;
        }
    }
    false
}

/// An exact copy of a coin list.
pub fn copy_coins(funds: &Vec<Coin>) -> (r: Vec<Coin>)
    ensures
        r@ == funds@,
{
    let n = funds.len();
    let mut r: Vec<Coin> = Vec::new();
    for i in 0..n
        invariant
            n == funds@.len(),
            r@ =~= funds@.take(i as int),
    {
        r.push(funds[i].duplicate());
        proof {
            assert(r@ =~= funds@.take(i + 1));
        }
    }
    proof {
        assert(funds@.take(n as int) =~= funds@);
    }
    r
}

/// Copies the list with this amount paid out of its coin of this currency.
pub fn deduct_funds(funds: &Vec<Coin>, denom: &String, amount: u128) -> (r: Vec<Coin>)
    requires
        coins_normalized(funds@),
        spec_has_coins(funds@, denom@, amount as int),
    ensures
        r@ == spec_deduct(funds@, denom@, amount as int),
{
    let mut r = copy_coins(funds);
    let n = r.len();
    let ghost di = denom_index(funds@, denom@);
    proof {
        assert(0 <= di < funds@.len() && funds@[di].denom@ == denom@);
        // Normalization: the coin that covers the amount is the coin at
        // the chosen index.
        let w = choose|w: int|
            0 <= w < funds@.len() && (#[trigger] funds@[w].denom)@ == denom@ && funds@[w].amount
                >= amount;
        if w != di {
            assert(funds@[w].denom@ != funds@[di].denom@);
        }
        assert(funds@[di].amount >= amount);
    }
    let mut i: usize = 0;
    while i < n
        invariant
            n == r@.len(),
            i <= n,
            r@ == funds@,
            coins_normalized(funds@),
            di == denom_index(funds@, denom@),
            0 <= di < funds@.len(),
            funds@[di].denom@ == denom@,
            funds@[di].amount >= amount,
            forall|j: int| 0 <= j < i ==> (#[trigger] funds@[j].denom)@ != denom@,
        decreases n - i,
    {
        if r[i].denom == *denom {
            proof {
                if i != di {
                    assert(funds@[i as int].denom@ != funds@[di].denom@);
                }
            }
            let reduced = Coin { denom: r[i].denom.clone(), amount: r[i].amount - amount };
            r.set(i, reduced);
            proof {
                assert(r@ =~= spec_deduct(funds@, denom@, amount as int));
            }
            return r;
        }
        i = i + 1;
    }
    proof {
        // Unreachable: the coin of this currency is in the list.
        assert(funds@[di].denom@ != denom@);
        assert(false);
    }
    r
}

} // verus!
