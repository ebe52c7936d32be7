//! Reserving units: the buyer-facing purchase operations.
//!
//! A purchase call reserves tokens from the inventory against the funds the
//! buyer attached, appends one purchase record per unit to the buyer's
//! ledger entry, and accrues the proceeds.  The rates collaborator is
//! consulted once per call, by the caller, and its answer applies uniformly
//! to every unit reserved in that call.

use vstd::prelude::*;

use crate::contract::Crowdfund;
use crate::contract::Totals;
use crate::error::ContractError;
use crate::funds::has_coins;
use crate::funds::spec_has_coins;
use crate::funds::coins_normalized;
use crate::funds::spec_deduct;
use crate::inventory::Inventory;
use crate::keys::key_lt;
use crate::keys::lemma_key_lt_irrefl;
use crate::keys::lemma_key_lt_trans;
use crate::ledger::buyer_records;
use crate::ledger::entry_at;
use crate::ledger::entry_keys;
use crate::ledger::has_entry;
use crate::ledger::ledger_wf;
use crate::ledger::lemma_records_insert;
use crate::ledger::lemma_records_mid;
use crate::ledger::lemma_records_split;
use crate::ledger::lemma_sum_p_concat;
use crate::ledger::lemma_sum_p_constant;
use crate::ledger::lemma_sum_p_split;
use crate::ledger::lemma_splice_sums;
use crate::ledger::records;
use crate::ledger::refund_of;
use crate::ledger::remainder_of;
use crate::ledger::fee_of;
use crate::ledger::sum_p;
use crate::ledger::LedgerEntry;
use crate::ledger::Purchase;
use crate::state::State;
use crate::types::block_le;
use crate::types::BlockInfo;
use crate::types::Coin;
use crate::types::PurchaseResponse;
use crate::types::FeeMsg;
use crate::types::RateInfo;

verus! {

/// The fee payloads of a run of fee instructions.
pub open spec fn fee_views(s: Seq<FeeMsg>) -> Seq<Seq<u8>> {
    s.map_values(|f: FeeMsg| f.payload@)
}

/// An exact copy of a byte string.
pub(crate) fn copy_bytes(v: &Vec<u8>) -> (r: Vec<u8>)
    ensures
        r@ == v@,
{
    let n = v.len();
    let mut r: Vec<u8> = Vec::new();
    for i in 0..n
        invariant
            n == v@.len(),
            r@ =~= v@.take(i as int),
    {
        r.push(v[i]);
        proof {
            assert(r@ =~= v@.take(i + 1));
        }
    }
    proof {
        assert(v@.take(n as int) =~= v@);
    }
    r
}

/// A copy of a run of fee instructions, payload for payload.
fn copy_fee_msgs(v: &Vec<FeeMsg>) -> (r: Vec<FeeMsg>)
    ensures
        fee_views(r@) == fee_views(v@),
{
    let n = v.len();
    let mut r: Vec<FeeMsg> = Vec::new();
    for i in 0..n
        invariant
            n == v@.len(),
            fee_views(r@) =~= fee_views(v@).take(i as int),
    {
        let ghost prev = r@;
        r.push(FeeMsg { payload: copy_bytes(&v[i].payload) });
        proof {
            crate::seqs::lemma_map_values_push(prev, |f: FeeMsg| f.payload@, r@.last());
            crate::seqs::lemma_take_succ(fee_views(v@), i as int);
            assert(fee_views(r@) =~= fee_views(v@).take(i + 1));
        }
    }
    proof {
        assert(fee_views(v@).take(n as int) =~= fee_views(v@));
    }
    r
}

/// Reserves the named tokens for the sender.
///
/// Checks that there is anything to reserve and that the attached funds
/// cover price and tax for every unit, then moves each token out of the
/// inventory into a new purchase record appended to `purchases`, and
/// accrues the sold count and the payout share.  Returns the required
/// payment.  On an error nothing has changed.
pub fn purchase_tokens(
    inventory: &mut Inventory,
    state: &mut State,
    purchases: &mut Vec<Purchase>,
    token_ids: Vec<String>,
    sender: &String,
    funds: &Vec<Coin>,
    rates: &RateInfo,
) -> (r: Result<Coin, ContractError>)
    requires
        old(inventory).wf(),
        forall|j: int| 0 <= j < token_ids@.len() ==> old(inventory)@.contains(
            (#[trigger] token_ids@[j])@,
        ),
        forall|j: int, l: int|
            0 <= j < token_ids@.len() && 0 <= l < token_ids@.len() && j != l ==> (
            #[trigger] token_ids@[j])@ != (#[trigger] token_ids@[l])@,
        rates.remaining_amount <= old(state).price.amount,
        (old(state).price.amount + rates.tax_amount) * token_ids@.len() <= u128::MAX,
        old(state).amount_sold + token_ids@.len() <= u128::MAX,
        old(state).amount_to_send + rates.remaining_amount * token_ids@.len() <= u128::MAX,
    ensures
        final(inventory).wf(),
        r is Err ==> *final(inventory) == *old(inventory) && *final(state) == *old(state)
            && final(purchases)@ == old(purchases)@,
        token_ids@.len() == 0 ==> r == Result::<Coin, ContractError>::Err(
            ContractError::AllTokensPurchased,
        ),
        token_ids@.len() > 0 && !spec_has_coins(
            funds@,
            old(state).price.denom@,
            (old(state).price.amount + rates.tax_amount) * token_ids@.len(),
        ) ==> r == Result::<Coin, ContractError>::Err(ContractError::InsufficientFunds),
        r is Ok <==> (token_ids@.len() > 0 && spec_has_coins(
            funds@,
            old(state).price.denom@,
            (old(state).price.amount + rates.tax_amount) * token_ids@.len(),
        )),
        r is Ok ==> {
            let k = token_ids@.len() as int;
            let price = old(state).price.amount as int;
            let tax = rates.tax_amount as int;
            &&& r->Ok_0.denom == old(state).price.denom
            &&& r->Ok_0.amount == (price + tax) * k
            &&& final(purchases)@.len() == old(purchases)@.len() + k
            &&& final(purchases)@.take(old(purchases)@.len() as int) == old(purchases)@
            &&& forall|j: int|
                old(purchases)@.len() <= j < final(purchases)@.len() ==> {
                    let p = #[trigger] final(purchases)@[j];
                    &&& p.token_id == token_ids@[j - old(purchases)@.len()]
                    &&& p.tax_amount == rates.tax_amount
                    &&& p.purchaser@ == sender@
                    &&& p.remainder@ == rates.remaining_amount
                    &&& fee_views(p.msgs@) == fee_views(rates.msgs@)
                }
            &&& forall|key: Seq<char>|
                final(inventory)@.contains(key) <==> (old(inventory)@.contains(key) && !exists|
                    j: int,
                |
                    0 <= j < token_ids@.len() && (#[trigger] token_ids@[j])@ == key)
            &&& final(inventory)@.len() == old(inventory)@.len() - k
            &&& final(state).amount_sold == old(state).amount_sold + k
            &&& final(state).amount_to_send == old(state).amount_to_send
                + rates.remaining_amount * k
            &&& final(state).price == old(state).price
            &&& final(state).expiration == old(state).expiration
            &&& final(state).min_tokens_sold == old(state).min_tokens_sold
            &&& final(state).max_amount_per_wallet == old(state).max_amount_per_wallet
            &&& final(state).amount_transferred == old(state).amount_transferred
            &&& final(state).recipient == old(state).recipient
        },
{
    if token_ids.len() == 0 {
        return Err(ContractError::AllTokensPurchased);
    }
    let count = token_ids.len();
    let count_u128 = count as u128;
    proof {
        assert((state.price.amount + rates.tax_amount) * 1 <= (state.price.amount
            + rates.tax_amount) * count_u128) by (nonlinear_arith)
            requires
                1 <= count_u128,
                0 <= state.price.amount + rates.tax_amount,
        ;
    }
    let unit_cost = state.price.amount + rates.tax_amount;
    let required_amount = unit_cost * count_u128;
    if !has_coins(funds, &state.price.denom, required_amount) {
        return Err(ContractError::InsufficientFunds);
    }
    let required = Coin { denom: state.price.denom.clone(), amount: required_amount };
    let ghost orig_ids = token_ids@;
    let ghost inv0 = old(inventory)@;
    let ghost p0 = old(purchases)@;
    let ghost s0 = *old(state);
    let mut ids = token_ids;
    let mut i: usize = 0;
    while i < count
        invariant
            i <= count,
            count == orig_ids.len(),
            ids@ == orig_ids.skip(i as int),
            inventory.wf(),
            rates.remaining_amount <= s0.price.amount,
            s0.amount_sold + count <= u128::MAX,
            s0.amount_to_send + rates.remaining_amount * count <= u128::MAX,
            forall|j: int, l: int|
                0 <= j < orig_ids.len() && 0 <= l < orig_ids.len() && j != l ==> (
                #[trigger] orig_ids[j])@ != (#[trigger] orig_ids[l])@,
            forall|j: int| i <= j < orig_ids.len() ==> inventory@.contains(
                (#[trigger] orig_ids[j])@,
            ),
            forall|key: Seq<char>| inventory@.contains(key) ==> inv0.contains(key),
            forall|j: int| 0 <= j < i ==> !inventory@.contains((#[trigger] orig_ids[j])@),
            forall|key: Seq<char>|
                inv0.contains(key) && !inventory@.contains(key) ==> exists|j: int|
                    0 <= j < i && (#[trigger] orig_ids[j])@ == key,
            inventory@.len() == inv0.len() - i,
            purchases@.len() == p0.len() + i,
            purchases@.take(p0.len() as int) == p0,
            forall|j: int|
                p0.len() <= j < purchases@.len() ==> {
                    let p = #[trigger] purchases@[j];
                    &&& p.token_id == orig_ids[j - p0.len()]
                    &&& p.tax_amount == rates.tax_amount
                    &&& p.purchaser@ == sender@
                    &&& p.remainder@ == rates.remaining_amount
                    &&& fee_views(p.msgs@) == fee_views(rates.msgs@)
                },
            state.amount_sold == s0.amount_sold + i,
            state.amount_to_send == s0.amount_to_send + rates.remaining_amount * i,
            state.price == s0.price,
            state.expiration == s0.expiration,
            state.min_tokens_sold == s0.min_tokens_sold,
            state.max_amount_per_wallet == s0.max_amount_per_wallet,
            state.amount_transferred == s0.amount_transferred,
            state.recipient == s0.recipient,
        decreases count - i,
    {
        let id = ids.remove(0);
        proof {
            assert(id == orig_ids[i as int]);
            assert(ids@ =~= orig_ids.skip(i + 1));
        }
        let ghost inv_pre = inventory@;
        let found = inventory.remove_id(&id);
        proof {
            assert(found);
            assert forall|j: int| 0 <= j < i + 1 implies !inventory@.contains(
                (#[trigger] orig_ids[j])@,
            ) by {
                if j < i {
                    assert(!inv_pre.contains(orig_ids[j]@));
                }
            }
            assert forall|key: Seq<char>|
                inv0.contains(key) && !inventory@.contains(key) implies exists|j: int|
                    0 <= j < i + 1 && (#[trigger] orig_ids[j])@ == key by {
                if key == id@ {
                    assert(0 <= i < i + 1 && orig_ids[i as int]@ == key);
                } else if inv_pre.contains(key) {
                    assert(inventory@.contains(key));
                } else {
                    let j = choose|j: int| 0 <= j < i && (#[trigger] orig_ids[j])@ == key;
                    assert(0 <= j < i + 1 && orig_ids[j]@ == key);
                }
            }
            assert forall|j: int| i + 1 <= j < orig_ids.len() implies inventory@.contains(
                (#[trigger] orig_ids[j])@,
            ) by {
                assert(inv_pre.contains(orig_ids[j]@));
                assert(orig_ids[j]@ != id@);
            }
        }
        let purchase = Purchase {
            token_id: id,
            tax_amount: rates.tax_amount,
            msgs: copy_fee_msgs(&rates.msgs),
            purchaser: sender.clone(),
            remainder: Ghost(rates.remaining_amount),
        };
        purchases.push(purchase);
        proof {
            assert(purchases@.take(p0.len() as int) =~= p0);
        }
        state.amount_sold = state.amount_sold + 1;
        proof {
            lemma_mul_step(rates.remaining_amount as int, i as int, count as int);
        }
        state.amount_to_send = state.amount_to_send + rates.remaining_amount;
        i = i + 1;
    }
    proof {
        assert(ids@ =~= orig_ids.skip(count as int));
        assert forall|key: Seq<char>|
            inventory@.contains(key) <==> (inv0.contains(key) && !exists|j: int|
                0 <= j < orig_ids.len() && (#[trigger] orig_ids[j])@ == key) by {
            if inventory@.contains(key) {
                assert(inv0.contains(key));
                if exists|j: int| 0 <= j < orig_ids.len() && (#[trigger] orig_ids[j])@ == key {
                    let j = choose|j: int|
                        0 <= j < orig_ids.len() && (#[trigger] orig_ids[j])@ == key;
                    assert(!inventory@.contains(orig_ids[j]@));
                }
            }
            if inv0.contains(key) && !exists|j: int|
                0 <= j < orig_ids.len() && (#[trigger] orig_ids[j])@ == key {
                if !inventory@.contains(key) {
                    let j = choose|j: int| 0 <= j < count && (#[trigger] orig_ids[j])@ == key;
                    assert(0 <= j < orig_ids.len() && orig_ids[j]@ == key);
                }
            }
        }
    }
    Ok(required)
}

impl Crowdfund {
    /// Arithmetic room one purchase call needs: every amount the call can
    /// accumulate still fits its counter, whatever number of units up to
    /// the per-wallet maximum it ends up reserving.
    pub open spec fn purchase_room(self, buyer: Seq<char>, rates: RateInfo) -> bool {
        match self.state {
            Option::None => true,
            Option::Some(s) => {
                let n = s.max_amount_per_wallet as int;
                &&& rates.remaining_amount <= s.price.amount
                &&& (s.price.amount + rates.tax_amount) * n + sum_p(
                    buyer_records(self.ledger@, buyer),
                    refund_of(s.price.amount as int),
                ) <= u128::MAX
                &&& s.amount_sold + n <= u128::MAX
                &&& s.amount_to_send + rates.remaining_amount * n <= u128::MAX
            },
        }
    }

    /// Reserves the given tokens for the sender and files the records.
    ///
    /// The caller has already checked the sale window and the wallet
    /// limit; this settles the reservation atomically: on any error
    /// nothing has changed.
    #[verifier::rlimit(100)]
    #[verifier::spinoff_prover]
    fn settle_purchase(
        &mut self,
        sender: &String,
        funds: &Vec<Coin>,
        block: &BlockInfo,
        token_ids: Vec<String>,
        rates: &RateInfo,
    ) -> (r: Result<Coin, ContractError>)
        requires
            old(self).wf(),
            old(self).state is Some,
            block_le(old(self).clock@, *block),
            !old(self).state->Some_0.expiration.spec_is_expired(*block),
            forall|j: int| 0 <= j < token_ids@.len() ==> old(self).inventory@.contains(
                (#[trigger] token_ids@[j])@,
            ),
            forall|j: int, l: int|
                0 <= j < token_ids@.len() && 0 <= l < token_ids@.len() && j != l ==> (
                #[trigger] token_ids@[j])@ != (#[trigger] token_ids@[l])@,
            buyer_records(old(self).ledger@, sender@).len() + token_ids@.len() <= old(
                self,
            ).state->Some_0.max_amount_per_wallet,
            old(self).purchase_room(sender@, *rates),
        ensures
            final(self).wf(),
            r is Err ==> *final(self) == *old(self),
            token_ids@.len() == 0 ==> r == Result::<Coin, ContractError>::Err(
                ContractError::AllTokensPurchased,
            ),
            r is Ok <==> (token_ids@.len() > 0 && spec_has_coins(
                funds@,
                old(self).state->Some_0.price.denom@,
                (old(self).state->Some_0.price.amount + rates.tax_amount) * token_ids@.len(),
            )),
            token_ids@.len() > 0 && !(r is Ok) ==> r == Result::<Coin, ContractError>::Err(
                ContractError::InsufficientFunds,
            ),
            r is Ok ==> {
                let s = old(self).state->Some_0;
                let k = token_ids@.len() as int;
                let cur = buyer_records(old(self).ledger@, sender@);
                let now = buyer_records(final(self).ledger@, sender@);
                &&& r->Ok_0.denom == s.price.denom
                &&& r->Ok_0.amount == (s.price.amount + rates.tax_amount) * k
                &&& final(self).state == Option::Some(
                    State {
                        amount_sold: (s.amount_sold + k) as u128,
                        amount_to_send: (s.amount_to_send + rates.remaining_amount * k) as u128,
                        ..s
                    },
                )
                &&& now.len() == cur.len() + k
                &&& now.take(cur.len() as int) == cur
                &&& forall|j: int|
                    cur.len() <= j < now.len() ==> {
                        let p = #[trigger] now[j];
                        &&& p.token_id@ == token_ids@[j - cur.len()]@
                        &&& p.tax_amount == rates.tax_amount
                        &&& p.purchaser@ == sender@
                        &&& p.remainder@ == rates.remaining_amount
                    }
                &&& records(final(self).ledger@).len() == records(old(self).ledger@).len() + k
                &&& forall|key: Seq<char>|
                    final(self).inventory@.contains(key) <==> (old(self).inventory@.contains(key)
                        && !exists|j: int|
                        0 <= j < token_ids@.len() && (#[trigger] token_ids@[j])@ == key)
                &&& final(self).inventory@.len() == old(self).inventory@.len() - k
                &&& final(self).totals@ == (Totals {
                    collected: old(self).totals@.collected + (s.price.amount + rates.tax_amount)
                        * k,
                    ..old(self).totals@
                })
                &&& final(self).clock@ == *block
                &&& final(self).owner == old(self).owner
                &&& final(self).config == old(self).config
                &&& final(self).sale_conducted == old(self).sale_conducted
            },
    {
        let mut st = self.state.take().unwrap();
        let ghost s0 = st;
        if token_ids.len() == 0 {
            self.state = Some(st);
            return Err(ContractError::AllTokensPurchased);
        }
        let count = token_ids.len();
        proof {
            assert((st.price.amount + rates.tax_amount) * 1 <= (st.price.amount
                + rates.tax_amount) * count) by (nonlinear_arith)
                requires
                    1 <= count,
                    0 <= st.price.amount + rates.tax_amount,
            ;
            assert(sum_p(
                buyer_records(old(self).ledger@, sender@),
                refund_of(st.price.amount as int),
            ) >= 0) by {
                crate::ledger::lemma_sum_p_nonneg(
                    buyer_records(old(self).ledger@, sender@),
                    refund_of(st.price.amount as int),
                );
            }
            assert((st.price.amount + rates.tax_amount) * count <= (st.price.amount
                + rates.tax_amount) * (st.max_amount_per_wallet as int)) by (nonlinear_arith)
                requires
                    count <= st.max_amount_per_wallet as int,
                    0 <= st.price.amount + rates.tax_amount,
            ;
            assert(rates.remaining_amount * count <= rates.remaining_amount * (
            st.max_amount_per_wallet as int)) by (nonlinear_arith)
                requires
                    count <= st.max_amount_per_wallet as int,
                    0 <= rates.remaining_amount,
            ;
        }
        let required_amount = (st.price.amount + rates.tax_amount) * (count as u128);
        if !has_coins(funds, &st.price.denom, required_amount) {
            self.state = Some(st);
            return Err(ContractError::InsufficientFunds);
        }
        let ghost tids = token_ids@;
        let ghost l0 = self.ledger@;
        let ghost rl0 = records(l0);
        let ghost had = has_entry(l0, sender@);
        let ghost ei = entry_at(l0, sender@);
        let entry_opt = self.ledger.take_entry(sender);
        let mut purchases = match entry_opt {
            Some(e) => e.purchases,
            None => Vec::new(),
        };
        let ghost cur = purchases@;
        proof {
            if had {
                assert(cur == buyer_records(l0, sender@));
            } else {
                assert(cur =~= buyer_records(l0, sender@));
            }
        }
        let res = purchase_tokens(
            &mut self.inventory,
            &mut st,
            &mut purchases,
            token_ids,
            sender,
            funds,
            rates,
        );
        let required = match res {
            Ok(c) => c,
            Err(e) => {
                // Unreachable: the checks above are this call's only
                // error conditions.
                proof {
                    assert(false);
                }
                self.state = Some(st);
                return Err(e);
            },
        };
        let ghost mid = self.ledger@;
        let entry = LedgerEntry { purchaser: sender.clone(), purchases };
        proof {
            assert forall|i: int| 0 <= i < mid.len() implies (#[trigger] mid[i].purchaser)@
                != sender@ by {
                if had {
                    let i0: int = if i < ei {
                        i
                    } else {
                        i + 1
                    };
                    assert(mid[i] == l0[i0]);
                    if l0[i0].purchaser@ == sender@ {
                        assert(entry_keys(l0)[i0] == sender@);
                        assert(entry_keys(l0)[ei] == sender@);
                        crate::inventory::lemma_sorted_distinct(entry_keys(l0), i0, ei);
                    }
                }
            }
            assert forall|j: int|
                0 <= j < entry.purchases@.len() implies (#[trigger] entry.purchases@[j].purchaser)@
                == sender@ by {
                if j < cur.len() {
                    assert(entry.purchases@.take(cur.len() as int)[j] == entry.purchases@[j]);
                    assert(cur[j] == entry.purchases@[j]);
                    if had {
                        assert(l0[ei].purchases@[j].purchaser@ == l0[ei].purchaser@);
                    }
                }
            }
        }
        let idx = self.ledger.put_entry(entry);
        let ghost stg = st;
        self.state = Some(st);
        self.totals = Ghost(
            Totals { collected: self.totals@.collected + required.amount, ..self.totals@ },
        );
        self.clock = Ghost(*block);
        proof {
            let pre = *old(self);
            assert(l0 == pre.ledger@);
            assert(pre.state->Some_0 == s0);
            assert(forall|j: int|
                0 <= j < rl0.len() ==> (#[trigger] rl0[j].remainder)@ <= s0.price.amount
                    && s0.price.amount + rl0[j].tax_amount <= u128::MAX);
            let k = count as int;
            let price = s0.price.amount as int;
            let tax = rates.tax_amount as int;
            let rem = rates.remaining_amount as int;
            let lf = self.ledger@;
            let pnew = self.ledger@[idx as int].purchases@;
            let new_recs = pnew.skip(cur.len() as int);

            // Where the records of the final ledger come from: the old
            // records with the new ones spliced in at the buyer's position.
            assert(forall|i: int| 0 <= i < idx ==> lf[i] == mid[i]);
            assert(forall|i: int| idx < i < lf.len() ==> lf[i] == mid[i - 1]);
            lemma_records_insert(mid, idx as int, lf[idx as int]);
            let sega = records(mid.take(idx as int));
            let segb = records(mid.skip(idx as int));
            let m0 = sega.len() as int + cur.len() as int;
            if had {
                // Reinserting the buyer's entry lands at its old position.
                assert(idx as int == ei) by {
                    assert(entry_keys(l0)[ei] == sender@);
                    if (idx as int) < ei {
                        assert(mid[idx as int] == l0[idx as int]);
                        assert(key_lt(entry_keys(l0)[idx as int], entry_keys(l0)[ei]));
                        assert(key_lt(sender@, l0[idx as int].purchaser@));
                        lemma_key_lt_trans(
                            sender@,
                            l0[idx as int].purchaser@,
                            sender@,
                        );
                        lemma_key_lt_irrefl(sender@);
                    }
                    if (idx as int) > ei {
                        assert(mid[idx - 1] == l0[idx as int]);
                        assert(key_lt(entry_keys(l0)[ei], entry_keys(l0)[idx as int]));
                        assert(key_lt(l0[idx as int].purchaser@, sender@));
                        lemma_key_lt_trans(
                            sender@,
                            l0[idx as int].purchaser@,
                            sender@,
                        );
                        lemma_key_lt_irrefl(sender@);
                    }
                }
                lemma_records_mid(l0, ei);
                assert(mid.take(ei) =~= l0.take(ei));
                assert(mid.skip(ei) =~= l0.skip(ei + 1));
                assert(rl0 =~= sega + cur + segb);
            } else {
                assert(cur.len() == 0);
                lemma_records_split(l0, idx as int);
                assert(rl0 =~= sega + segb);
            }
            assert(pnew =~= cur + new_recs);
            assert(records(lf) =~= sega + cur + new_recs + segb) by {
                assert(records(lf) =~= sega + pnew + segb);
            }
            assert(rl0.take(m0) =~= sega + cur);
            assert(rl0.skip(m0) =~= segb);
            assert(records(lf) =~= rl0.take(m0) + new_recs + rl0.skip(m0));
            assert(records(lf).len() == rl0.len() + k);
            assert(0 <= m0 <= rl0.len());

            // Pointwise: old records keep their places around the splice.
            assert(forall|u: int| 0 <= u < m0 ==> records(lf)[u] == rl0[u]);
            assert(forall|u: int| 0 <= u < k ==> records(lf)[m0 + u] == new_recs[u]);
            assert(forall|u: int|
                m0 + k <= u < records(lf).len() ==> records(lf)[u] == rl0[u - k]);
            assert(forall|u: int| 0 <= u < k ==> new_recs[u] == pnew[cur.len() + u]);
            assert(forall|u: int|
                0 <= u < k ==> (#[trigger] new_recs[u]).token_id@ == tids[u]@
                    && new_recs[u].tax_amount == rates.tax_amount && new_recs[u].purchaser@
                    == sender@ && new_recs[u].remainder@ == rates.remaining_amount);

            // Sums over the final records.
            let f_ref = refund_of(price);
            let f_rem = remainder_of();
            let f_fee = fee_of(price);
            lemma_splice_sums(rl0, new_recs, m0, f_ref);
            lemma_splice_sums(rl0, new_recs, m0, f_rem);
            lemma_splice_sums(rl0, new_recs, m0, f_fee);
            lemma_sum_p_constant(new_recs, f_ref, price + tax);
            lemma_sum_p_constant(new_recs, f_rem, rem);
            lemma_sum_p_constant(new_recs, f_fee, price + tax - rem);
            assert(sum_p(records(lf), f_ref) == sum_p(rl0, f_ref) + (price + tax) * k);
            assert(sum_p(records(lf), f_rem) == sum_p(rl0, f_rem) + rem * k);
            assert(sum_p(records(lf), f_fee) == sum_p(rl0, f_fee) + (price + tax - rem) * k);

            // A successful purchase means the sale was not settling yet: no
            // refund can have run, so every sold unit is still outstanding.
            if s0.amount_sold < s0.min_tokens_sold {
                assert(rl0.len() == s0.amount_sold) by {
                    if rl0.len() < s0.amount_sold {
                        if s0.expiration.spec_is_expired(pre.clock@) {
                            crate::types::lemma_expiration_monotone(
                                s0.expiration,
                                pre.clock@,
                                *block,
                            );
                        }
                        assert(pre.inventory@.contains(tids[0]@));
                        assert(pre.inventory@.len() > 0);
                    }
                }
                assert(s0.amount_to_send == sum_p(rl0, f_rem));
            }

            // The buyer's entry is found where it was put.
            assert(has_entry(lf, sender@)) by {
                assert(lf[idx as int].purchaser@ == sender@);
            }
            assert(entry_at(lf, sender@) == idx as int) by {
                let w = entry_at(lf, sender@);
                if w != idx as int {
                    assert(entry_keys(lf)[w] == sender@);
                    assert(entry_keys(lf)[idx as int] == sender@);
                    crate::inventory::lemma_sorted_distinct(entry_keys(lf), w, idx as int);
                }
            }

            // Per-entry clauses: old entries are untouched, the buyer's
            // entry grew within its limits.
            assert(sum_p(pnew, f_ref) == sum_p(cur, f_ref) + (price + tax) * k) by {
                lemma_sum_p_split(pnew, cur.len() as int, f_ref);
                lemma_sum_p_constant(new_recs, f_ref, price + tax);
                assert(pnew.take(cur.len() as int) =~= cur);
            }
            assert forall|i: int| 0 <= i < lf.len() implies (#[trigger] lf[i].purchases)@.len()
                <= s0.max_amount_per_wallet && sum_p(lf[i].purchases@, f_ref) <= u128::MAX by {
                if i != idx as int {
                    let i1: int = if i < idx as int {
                        i
                    } else {
                        i - 1
                    };
                    assert(lf[i] == mid[i1]);
                    if had {
                        let i0: int = if i1 < ei {
                            i1
                        } else {
                            i1 + 1
                        };
                        assert(mid[i1] == l0[i0]);
                    }
                }
            }

            // Every remaining token identifier is referenced exactly once.
            let rs = records(lf);
            assert forall|u: int, v: int|
                0 <= u < rs.len() && 0 <= v < rs.len() && u != v implies (
            #[trigger] rs[u].token_id)@ != (#[trigger] rs[v].token_id)@ by {
                let iu: int = if u < m0 {
                    u
                } else {
                    u - k
                };
                let iv: int = if v < m0 {
                    v
                } else {
                    v - k
                };
                if (u < m0 || u >= m0 + k) && (v < m0 || v >= m0 + k) {
                    assert(rs[u] == rl0[iu]);
                    assert(rs[v] == rl0[iv]);
                } else if (u < m0 || u >= m0 + k) && m0 <= v < m0 + k {
                    assert(rs[u] == rl0[iu]);
                    assert(pre.inventory@.contains(rs[v].token_id@));
                } else if m0 <= u < m0 + k && (v < m0 || v >= m0 + k) {
                    assert(rs[v] == rl0[iv]);
                    assert(pre.inventory@.contains(rs[u].token_id@));
                } else {
                    assert(rs[u].token_id@ == tids[u - m0]@);
                    assert(rs[v].token_id@ == tids[v - m0]@);
                }
            }
            assert forall|u: int| 0 <= u < rs.len() implies !self.inventory@.contains(
                (#[trigger] rs[u].token_id)@,
            ) by {
                if u < m0 || u >= m0 + k {
                    let iu: int = if u < m0 {
                        u
                    } else {
                        u - k
                    };
                    assert(rs[u] == rl0[iu]);
                    assert(!pre.inventory@.contains(rs[u].token_id@));
                } else {
                    assert(rs[u].token_id@ == tids[u - m0]@);
                }
            }

            // Per-record bounds carry over to the new records.
            assert((price + tax) * 1 <= (price + tax) * k) by (nonlinear_arith)
                requires
                    1 <= k,
                    0 <= price + tax,
            ;
            assert(sum_p(cur, f_ref) >= 0) by {
                crate::ledger::lemma_sum_p_nonneg(cur, f_ref);
            }
            assert forall|u: int| 0 <= u < rs.len() implies (#[trigger] rs[u].remainder)@
                <= stg.price.amount && stg.price.amount + rs[u].tax_amount <= u128::MAX by {
                if u < m0 || u >= m0 + k {
                    let iu: int = if u < m0 {
                        u
                    } else {
                        u - k
                    };
                    assert(rs[u] == rl0[iu]);
                    assert(rl0[iu].remainder@ <= s0.price.amount && s0.price.amount
                        + rl0[iu].tax_amount <= u128::MAX);
                } else {
                    assert(rs[u] == new_recs[u - m0]);
                    assert(rs[u].remainder@ == rates.remaining_amount);
                    assert(rs[u].tax_amount == rates.tax_amount);
                    assert(price + tax <= u128::MAX) by {
                        assert((price + tax) * 1 <= (price + tax) * k) by (nonlinear_arith)
                            requires
                                1 <= k,
                                0 <= price + tax,
                        ;
                        assert(required.amount == (price + tax) * k);
                    }
                }
            }
            // The invariant, piece by piece.
            assert(ledger_wf(lf));
            assert(stg.wf()) by {
                if s0.amount_sold < s0.min_tokens_sold {
                    assert(s0.amount_transferred == 0);
                }
            }
            if stg.amount_sold >= stg.min_tokens_sold {
                assert(records(lf).len() == stg.amount_sold - stg.amount_transferred) by {
                    if s0.amount_sold < s0.min_tokens_sold {
                        assert(rl0.len() == s0.amount_sold);
                        assert(s0.amount_transferred == 0);
                    }
                }
            } else {
                assert(s0.amount_sold < s0.min_tokens_sold);
                assert(stg.amount_transferred == 0);
                assert(records(lf).len() == stg.amount_sold);
                assert(stg.amount_to_send == sum_p(records(lf), f_rem));
            }
            assert(self.sale_ok());
            assert(self.pending_payout() == pre.pending_payout() + rem * k) by {
                if s0.amount_sold >= s0.min_tokens_sold {
                    assert(stg.amount_sold >= stg.min_tokens_sold);
                } else if stg.amount_sold >= stg.min_tokens_sold {
                    assert(s0.amount_to_send == sum_p(rl0, f_rem));
                }
            }
            assert(self.fee_obligations() == pre.fee_obligations() + (price + tax - rem) * k);
            assert(self.money_ok()) by {
                assert(required.amount == (price + tax) * k);
                assert((price + tax) * k == rem * k + (price + tax - rem) * k)
                    by (nonlinear_arith);
            }
            assert(self.tokens_ok());
            assert(self.items_distinct());
            assert(self.wf());
            assert(buyer_records(lf, sender@) == pnew);
        }
        Ok(required)
    }
}

impl Crowdfund {
    /// Buys up to a wanted number of units, defaulting to the buyer's
    /// whole remaining allowance.
    ///
    /// Valid only while a sale is open and not expired.  The number of
    /// units actually reserved is the least of the wanted number, the
    /// buyer's remaining allowance and the available inventory, taken from
    /// the front of the inventory in ascending key order.  Funds attached
    /// beyond the required payment are handed back in the response.
    pub fn execute_purchase(
        &mut self,
        sender: &String,
        funds: &Vec<Coin>,
        block: &BlockInfo,
        number_of_tokens: Option<u32>,
        rates: &RateInfo,
    ) -> (r: Result<PurchaseResponse, ContractError>)
        requires
            old(self).wf(),
            block_le(old(self).clock@, *block),
            coins_normalized(funds@),
            old(self).purchase_room(sender@, *rates),
        ensures
            final(self).wf(),
            r is Err ==> *final(self) == *old(self),
            old(self).state is None ==> r == Result::<PurchaseResponse, ContractError>::Err(
                ContractError::NoOngoingSale,
            ),
            old(self).state matches Option::Some(s) && s.expiration.spec_is_expired(*block) ==> r
                == Result::<PurchaseResponse, ContractError>::Err(ContractError::NoOngoingSale),
            ({
                let s = old(self).state->Some_0;
                let cur = buyer_records(old(self).ledger@, sender@).len() as int;
                let allowance = s.max_amount_per_wallet - cur;
                let wanted: int = match number_of_tokens {
                    Option::Some(n) => if n <= allowance {
                        n as int
                    } else {
                        allowance
                    },
                    Option::None => allowance,
                };
                let k = vstd::math::min(wanted, old(self).inventory@.len() as int);
                let required = (s.price.amount + rates.tax_amount) * k;
                &&& (old(self).state is Some && !s.expiration.spec_is_expired(*block)
                    && allowance == 0 ==> r == Result::<PurchaseResponse, ContractError>::Err(
                    ContractError::PurchaseLimitReached,
                ))
                &&& (old(self).state is Some && !s.expiration.spec_is_expired(*block) && allowance
                    > 0 && k == 0 ==> r == Result::<PurchaseResponse, ContractError>::Err(
                    ContractError::AllTokensPurchased,
                ))
                &&& (old(self).state is Some && !s.expiration.spec_is_expired(*block) && allowance
                    > 0 && k > 0 && !spec_has_coins(funds@, s.price.denom@, required) ==> r
                    == Result::<PurchaseResponse, ContractError>::Err(
                    ContractError::InsufficientFunds,
                ))
                &&& (r is Ok <==> (old(self).state is Some && !s.expiration.spec_is_expired(*block)
                    && allowance > 0 && k > 0 && spec_has_coins(funds@, s.price.denom@, required)))
                &&& (r is Ok ==> {
                    let leftover = spec_deduct(funds@, s.price.denom@, required);
                    &&& final(self).state == Option::Some(
                        State {
                            amount_sold: (s.amount_sold + k) as u128,
                            amount_to_send: (s.amount_to_send + rates.remaining_amount * k) as u128,
                            ..s
                        },
                    )
                    &&& buyer_records(final(self).ledger@, sender@).len() == cur + k
                    &&& buyer_records(final(self).ledger@, sender@).take(cur) == buyer_records(
                        old(self).ledger@,
                        sender@,
                    )
                    &&& forall|j: int|
                        cur <= j < cur + k ==> {
                            let p = #[trigger] buyer_records(final(self).ledger@, sender@)[j];
                            &&& p.token_id@ == old(self).inventory@[j - cur]
                            &&& p.tax_amount == rates.tax_amount
                            &&& p.purchaser@ == sender@
                            &&& p.remainder@ == rates.remaining_amount
                        }
                    &&& records(final(self).ledger@).len() == records(old(self).ledger@).len() + k
                    &&& final(self).inventory@.len() == old(self).inventory@.len() - k
                    &&& final(self).inventory@.len() + records(final(self).ledger@).len() == old(
                        self,
                    ).inventory@.len() + records(old(self).ledger@).len()
                    &&& final(self).totals@ == (Totals {
                        collected: old(self).totals@.collected + required,
                        ..old(self).totals@
                    })
                    &&& final(self).clock@ == *block
                    &&& final(self).owner == old(self).owner
                    &&& final(self).config == old(self).config
                    &&& final(self).sale_conducted == old(self).sale_conducted
                    &&& r->Ok_0.refund@ == (if spec_has_coins(leftover, s.price.denom@, 1) {
                        leftover
                    } else {
                        Seq::<Coin>::empty()
                    })
                })
            }),
    {
        let (expiration, maxw) = match &self.state {
            None => {
                return Err(ContractError::NoOngoingSale);
            },
            Some(s) => (s.expiration, s.max_amount_per_wallet),
        };
        if expiration.is_expired(block) {
            return Err(ContractError::NoOngoingSale);
        }
        let cur = self.ledger.count_for(sender);
        proof {
            if has_entry(self.ledger@, sender@) {
                assert(self.ledger@[entry_at(self.ledger@, sender@)].purchases@.len() <= maxw);
            }
        }
        let cur32 = cur as u32;
        if maxw - cur32 == 0 {
            return Err(ContractError::PurchaseLimitReached);
        }
        let allowance = maxw - cur32;
        let wanted = match number_of_tokens {
            Some(n) => if n <= allowance {
                n
            } else {
                allowance
            },
            None => allowance,
        };
        let token_ids = self.inventory.first_ids(wanted as usize);
        let ghost k = token_ids@.len() as int;
        proof {
            self.inventory.lemma_wf_sorted();
            assert(crate::seqs::string_views(token_ids@).len() == k);
            assert(k == vstd::math::min(wanted as int, self.inventory@.len() as int));
            assert(crate::seqs::string_views(token_ids@) == self.inventory@.take(k));
            assert forall|j: int| 0 <= j < k implies self.inventory@.contains(
                (#[trigger] token_ids@[j])@,
            ) by {
                assert(crate::seqs::string_views(token_ids@)[j] == token_ids@[j]@);
                assert(self.inventory@[j] == token_ids@[j]@);
            }
            assert forall|j: int, l: int|
                0 <= j < k && 0 <= l < k && j != l implies (#[trigger] token_ids@[j])@ != (
            #[trigger] token_ids@[l])@ by {
                assert(crate::seqs::string_views(token_ids@)[j] == token_ids@[j]@);
                assert(crate::seqs::string_views(token_ids@)[l] == token_ids@[l]@);
                assert(token_ids@[j]@ == self.inventory@[j]);
                assert(token_ids@[l]@ == self.inventory@[l]);
                crate::inventory::lemma_sorted_distinct(self.inventory@, j, l);
            }
        }
        let ghost tids = token_ids@;
        let res = self.settle_purchase(sender, funds, block, token_ids, rates);
        let required = match res {
            Ok(c) => c,
            Err(e) => {
                return Err(e);
            },
        };
        proof {
            let curlen = buyer_records(old(self).ledger@, sender@).len() as int;
            let now = buyer_records(self.ledger@, sender@);
            assert forall|j: int| curlen <= j < now.len() implies (#[trigger] now[j]).token_id@
                == old(self).inventory@[j - curlen] by {
                assert(now[j].token_id@ == tids[j - curlen]@);
                assert(crate::seqs::string_views(tids)[j - curlen] == tids[j - curlen]@);
            }
        }
        let leftover = crate::funds::deduct_funds(funds, &required.denom, required.amount);
        let refund = if has_coins(&leftover, &required.denom, 1) {
            leftover
        } else {
            Vec::new()
        };
        Ok(PurchaseResponse { refund })
    }

    /// Buys one specific token by its identifier.
    ///
    /// Valid only while a sale is open and not expired, and only for a
    /// token still in the inventory.  Overpaid funds are not handed back
    /// by this variant.
    pub fn execute_purchase_by_token_id(
        &mut self,
        sender: &String,
        funds: &Vec<Coin>,
        block: &BlockInfo,
        token_id: String,
        rates: &RateInfo,
    ) -> (r: Result<(), ContractError>)
        requires
            old(self).wf(),
            block_le(old(self).clock@, *block),
            old(self).purchase_room(sender@, *rates),
        ensures
            final(self).wf(),
            r is Err ==> *final(self) == *old(self),
            old(self).state is None ==> r == Result::<(), ContractError>::Err(
                ContractError::NoOngoingSale,
            ),
            old(self).state matches Option::Some(s) && s.expiration.spec_is_expired(*block) ==> r
                == Result::<(), ContractError>::Err(ContractError::NoOngoingSale),
            ({
                let s = old(self).state->Some_0;
                let cur = buyer_records(old(self).ledger@, sender@).len() as int;
                let available = old(self).inventory@.contains(token_id@);
                let open = old(self).state is Some && !s.expiration.spec_is_expired(*block);
                let required = (s.price.amount + rates.tax_amount) as int;
                &&& (open && !available ==> r == Result::<(), ContractError>::Err(
                    ContractError::TokenNotAvailable,
                ))
                &&& (open && available && s.max_amount_per_wallet - cur == 0 ==> r == Result::<
                    (),
                    ContractError,
                >::Err(ContractError::PurchaseLimitReached))
                &&& (open && available && s.max_amount_per_wallet - cur > 0 && !spec_has_coins(
                    funds@,
                    s.price.denom@,
                    required,
                ) ==> r == Result::<(), ContractError>::Err(ContractError::InsufficientFunds))
                &&& (r is Ok <==> (open && available && s.max_amount_per_wallet - cur > 0
                    && spec_has_coins(funds@, s.price.denom@, required)))
                &&& (r is Ok ==> {
                    let now = buyer_records(final(self).ledger@, sender@);
                    &&& final(self).state == Option::Some(
                        State {
                            amount_sold: (s.amount_sold + 1) as u128,
                            amount_to_send: (s.amount_to_send + rates.remaining_amount) as u128,
                            ..s
                        },
                    )
                    &&& now.len() == cur + 1
                    &&& now.take(cur) == buyer_records(old(self).ledger@, sender@)
                    &&& now[cur].token_id@ == token_id@
                    &&& now[cur].tax_amount == rates.tax_amount
                    &&& now[cur].purchaser@ == sender@
                    &&& now[cur].remainder@ == rates.remaining_amount
                    &&& !final(self).inventory@.contains(token_id@)
                    &&& final(self).inventory@.len() == old(self).inventory@.len() - 1
                    &&& final(self).totals@ == (Totals {
                        collected: old(self).totals@.collected + (s.price.amount
                            + rates.tax_amount),
                        ..old(self).totals@
                    })
                    &&& final(self).clock@ == *block
                    &&& final(self).owner == old(self).owner
                    &&& final(self).config == old(self).config
                    &&& final(self).sale_conducted == old(self).sale_conducted
                })
            }),
    {
        let (expiration, maxw) = match &self.state {
            None => {
                return Err(ContractError::NoOngoingSale);
            },
            Some(s) => (s.expiration, s.max_amount_per_wallet),
        };
        if expiration.is_expired(block) {
            return Err(ContractError::NoOngoingSale);
        }
        if !self.inventory.contains_id(&token_id) {
            return Err(ContractError::TokenNotAvailable);
        }
        let cur = self.ledger.count_for(sender);
        proof {
            if has_entry(self.ledger@, sender@) {
                assert(self.ledger@[entry_at(self.ledger@, sender@)].purchases@.len() <= maxw);
            }
        }
        let cur32 = cur as u32;
        if maxw - cur32 == 0 {
            return Err(ContractError::PurchaseLimitReached);
        }
        let ghost tid = token_id@;
        let mut token_ids: Vec<String> = Vec::new();
        token_ids.push(token_id);
        let res = self.settle_purchase(sender, funds, block, token_ids, rates);
        match res {
            Ok(_) => {
                proof {
                    let s = old(self).state->Some_0;
                    assert((s.price.amount + rates.tax_amount) * 1 == s.price.amount
                        + rates.tax_amount);
                    assert(rates.remaining_amount * 1 == rates.remaining_amount as int);
                }
                Ok(())
            },
            Err(e) => {
                proof {
                    let s = old(self).state->Some_0;
                    assert((s.price.amount + rates.tax_amount) * 1 == s.price.amount
                        + rates.tax_amount);
                }
                Err(e)
            },
        }
    }
}

/// Multiplying by one more step stays within the bound for the full count.
proof fn lemma_mul_step(v: int, i: int, n: int)
    requires
        0 <= v,
        0 <= i < n,
    ensures
        v * i + v == v * (i + 1),
        v * (i + 1) <= v * n,
{
    assert(v * i + v == v * (i + 1)) by (nonlinear_arith);
    assert(v * (i + 1) <= v * n) by (nonlinear_arith)
        requires
            0 <= v,
            i + 1 <= n,
    ;
}

} // verus!
