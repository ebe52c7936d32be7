//! The batch settlement engine.
//!
//! Once the sale window has closed — by expiry or by sell-out — repeated
//! bounded calls drain the backlog.  A failed sale refunds each buyer the
//! full price and tax of every unit they hold and burns the unsold tokens;
//! a successful sale pays the accrued proceeds out once, delivers every
//! reserved unit to its buyer, and burns the leftovers.  Each call touches
//! at most `limit` ledger entries, purchases and tokens, makes monotone
//! progress, and the call that finds both backlogs empty clears the sale.

use vstd::math::min;
use vstd::prelude::*;

use crate::contract::Crowdfund;
use crate::contract::Totals;
use crate::contract::DEFAULT_LIMIT;
use crate::contract::MAX_LIMIT;
use crate::error::ContractError;
use crate::ledger::entry_at;
use crate::ledger::has_entry;
use crate::ledger::lemma_records_mid;
use crate::ledger::lemma_records_split;
use crate::ledger::lemma_sum_p_concat;
use crate::ledger::lemma_sum_p_nonneg;
use crate::ledger::lemma_sum_p_split;
use crate::ledger::records;
use crate::ledger::refund_of;
use crate::ledger::remainder_of;
use crate::ledger::fee_of;
use crate::ledger::sum_p;
use crate::ledger::LedgerEntry;
use crate::ledger::Purchase;
use crate::state::State;
use crate::types::block_le;
use crate::types::BlockInfo;
use crate::types::BurnMsg;
use crate::types::Coin;
use crate::types::FeeMsg;
use crate::types::PayoutMsg;
use crate::types::RefundMsg;

verus! {

/// What a whole run of entries is owed back: price plus tax for every
/// outstanding unit.
pub open spec fn total_refund(entries: Seq<LedgerEntry>, price: int) -> int {
    sum_p(records(entries), refund_of(price))
}

/// The refund instructions for a run of entries: one merged transfer per
/// buyer, skipping buyers whose merged amount is zero.
pub open spec fn refund_msgs_of(entries: Seq<LedgerEntry>, price: Coin) -> Seq<RefundMsg>
    decreases entries.len(),
{
    if entries.len() == 0 {
        Seq::empty()
    } else {
        let head = RefundMsg {
            to_address: entries[0].purchaser,
            denom: price.denom,
            amount: sum_p(entries[0].purchases@, refund_of(price.amount as int)) as u128,
        };
        let rest = refund_msgs_of(entries.drop_first(), price);
        if sum_p(entries[0].purchases@, refund_of(price.amount as int)) == 0 {
            rest
        } else {
            seq![head] + rest
        }
    }
}

/// The fee instructions carried by a run of purchases, in order.
pub open spec fn fee_concat(rs: Seq<Purchase>) -> Seq<FeeMsg>
    decreases rs.len(),
{
    if rs.len() == 0 {
        Seq::empty()
    } else {
        rs[0].msgs@ + fee_concat(rs.drop_first())
    }
}

/// Delivering one more purchase appends its fee instructions.
pub proof fn lemma_fee_concat_push(rs: Seq<Purchase>, p: Purchase)
    ensures
        fee_concat(rs.push(p)) == fee_concat(rs) + p.msgs@,
    decreases rs.len(),
{
    if rs.len() == 0 {
        assert(rs.push(p).drop_first() =~= Seq::<Purchase>::empty());
        assert(rs.push(p)[0] == p);
        assert(fee_concat(Seq::<Purchase>::empty()) == Seq::<FeeMsg>::empty());
        assert(fee_concat(rs) == Seq::<FeeMsg>::empty());
        assert(fee_concat(rs.push(p)) =~= fee_concat(rs) + p.msgs@);
    } else {
        assert(rs.push(p).drop_first() =~= rs.drop_first().push(p));
        lemma_fee_concat_push(rs.drop_first(), p);
        assert(fee_concat(rs.push(p)) =~= fee_concat(rs) + p.msgs@);
    }
}

/// Every unit's worth splits into its payout share and its fee share.
pub proof fn lemma_refund_split_sum(s: Seq<Purchase>, price: int)
    ensures
        sum_p(s, refund_of(price)) == sum_p(s, remainder_of()) + sum_p(s, fee_of(price)),
    decreases s.len(),
{
    if s.len() > 0 {
        lemma_refund_split_sum(s.drop_first(), price);
    }
}

/// The refund instructions of one more entry.
pub proof fn lemma_refund_msgs_push(entries: Seq<LedgerEntry>, e: LedgerEntry, price: Coin)
    ensures
        refund_msgs_of(entries.push(e), price) == refund_msgs_of(entries, price) + (if sum_p(
            e.purchases@,
            refund_of(price.amount as int),
        ) == 0 {
            Seq::<RefundMsg>::empty()
        } else {
            seq![
                RefundMsg {
                    to_address: e.purchaser,
                    denom: price.denom,
                    amount: sum_p(e.purchases@, refund_of(price.amount as int)) as u128,
                },
            ]
        }),
    decreases entries.len(),
{
    let tail = if sum_p(e.purchases@, refund_of(price.amount as int)) == 0 {
        Seq::<RefundMsg>::empty()
    } else {
        seq![
            RefundMsg {
                to_address: e.purchaser,
                denom: price.denom,
                amount: sum_p(e.purchases@, refund_of(price.amount as int)) as u128,
            },
        ]
    };
    if entries.len() == 0 {
        assert(entries.push(e).drop_first() =~= Seq::<LedgerEntry>::empty());
        assert(entries.push(e)[0] == e);
        assert(refund_msgs_of(Seq::<LedgerEntry>::empty(), price) == Seq::<RefundMsg>::empty());
        assert(refund_msgs_of(entries, price) == Seq::<RefundMsg>::empty());
        assert(refund_msgs_of(entries.push(e), price) =~= refund_msgs_of(entries, price) + tail);
    } else {
        assert(entries.push(e).drop_first() =~= entries.drop_first().push(e));
        lemma_refund_msgs_push(entries.drop_first(), e, price);
        assert(refund_msgs_of(entries.push(e), price) =~= refund_msgs_of(entries, price) + tail);
    }
}

/// The batch size a settlement call works with: the caller's choice capped
/// at [`MAX_LIMIT`], or [`DEFAULT_LIMIT`] when no choice was made.
pub open spec fn spec_limit(limit: Option<u32>) -> int {
    match limit {
        Option::Some(l) => min(l as int, MAX_LIMIT as int),
        Option::None => DEFAULT_LIMIT as int,
    }
}

/// Resolves the batch size of one settlement call.
fn resolve_limit(limit: Option<u32>) -> (r: u32)
    ensures
        r == spec_limit(limit),
{
    match limit {
        Some(l) => if l < MAX_LIMIT {
            l
        } else {
            MAX_LIMIT
        },
        None => DEFAULT_LIMIT,
    }
}

/// Merges one buyer's outstanding purchases into a single refund transfer
/// of the full price and tax of every unit; nothing is owed to a buyer
/// whose merged amount is zero.
pub fn process_refund(entry: &LedgerEntry, price: &Coin) -> (r: Option<RefundMsg>)
    requires
        sum_p(entry.purchases@, refund_of(price.amount as int)) <= u128::MAX,
    ensures
        r is None <==> sum_p(entry.purchases@, refund_of(price.amount as int)) == 0,
        r matches Option::Some(m) ==> {
            &&& m.to_address == entry.purchaser
            &&& m.denom == price.denom
            &&& m.amount == sum_p(entry.purchases@, refund_of(price.amount as int))
        },
{
    let n = entry.purchases.len();
    let ghost f = refund_of(price.amount as int);
    let mut amount: u128 = 0;
    proof {
        assert(entry.purchases@.take(0) =~= Seq::<Purchase>::empty());
    }
    for i in 0..n
        invariant
            n == entry.purchases@.len(),
            sum_p(entry.purchases@, f) <= u128::MAX,
            f == refund_of(price.amount as int),
            amount == sum_p(entry.purchases@.take(i as int), f),
    {
        proof {
            lemma_sum_p_split(entry.purchases@, i as int, f);
            lemma_sum_p_split(entry.purchases@.skip(i as int), 1, f);
            assert(entry.purchases@.skip(i as int).take(1) =~= seq![entry.purchases@[i as int]]);
            assert(entry.purchases@.skip(i as int).skip(1) =~= entry.purchases@.skip(i + 1));
            assert(sum_p(seq![entry.purchases@[i as int]], f) == f(entry.purchases@[i as int])) by {
                assert(seq![entry.purchases@[i as int]].drop_first() =~= Seq::<Purchase>::empty());
            }
            lemma_sum_p_nonneg(entry.purchases@.skip(i + 1), f);
            lemma_sum_p_nonneg(entry.purchases@.take(i as int), f);
            assert(entry.purchases@.take(i + 1) =~= entry.purchases@.take(i as int) + seq![
                entry.purchases@[i as int],
            ]);
            lemma_sum_p_concat(
                entry.purchases@.take(i as int),
                seq![entry.purchases@[i as int]],
                f,
            );
        }
        amount = amount + entry.purchases[i].tax_amount + price.amount;
    }
    proof {
        assert(entry.purchases@.take(n as int) =~= entry.purchases@);
    }
    if amount > 0 {
        Some(
            RefundMsg {
                to_address: entry.purchaser.clone(),
                denom: price.denom.clone(),
                amount,
            },
        )
    } else {
        None
    }
}


/// What one failure-path settlement step does, as a relation between the
/// engine before, the engine after and the instructions handed back.
pub open spec fn failure_step_ok(
    pre: Crowdfund,
    post: Crowdfund,
    resp: crate::types::EndSaleResponse,
    limit: Option<u32>,
) -> bool {
    let s = pre.state->Some_0;
    let l = spec_limit(limit);
    let m = min(l, pre.ledger@.len() as int);
    let b = min(l, pre.inventory@.len() as int);
    &&& resp.refunds@ == refund_msgs_of(pre.ledger@.take(m), s.price)
    &&& resp.burns@.len() == b
    &&& (forall|j: int| 0 <= j < b ==> (#[trigger] resp.burns@[j]).token_id@ == pre.inventory@[j])
    &&& resp.transfers@.len() == 0
    &&& resp.fee_msgs@.len() == 0
    &&& resp.payout is None
    &&& post.ledger@ == pre.ledger@.skip(m)
    &&& post.inventory@ == pre.inventory@.skip(b)
    &&& post.totals@ == (Totals {
        refunded: pre.totals@.refunded + total_refund(pre.ledger@.take(m), s.price.amount as int),
        burned: pre.totals@.burned + b,
        forfeited: pre.totals@.forfeited + records(pre.ledger@.take(m)).len(),
        ..pre.totals@
    })
    &&& (post.state is None <==> (m == pre.ledger@.len() && b == pre.inventory@.len()))
    &&& (post.state is Some ==> post.state == pre.state)
    &&& post.owner == pre.owner
    &&& post.config == pre.config
    &&& post.sale_conducted == pre.sale_conducted
}

/// What one success-path settlement step does: the payout the first time
/// around, then deliveries, or burns and the final clearing.
pub open spec fn success_step_ok(
    pre: Crowdfund,
    post: Crowdfund,
    resp: crate::types::EndSaleResponse,
    limit: Option<u32>,
) -> bool {
    let s = pre.state->Some_0;
    let l = spec_limit(limit);
    let paid = s.amount_to_send as int;
    &&& resp.refunds@.len() == 0
    &&& (s.amount_to_send == 0 ==> resp.payout is None)
    &&& (s.amount_to_send > 0 && s.recipient.msg is None ==> resp.payout == Option::Some(
        PayoutMsg::Direct {
            to_address: s.recipient.address,
            denom: s.price.denom,
            amount: s.amount_to_send,
        },
    ))
    &&& (s.amount_to_send > 0 && s.recipient.msg is Some ==> (resp.payout matches Option::Some(
        PayoutMsg::Routed { address, msg, denom, amount },
    ) && address == s.recipient.address && msg@ == s.recipient.msg->0@ && denom == s.price.denom
        && amount == s.amount_to_send))
    &&& (s.amount_transferred == s.amount_sold ==> {
        let b = min(l, pre.inventory@.len() as int);
        &&& resp.transfers@.len() == 0
        &&& resp.fee_msgs@.len() == 0
        &&& resp.burns@.len() == b
        &&& (forall|j: int|
            0 <= j < b ==> (#[trigger] resp.burns@[j]).token_id@ == pre.inventory@[j])
        &&& post.inventory@ == pre.inventory@.skip(b)
        &&& post.ledger@ == pre.ledger@
        &&& (post.state is None <==> b == pre.inventory@.len())
        &&& (post.state is Some ==> post.state == Option::Some(State { amount_to_send: 0, ..s }))
        &&& post.totals@ == (Totals {
            paid_out: pre.totals@.paid_out + paid,
            burned: pre.totals@.burned + b,
            ..pre.totals@
        })
    })
    &&& (s.amount_transferred < s.amount_sold ==> {
        let k = min(l, s.amount_sold - s.amount_transferred);
        let rl0 = records(pre.ledger@);
        &&& resp.burns@.len() == 0
        &&& resp.transfers@.len() == k
        &&& (forall|j: int|
            0 <= j < k ==> (#[trigger] resp.transfers@[j]).recipient == rl0[j].purchaser
                && resp.transfers@[j].token_id == rl0[j].token_id)
        &&& resp.fee_msgs@ == fee_concat(rl0.take(k))
        &&& records(post.ledger@) == rl0.skip(k)
        &&& post.inventory@ == pre.inventory@
        &&& post.state == Option::Some(
            State {
                amount_to_send: 0,
                amount_transferred: (s.amount_transferred + k) as u128,
                ..s
            },
        )
        &&& post.totals@ == (Totals {
            paid_out: pre.totals@.paid_out + paid,
            delivered: pre.totals@.delivered + k,
            fees_emitted: pre.totals@.fees_emitted + sum_p(
                rl0.take(k),
                fee_of(s.price.amount as int),
            ),
            ..pre.totals@
        })
    })
    &&& post.owner == pre.owner
    &&& post.config == pre.config
    &&& post.sale_conducted == pre.sale_conducted
}

impl Crowdfund {
    /// Takes up to `limit` still-unsold tokens out of the inventory, in
    /// ascending key order, and turns them into burn instructions for the
    /// registry.
    fn get_burn_messages(&mut self, limit: usize) -> (msgs: Vec<BurnMsg>)
        requires
            old(self).wf(),
        ensures
            final(self).wf(),
            ({
                let b = min(limit as int, old(self).inventory@.len() as int);
                &&& msgs@.len() == b
                &&& forall|j: int|
                    0 <= j < b ==> (#[trigger] msgs@[j]).token_id@ == old(self).inventory@[j]
                &&& final(self).inventory@ == old(self).inventory@.skip(b)
                &&& final(self).totals@ == (Totals {
                    burned: old(self).totals@.burned + b,
                    ..old(self).totals@
                })
                &&& final(self).state == old(self).state
                &&& final(self).ledger@ == old(self).ledger@
                &&& final(self).owner == old(self).owner
                &&& final(self).config == old(self).config
                &&& final(self).sale_conducted == old(self).sale_conducted
                &&& final(self).clock == old(self).clock
            }),
    {
        let ghost b = min(limit as int, self.inventory@.len() as int);
        let ids = self.inventory.take_first(limit);
        self.totals = Ghost(Totals { burned: self.totals@.burned + b, ..self.totals@ });
        let n = ids.len();
        let ghost idsv = ids@;
        let mut msgs: Vec<BurnMsg> = Vec::new();
        let mut remaining = ids;
        proof {
            assert(crate::seqs::string_views(idsv).len() == b);
        }
        for i in 0..n
            invariant
                n == idsv.len(),
                n == b,
                b <= old(self).inventory@.len(),
                remaining@ == idsv.skip(i as int),
                msgs@.len() == i,
                crate::seqs::string_views(idsv) == old(self).inventory@.take(b),
                forall|j: int|
                    0 <= j < i ==> (#[trigger] msgs@[j]).token_id@ == old(self).inventory@[j],
        {
            let id = remaining.remove(0);
            proof {
                assert(id == idsv[i as int]);
                assert(remaining@ =~= idsv.skip(i + 1));
                assert(crate::seqs::string_views(idsv)[i as int] == idsv[i as int]@);
                assert(old(self).inventory@.take(b)[i as int] == old(self).inventory@[i as int]);
            }
            msgs.push(BurnMsg { token_id: id });
            proof {
                assert(msgs@[i as int].token_id@ == old(self).inventory@[i as int]);
            }
        }
        proof {
            let rs = records(self.ledger@);
            assert forall|u: int| 0 <= u < rs.len() implies !self.inventory@.contains(
                (#[trigger] rs[u].token_id)@,
            ) by {
                if self.inventory@.contains(rs[u].token_id@) {
                    let w = choose|w: int|
                        0 <= w < self.inventory@.len() && self.inventory@[w] == rs[u].token_id@;
                    assert(old(self).inventory@[w + b] == rs[u].token_id@);
                    assert(old(self).inventory@.contains(rs[u].token_id@));
                }
            }
            assert(self.wf());
        }
        msgs
    }

    /// Ends the settled sale: removes the sale state and re-arms the
    /// engine.
    fn clear_state(&mut self)
        requires
            old(self).wf(),
            old(self).ledger@.len() == 0,
            old(self).inventory@.len() == 0,
            old(self).state matches Option::Some(s) && (s.amount_sold >= s.min_tokens_sold
                ==> s.amount_to_send == 0),
        ensures
            final(self).wf(),
            final(self).state is None,
            final(self).inventory@ == old(self).inventory@,
            final(self).ledger@ == old(self).ledger@,
            final(self).totals == old(self).totals,
            final(self).owner == old(self).owner,
            final(self).config == old(self).config,
            final(self).sale_conducted == old(self).sale_conducted,
            final(self).clock == old(self).clock,
    {
        proof {
            assert(records(self.ledger@) =~= Seq::<Purchase>::empty());
        }
        self.state = None;
    }

    /// One bounded step of failure settlement: refunds up to `limit`
    /// buyers, each the merged worth of all their units, burns up to
    /// `limit` unsold tokens, and clears the sale once both backlogs are
    /// empty.
    #[verifier::rlimit(60)]
    fn issue_refunds_and_burn_tokens(&mut self, limit: Option<u32>) -> (r: Result<
        crate::types::EndSaleResponse,
        ContractError,
    >)
        requires
            old(self).wf(),
            old(self).state matches Option::Some(s) && s.amount_sold < s.min_tokens_sold,
            old(self).state->Some_0.expiration.spec_is_expired(old(self).clock@) || old(
                self,
            ).inventory@.len() == 0,
        ensures
            final(self).wf(),
            r is Err ==> *final(self) == *old(self) && r == Result::<
                crate::types::EndSaleResponse,
                ContractError,
            >::Err(ContractError::LimitMustNotBeZero),
            r is Ok <==> spec_limit(limit) > 0,
            r is Ok ==> failure_step_ok(*old(self), *final(self), r->Ok_0, limit)
                && final(self).clock == old(self).clock,
    {
        let limit_r = resolve_limit(limit);
        if limit_r == 0 {
            return Err(ContractError::LimitMustNotBeZero);
        }
        let price = match &self.state {
            Some(s) => s.price.duplicate(),
            None => {
                // Unreachable: a sale is open by this function's contract.
                proof {
                    assert(false);
                }
                Coin { denom: String::new(), amount: 0 }
            },
        };
        let ghost s0 = old(self).state->Some_0;
        let ghost l0 = self.ledger@;
        let ghost m = min(limit_r as int, l0.len() as int);
        let ghost fr = refund_of(price.amount as int);
        let taken = self.ledger.take_first_entries(limit_r as usize);
        let ghost takenv = taken@;
        proof {
            assert(takenv == l0.take(m));
            lemma_records_split(l0, m);
            self.totals = Ghost(
                Totals {
                    refunded: self.totals@.refunded + total_refund(takenv, price.amount as int),
                    forfeited: self.totals@.forfeited + records(takenv).len(),
                    ..self.totals@
                },
            );
            // The books after removing the refunded entries.
            lemma_refund_split_sum(records(takenv), price.amount as int);
            lemma_sum_p_concat(records(takenv), records(l0.skip(m)), remainder_of());
            lemma_sum_p_concat(records(takenv), records(l0.skip(m)), fee_of(price.amount as int));
            lemma_sum_p_nonneg(records(takenv), fr);
            let rl0 = records(l0);
            let cnt = records(takenv).len() as int;
            let lf = self.ledger@;
            assert(lf == l0.skip(m));
            assert(records(lf) == records(l0.skip(m)));
            assert(rl0 == records(takenv) + records(lf));
            assert(forall|u: int| 0 <= u < records(lf).len() ==> records(lf)[u] == rl0[u + cnt]);
            assert forall|i: int| 0 <= i < lf.len() implies (#[trigger] lf[i].purchases)@.len()
                <= s0.max_amount_per_wallet && sum_p(
                lf[i].purchases@,
                refund_of(s0.price.amount as int),
            ) <= u128::MAX by {
                assert(lf[i] == l0[i + m]);
            }
            assert forall|u: int| 0 <= u < records(lf).len() implies {
                let p = #[trigger] records(lf)[u];
                &&& p.remainder@ <= s0.price.amount
                &&& s0.price.amount + p.tax_amount <= u128::MAX
                &&& !self.inventory@.contains(p.token_id@)
            } by {
                assert(records(lf)[u] == rl0[u + cnt]);
                assert(rl0[u + cnt].remainder@ <= s0.price.amount && s0.price.amount + rl0[u
                    + cnt].tax_amount <= u128::MAX);
                assert(!old(self).inventory@.contains(rl0[u + cnt].token_id@));
            }
            assert forall|u: int, v: int|
                0 <= u < records(lf).len() && 0 <= v < records(lf).len() && u != v implies (
            #[trigger] records(lf)[u].token_id)@ != (#[trigger] records(lf)[v].token_id)@ by {
                assert(records(lf)[u] == rl0[u + cnt]);
                assert(records(lf)[v] == rl0[v + cnt]);
            }
            if records(lf).len() == s0.amount_sold {
                // Nothing was removed, so the ledger is what it was.
                assert(m == 0) by {
                    if m > 0 {
                        assert(takenv[0].purchases@.len() > 0) by {
                            assert(takenv[0] == l0[0]);
                        }
                        assert(records(takenv)[0] == takenv[0].purchases@[0]);
                        assert(cnt > 0);
                    }
                }
                assert(lf =~= l0);
            }
            assert(self.sale_ok());
            assert(self.money_ok());
            assert(self.tokens_ok());
            assert(self.wf());
        }
        // Build one merged refund per removed entry.
        let n = taken.len();
        let mut rest = taken;
        let mut refunds: Vec<RefundMsg> = Vec::new();
        let ghost pricev = price;
        for i in 0..n
            invariant
                n == takenv.len(),
                rest@ == takenv.skip(i as int),
                pricev == price,
                price.amount == s0.price.amount,
                refunds@ == refund_msgs_of(takenv.take(i as int), pricev),
                forall|j: int|
                    0 <= j < takenv.len() ==> sum_p(
                        (#[trigger] takenv[j]).purchases@,
                        refund_of(pricev.amount as int),
                    ) <= u128::MAX,
        {
            let e = rest.remove(0);
            proof {
                assert(e == takenv[i as int]);
                assert(rest@ =~= takenv.skip(i + 1));
                assert(takenv.take(i + 1) =~= takenv.take(i as int).push(e));
                lemma_refund_msgs_push(takenv.take(i as int), e, pricev);
            }
            let msg = process_refund(&e, &price);
            match msg {
                Some(mres) => {
                    refunds.push(mres);
                    proof {
                        assert(refunds@ =~= refund_msgs_of(takenv.take(i + 1), pricev));
                    }
                },
                None => {
                    proof {
                        assert(refunds@ =~= refund_msgs_of(takenv.take(i + 1), pricev));
                    }
                },
            }
        }
        proof {
            assert(takenv.take(n as int) =~= takenv);
        }
        // Burn up to `limit` unsold tokens.
        let burns = self.get_burn_messages(limit_r as usize);
        // Both backlogs empty: the sale is over.
        if self.ledger.num_entries() == 0 && self.inventory.count() == 0 {
            proof {
                assert(self.state->Some_0.amount_sold < self.state->Some_0.min_tokens_sold);
            }
            self.clear_state();
        }
        Ok(
            crate::types::EndSaleResponse {
                refunds,
                burns,
                transfers: Vec::new(),
                fee_msgs: Vec::new(),
                payout: None,
            },
        )
    }

    /// One bounded step of success settlement: pays the accrued proceeds
    /// out the first time around, then either delivers up to `limit`
    /// reserved units in buyer-then-purchase order, or — once every sold
    /// unit is delivered — burns up to `limit` leftover tokens and clears
    /// the sale when none remain.
    #[verifier::rlimit(80)]
    #[verifier::spinoff_prover]
    fn transfer_tokens_and_send_funds(&mut self, limit: Option<u32>) -> (r: Result<
        crate::types::EndSaleResponse,
        ContractError,
    >)
        requires
            old(self).wf(),
            old(self).state matches Option::Some(s) && s.amount_sold >= s.min_tokens_sold,
        ensures
            final(self).wf(),
            r is Err ==> *final(self) == *old(self) && r == Result::<
                crate::types::EndSaleResponse,
                ContractError,
            >::Err(ContractError::LimitMustNotBeZero),
            r is Ok <==> spec_limit(limit) > 0,
            r is Ok ==> success_step_ok(*old(self), *final(self), r->Ok_0, limit)
                && final(self).clock == old(self).clock,
    {
        let limit_r = resolve_limit(limit);
        if limit_r == 0 {
            return Err(ContractError::LimitMustNotBeZero);
        }
        let mut st = self.state.take().unwrap();
        let ghost s0 = st;
        let ghost l0 = self.ledger@;
        let ghost rl0 = records(l0);
        let ghost f_fee = fee_of(s0.price.amount as int);
        // Pay the proceeds out once: the accrued amount is zeroed with the
        // payment, so a repeated call cannot pay twice.
        let mut payout: Option<PayoutMsg> = None;
        if st.amount_to_send > 0 {
            let amount = st.amount_to_send;
            let pm = match &st.recipient.msg {
                None => PayoutMsg::Direct {
                    to_address: st.recipient.address.clone(),
                    denom: st.price.denom.clone(),
                    amount,
                },
                Some(mbytes) => PayoutMsg::Routed {
                    address: st.recipient.address.clone(),
                    msg: crate::purchase::copy_bytes(mbytes),
                    denom: st.price.denom.clone(),
                    amount,
                },
            };
            payout = Some(pm);
            st.amount_to_send = 0;
            self.totals = Ghost(
                Totals { paid_out: self.totals@.paid_out + amount, ..self.totals@ },
            );
        }
        if st.amount_transferred == st.amount_sold {
            // Every sold unit is delivered; burn what never sold.
            proof {
                assert(rl0.len() == 0);
                assert(self.ledger@.len() == 0) by {
                    if l0.len() > 0 {
                        assert(records(l0)[0] == l0[0].purchases@[0]);
                    }
                }
                assert(records(self.ledger@) =~= Seq::<Purchase>::empty());
                assert(self.wf());
            }
            let burns = self.get_burn_messages(limit_r as usize);
            let ghost stg = st;
            self.state = Some(st);
            proof {
                assert(records(self.ledger@) =~= Seq::<Purchase>::empty());
                assert(self.wf());
            }
            if self.inventory.count() == 0 {
                self.clear_state();
            }
            return Ok(
                crate::types::EndSaleResponse {
                    refunds: Vec::new(),
                    burns,
                    transfers: Vec::new(),
                    fee_msgs: Vec::new(),
                    payout,
                },
            );
        }
        // Deliver the next `limit` reserved units, oldest buyers first.
        let total = st.amount_sold - st.amount_transferred;
        let k: usize = if (limit_r as u128) <= total {
            limit_r as usize
        } else {
            total as usize
        };
        proof {
            assert(rl0.len() == st.amount_sold - st.amount_transferred);
            assert(k <= records(self.ledger@).len());
        }
        let taken_r = self.ledger.take_first_records(k);
        let taken = taken_r.0;
        let ghost gm = taken_r.1@;
        let ghost gn = taken_r.2@;
        let ghost takenv = taken@;
        let ghost lf = self.ledger@;
        let tn = taken.len();
        let mut rest = taken;
        let mut transfers: Vec<crate::types::TransferMsg> = Vec::new();
        let mut fees: Vec<FeeMsg> = Vec::new();
        proof {
            assert(fee_concat(takenv.take(0)) =~= Seq::<FeeMsg>::empty()) by {
                assert(takenv.take(0) =~= Seq::<Purchase>::empty());
            }
        }
        for i in 0..tn
            invariant
                tn == takenv.len(),
                rest@ == takenv.skip(i as int),
                transfers@.len() == i,
                forall|j: int|
                    0 <= j < i ==> (#[trigger] transfers@[j]).recipient == takenv[j].purchaser
                        && transfers@[j].token_id == takenv[j].token_id,
                fees@ == fee_concat(takenv.take(i as int)),
        {
            let p = rest.remove(0);
            proof {
                assert(p == takenv[i as int]);
                assert(rest@ =~= takenv.skip(i + 1));
                assert(takenv.take(i + 1) =~= takenv.take(i as int).push(p));
                lemma_fee_concat_push(takenv.take(i as int), p);
            }
            let mut pmsgs = p.msgs;
            transfers.push(
                crate::types::TransferMsg { recipient: p.purchaser, token_id: p.token_id },
            );
            fees.append(&mut pmsgs);
        }
        proof {
            assert(takenv.take(tn as int) =~= takenv);
        }
        st.amount_transferred = st.amount_transferred + (k as u128);
        self.totals = Ghost(
            Totals {
                delivered: self.totals@.delivered + k,
                fees_emitted: self.totals@.fees_emitted + sum_p(takenv, f_fee),
                ..self.totals@
            },
        );
        let ghost stg = st;
        self.state = Some(st);
        proof {
            let pre = *old(self);
            assert(takenv == rl0.take(k as int));
            assert(records(lf) == rl0.skip(k as int));
            // Sums over what left and what stayed.
            lemma_records_split(l0, gm);
            lemma_sum_p_split(rl0, k as int, f_fee);
            lemma_sum_p_split(rl0, k as int, remainder_of());
            lemma_sum_p_nonneg(takenv, f_fee);
            // The entries that remain are suffixes of entries that were
            // already well formed.
            assert forall|i: int| 0 <= i < lf.len() implies (#[trigger] lf[i].purchases)@.len()
                <= s0.max_amount_per_wallet && sum_p(
                lf[i].purchases@,
                refund_of(s0.price.amount as int),
            ) <= u128::MAX by {
                if gn == 0 || i >= 1 {
                    let i0: int = if gn == 0 {
                        i + gm
                    } else {
                        i + gm
                    };
                    assert(lf[i] == l0[i0]);
                } else {
                    assert(lf[0].purchases@ == l0[gm].purchases@.skip(gn));
                    lemma_sum_p_split(l0[gm].purchases@, gn, refund_of(s0.price.amount as int));
                    lemma_sum_p_nonneg(
                        l0[gm].purchases@.take(gn),
                        refund_of(s0.price.amount as int),
                    );
                }
            }
            assert forall|u: int| 0 <= u < records(lf).len() implies {
                let p = #[trigger] records(lf)[u];
                &&& p.remainder@ <= stg.price.amount
                &&& stg.price.amount + p.tax_amount <= u128::MAX
                &&& !self.inventory@.contains(p.token_id@)
            } by {
                assert(records(lf)[u] == rl0[u + k]);
                assert(rl0[u + k].remainder@ <= s0.price.amount && s0.price.amount + rl0[u
                    + k].tax_amount <= u128::MAX);
                assert(!pre.inventory@.contains(rl0[u + k].token_id@));
            }
            assert forall|u: int, v: int|
                0 <= u < records(lf).len() && 0 <= v < records(lf).len() && u != v implies (
            #[trigger] records(lf)[u].token_id)@ != (#[trigger] records(lf)[v].token_id)@ by {
                assert(records(lf)[u] == rl0[u + k]);
                assert(records(lf)[v] == rl0[v + k]);
            }
            assert(self.sale_ok());
            assert(self.money_ok());
            assert(self.tokens_ok());
            assert(self.wf());
        }
        Ok(
            crate::types::EndSaleResponse {
                refunds: Vec::new(),
                burns: Vec::new(),
                transfers,
                fee_msgs: fees,
                payout,
            },
        )
    }

    /// One bounded step of settlement, callable by anyone once the sale
    /// window has closed by expiry or by sell-out.
    ///
    /// A sale short of its minimum refunds and burns; one that met it pays
    /// out and delivers.  Repeated calls with any positive `limit` drain
    /// the backlog, and the call after which both backlogs are empty
    /// clears the sale.
    pub fn execute_end_sale(
        &mut self,
        funds: &Vec<Coin>,
        block: &BlockInfo,
        limit: Option<u32>,
    ) -> (r: Result<crate::types::EndSaleResponse, ContractError>)
        requires
            old(self).wf(),
            block_le(old(self).clock@, *block),
        ensures
            final(self).wf(),
            r is Err ==> *final(self) == *old(self),
            funds@.len() != 0 ==> r == Result::<crate::types::EndSaleResponse, ContractError>::Err(
                ContractError::InvalidFunds,
            ),
            funds@.len() == 0 && old(self).state is None ==> r == Result::<
                crate::types::EndSaleResponse,
                ContractError,
            >::Err(ContractError::NoOngoingSale),
            funds@.len() == 0 && (old(self).state matches Option::Some(s)
                && !s.expiration.spec_is_expired(*block)) && old(self).inventory@.len() != 0 ==> r
                == Result::<crate::types::EndSaleResponse, ContractError>::Err(
                ContractError::SaleNotEnded,
            ),
            funds@.len() == 0 && (old(self).state matches Option::Some(s)
                && (s.expiration.spec_is_expired(*block) || old(self).inventory@.len() == 0))
                && spec_limit(limit) == 0 ==> r == Result::<
                crate::types::EndSaleResponse,
                ContractError,
            >::Err(ContractError::LimitMustNotBeZero),
            r is Ok <==> (funds@.len() == 0 && (old(self).state matches Option::Some(s)
                && (s.expiration.spec_is_expired(*block) || old(self).inventory@.len() == 0))
                && spec_limit(limit) > 0),
            r is Ok ==> ({
                let pre_bumped = Crowdfund { clock: Ghost(*block), ..*old(self) };
                let s = old(self).state->Some_0;
                &&& final(self).clock@ == *block
                &&& (s.amount_sold < s.min_tokens_sold ==> failure_step_ok(
                    pre_bumped,
                    *final(self),
                    r->Ok_0,
                    limit,
                ))
                &&& (s.amount_sold >= s.min_tokens_sold ==> success_step_ok(
                    pre_bumped,
                    *final(self),
                    r->Ok_0,
                    limit,
                ))
            }),
    {
        if funds.len() != 0 {
            return Err(ContractError::InvalidFunds);
        }
        let (expiration, failing) = match &self.state {
            None => {
                return Err(ContractError::NoOngoingSale);
            },
            Some(s) => (s.expiration, s.amount_sold < s.min_tokens_sold),
        };
        let inventory_empty = self.inventory.count() == 0;
        if !expiration.is_expired(block) && !inventory_empty {
            return Err(ContractError::SaleNotEnded);
        }
        let ghost pre = *self;
        self.clock = Ghost(*block);
        proof {
            // Advancing the clock's high-water mark preserves the
            // invariant: a deadline that had passed stays passed.
            let s0 = self.state->Some_0;
            if s0.amount_sold < s0.min_tokens_sold && records(self.ledger@).len()
                < s0.amount_sold && s0.expiration.spec_is_expired(pre.clock@) {
                crate::types::lemma_expiration_monotone(s0.expiration, pre.clock@, *block);
            }
            assert(self.wf());
        }
        if failing {
            let r = self.issue_refunds_and_burn_tokens(limit);
            if r.is_err() {
                self.clock = Ghost(pre.clock@);
            }
            r
        } else {
            let r = self.transfer_tokens_and_send_funds(limit);
            if r.is_err() {
                self.clock = Ghost(pre.clock@);
            }
            r
        }
    }

    /// Lets one buyer of a failed sale claim their own refund ahead of the
    /// batch sweep: the merged worth of all their units, and their ledger
    /// entry is removed.
    #[verifier::rlimit(60)]
    pub fn execute_claim_refund(&mut self, sender: &String, funds: &Vec<Coin>, block: &BlockInfo)
        -> (r: Result<Option<RefundMsg>, ContractError>)
        requires
            old(self).wf(),
            block_le(old(self).clock@, *block),
        ensures
            final(self).wf(),
            r is Err ==> *final(self) == *old(self),
            funds@.len() != 0 ==> r == Result::<Option<RefundMsg>, ContractError>::Err(
                ContractError::InvalidFunds,
            ),
            funds@.len() == 0 && old(self).state is None ==> r == Result::<
                Option<RefundMsg>,
                ContractError,
            >::Err(ContractError::NoOngoingSale),
            funds@.len() == 0 && (old(self).state matches Option::Some(s)
                && !s.expiration.spec_is_expired(*block)) ==> r == Result::<
                Option<RefundMsg>,
                ContractError,
            >::Err(ContractError::SaleNotEnded),
            funds@.len() == 0 && (old(self).state matches Option::Some(s)
                && s.expiration.spec_is_expired(*block) && s.amount_sold >= s.min_tokens_sold)
                ==> r == Result::<Option<RefundMsg>, ContractError>::Err(
                ContractError::MinSalesExceeded,
            ),
            funds@.len() == 0 && (old(self).state matches Option::Some(s)
                && s.expiration.spec_is_expired(*block) && s.amount_sold < s.min_tokens_sold)
                && !has_entry(old(self).ledger@, sender@) ==> r == Result::<
                Option<RefundMsg>,
                ContractError,
            >::Err(ContractError::NoPurchases),
            r is Ok <==> (funds@.len() == 0 && (old(self).state matches Option::Some(s)
                && s.expiration.spec_is_expired(*block) && s.amount_sold < s.min_tokens_sold)
                && has_entry(old(self).ledger@, sender@)),
            r is Ok ==> ({
                let s = old(self).state->Some_0;
                let ei = entry_at(old(self).ledger@, sender@);
                let e = old(self).ledger@[ei];
                let owed = sum_p(e.purchases@, refund_of(s.price.amount as int));
                &&& r->Ok_0 is None <==> owed == 0
                &&& (r->Ok_0 matches Option::Some(m) ==> m.to_address == e.purchaser && m.denom
                    == s.price.denom && m.amount == owed)
                &&& final(self).ledger@ == old(self).ledger@.remove(ei)
                &&& final(self).inventory@ == old(self).inventory@
                &&& final(self).state == old(self).state
                &&& final(self).totals@ == (Totals {
                    refunded: old(self).totals@.refunded + owed,
                    forfeited: old(self).totals@.forfeited + e.purchases@.len(),
                    ..old(self).totals@
                })
                &&& final(self).clock@ == *block
                &&& final(self).owner == old(self).owner
                &&& final(self).config == old(self).config
                &&& final(self).sale_conducted == old(self).sale_conducted
            }),
    {
        if funds.len() != 0 {
            return Err(ContractError::InvalidFunds);
        }
        let price = match &self.state {
            None => {
                return Err(ContractError::NoOngoingSale);
            },
            Some(s) => {
                if !s.expiration.is_expired(block) {
                    return Err(ContractError::SaleNotEnded);
                }
                if s.amount_sold >= s.min_tokens_sold {
                    return Err(ContractError::MinSalesExceeded);
                }
                s.price.duplicate()
            },
        };
        let ghost s0 = self.state->Some_0;
        let ghost l0 = self.ledger@;
        let ghost rl0 = records(l0);
        let ghost ei = entry_at(l0, sender@);
        let taken = self.ledger.take_entry(sender);
        let entry = match taken {
            None => {
                return Err(ContractError::NoPurchases);
            },
            Some(e) => e,
        };
        let ghost owed = sum_p(entry.purchases@, refund_of(s0.price.amount as int));
        proof {
            assert(l0[ei].purchases@.len() <= s0.max_amount_per_wallet);
            assert(sum_p(l0[ei].purchases@, refund_of(s0.price.amount as int)) <= u128::MAX);
        }
        let msg = process_refund(&entry, &price);
        self.totals = Ghost(
            Totals {
                refunded: self.totals@.refunded + owed,
                forfeited: self.totals@.forfeited + entry.purchases@.len(),
                ..self.totals@
            },
        );
        self.clock = Ghost(*block);
        proof {
            let lf = self.ledger@;
            lemma_records_mid(l0, ei);
            let sega = records(l0.take(ei));
            let segb = records(l0.skip(ei + 1));
            assert(records(lf) == sega + segb);
            lemma_sum_p_concat(sega, segb, remainder_of());
            lemma_sum_p_concat(sega, segb, fee_of(s0.price.amount as int));
            lemma_sum_p_concat(sega + entry.purchases@, segb, remainder_of());
            lemma_sum_p_concat(sega, entry.purchases@, remainder_of());
            lemma_sum_p_concat(sega + entry.purchases@, segb, fee_of(s0.price.amount as int));
            lemma_sum_p_concat(sega, entry.purchases@, fee_of(s0.price.amount as int));
            assert(rl0 =~= (sega + entry.purchases@) + segb);
            lemma_refund_split_sum(entry.purchases@, s0.price.amount as int);
            lemma_sum_p_nonneg(entry.purchases@, refund_of(s0.price.amount as int));
            // The entries that remain are exactly the other buyers'.
            assert forall|i: int| 0 <= i < lf.len() implies (#[trigger] lf[i].purchases)@.len()
                <= s0.max_amount_per_wallet && sum_p(
                lf[i].purchases@,
                refund_of(s0.price.amount as int),
            ) <= u128::MAX by {
                let i0: int = if i < ei {
                    i
                } else {
                    i + 1
                };
                assert(lf[i] == l0[i0]);
            }
            assert forall|u: int| 0 <= u < records(lf).len() implies {
                let p = #[trigger] records(lf)[u];
                &&& p.remainder@ <= s0.price.amount
                &&& s0.price.amount + p.tax_amount <= u128::MAX
                &&& !self.inventory@.contains(p.token_id@)
            } by {
                let u0: int = if u < sega.len() {
                    u
                } else {
                    u + entry.purchases@.len()
                };
                assert(records(lf)[u] == rl0[u0]);
                assert(rl0[u0].remainder@ <= s0.price.amount && s0.price.amount
                    + rl0[u0].tax_amount <= u128::MAX);
                assert(!old(self).inventory@.contains(rl0[u0].token_id@));
            }
            assert forall|u: int, v: int|
                0 <= u < records(lf).len() && 0 <= v < records(lf).len() && u != v implies (
            #[trigger] records(lf)[u].token_id)@ != (#[trigger] records(lf)[v].token_id)@ by {
                let u0: int = if u < sega.len() {
                    u
                } else {
                    u + entry.purchases@.len()
                };
                let v0: int = if v < sega.len() {
                    v
                } else {
                    v + entry.purchases@.len()
                };
                assert(records(lf)[u] == rl0[u0]);
                assert(records(lf)[v] == rl0[v0]);
            }
            // A claim strictly shrinks the outstanding records, and the
            // window has demonstrably closed.
            assert(s0.expiration.spec_is_expired(self.clock@));
            assert(self.wf());
        }
        Ok(msg)
    }
}

} // verus!
