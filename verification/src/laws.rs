//! The engine's global laws, each proved from the contracts and the
//! invariant alone.

use vstd::prelude::*;

use crate::contract::Crowdfund;
use crate::ledger::buyer_records;
use crate::ledger::entry_at;
use crate::ledger::entry_keys;
use crate::ledger::has_entry;
use crate::ledger::lemma_records_concat;
use crate::ledger::lemma_records_split;
use crate::ledger::lemma_sum_p_concat;
use crate::ledger::records;
use crate::ledger::refund_of;
use crate::ledger::sum_p;
use crate::ledger::LedgerEntry;
use crate::ledger::Purchase;
use crate::settlement::fee_concat;
use crate::settlement::refund_msgs_of;
use crate::settlement::total_refund;
use crate::types::Coin;

verus! {

/// Law: while a sale can still sell — neither expired at the engine's
/// clock nor out of inventory, with nothing delivered yet — the
/// outstanding purchase records number exactly the units sold, and every
/// minted token is inventory, a sold unit, or settled in an earlier sale.
pub proof fn lemma_outstanding_matches_units_sold(c: Crowdfund)
    requires
        c.wf(),
        c.state is Some,
        c.state->Some_0.amount_transferred == 0,
        !c.state->Some_0.expiration.spec_is_expired(c.clock@),
        c.inventory@.len() > 0,
    ensures
        records(c.ledger@).len() == c.state->Some_0.amount_sold,
        c.totals@.minted == c.inventory@.len() + c.state->Some_0.amount_sold + c.totals@.burned
            + c.totals@.delivered + c.totals@.forfeited,
{
}

/// Law: a buyer never holds more outstanding purchase records than the
/// sale's per-wallet maximum, whatever the interleaving of purchase calls
/// that led here.
pub proof fn lemma_wallet_limit(c: Crowdfund, buyer: Seq<char>)
    requires
        c.wf(),
        c.state is Some,
    ensures
        buyer_records(c.ledger@, buyer).len() <= c.state->Some_0.max_amount_per_wallet,
{
    if has_entry(c.ledger@, buyer) {
        let i = entry_at(c.ledger@, buyer);
        assert(c.ledger@[i].purchases@.len() <= c.state->Some_0.max_amount_per_wallet);
    }
}

/// The refund instructions of two runs of entries concatenate.
pub proof fn lemma_refund_msgs_concat(a: Seq<LedgerEntry>, b: Seq<LedgerEntry>, price: Coin)
    ensures
        refund_msgs_of(a + b, price) == refund_msgs_of(a, price) + refund_msgs_of(b, price),
    decreases a.len(),
{
    if a.len() == 0 {
        assert(a + b =~= b);
        assert(refund_msgs_of(a, price) + refund_msgs_of(b, price) =~= refund_msgs_of(b, price));
    } else {
        assert((a + b).drop_first() =~= a.drop_first() + b);
        lemma_refund_msgs_concat(a.drop_first(), b, price);
        assert((a + b)[0] == a[0]);
        assert(refund_msgs_of(a + b, price) =~= refund_msgs_of(a, price) + refund_msgs_of(
            b,
            price,
        ));
    }
}

/// Law: batching does not change what a failed sale refunds.  Draining a
/// backlog in one batch or split at any point into two yields the same
/// refund instructions in the same order, and the same total amount; by
/// induction, any sequence of positive batch sizes refunds the same.
pub proof fn lemma_refund_batching(entries: Seq<LedgerEntry>, price: Coin, k: int)
    requires
        0 <= k <= entries.len(),
    ensures
        refund_msgs_of(entries, price) == refund_msgs_of(entries.take(k), price) + refund_msgs_of(
            entries.skip(k),
            price,
        ),
        total_refund(entries, price.amount as int) == total_refund(
            entries.take(k),
            price.amount as int,
        ) + total_refund(entries.skip(k), price.amount as int),
{
    assert(entries =~= entries.take(k) + entries.skip(k));
    lemma_refund_msgs_concat(entries.take(k), entries.skip(k), price);
    lemma_records_split(entries, k);
    lemma_sum_p_concat(
        records(entries.take(k)),
        records(entries.skip(k)),
        refund_of(price.amount as int),
    );
}

/// The fee instructions of two runs of purchases concatenate.
pub proof fn lemma_fee_concat_split(rs: Seq<Purchase>, k: int)
    requires
        0 <= k <= rs.len(),
    ensures
        fee_concat(rs) == fee_concat(rs.take(k)) + fee_concat(rs.skip(k)),
    decreases k,
{
    if k == 0 {
        assert(rs.take(0) =~= Seq::<Purchase>::empty());
        assert(rs.skip(0) =~= rs);
        assert(fee_concat(rs.take(0)) + fee_concat(rs.skip(0)) =~= fee_concat(rs));
    } else {
        assert(rs.take(k).drop_first() =~= rs.drop_first().take(k - 1));
        assert(rs.skip(k) =~= rs.drop_first().skip(k - 1));
        assert(rs.take(k)[0] == rs[0]);
        lemma_fee_concat_split(rs.drop_first(), k - 1);
        assert(fee_concat(rs) =~= fee_concat(rs.take(k)) + fee_concat(rs.skip(k)));
    }
}

/// Law: batching does not change what a successful sale delivers.
/// Draining the delivery backlog in one batch or split at any point into
/// two touches the same purchases in the same order — the second batch
/// continues exactly where the first stopped — and emits the same fee
/// instructions.
pub proof fn lemma_transfer_batching(rs: Seq<Purchase>, k: int)
    requires
        0 <= k <= rs.len(),
    ensures
        rs.take(k) + rs.skip(k) == rs,
        fee_concat(rs) == fee_concat(rs.take(k)) + fee_concat(rs.skip(k)),
{
    assert(rs.take(k) + rs.skip(k) =~= rs);
    lemma_fee_concat_split(rs, k);
}

/// Law: conservation of currency.  At any moment, everything ever
/// collected from buyers is refunded, paid out, bound in emitted fee
/// instructions, or still owed; once no sale is open nothing is owed, so
/// collected equals refunded plus paid out plus emitted fees — and for a
/// sale without fees or taxes, refunded plus paid out exactly.
pub proof fn lemma_conservation(c: Crowdfund)
    requires
        c.wf(),
    ensures
        c.totals@.collected == c.totals@.refunded + c.totals@.paid_out + c.totals@.fees_emitted
            + c.pending_payout() + c.fee_obligations(),
        c.state is None ==> c.totals@.collected == c.totals@.refunded + c.totals@.paid_out
            + c.totals@.fees_emitted,
        c.state is None && c.totals@.fees_emitted == 0 ==> c.totals@.collected
            == c.totals@.refunded + c.totals@.paid_out,
{
}

/// Law: conservation of tokens.  Every token ever minted into the pool is
/// still unsold inventory, reserved by exactly one outstanding purchase,
/// burned, delivered to a buyer, or forfeited to the registry sweep with a
/// refund — and the reserved tokens are pairwise distinct and disjoint
/// from the inventory.
pub proof fn lemma_token_conservation(c: Crowdfund)
    requires
        c.wf(),
    ensures
        c.totals@.minted == c.inventory@.len() + records(c.ledger@).len() + c.totals@.burned
            + c.totals@.delivered + c.totals@.forfeited,
        forall|i: int, j: int|
            0 <= i < records(c.ledger@).len() && 0 <= j < records(c.ledger@).len() && i != j ==> (
            #[trigger] records(c.ledger@)[i].token_id)@ != (#[trigger] records(
                c.ledger@,
            )[j].token_id)@,
        forall|i: int|
            0 <= i < records(c.ledger@).len() ==> !c.inventory@.contains(
                (#[trigger] records(c.ledger@)[i].token_id)@,
            ),
{
}

} // verus!
