//! The sale engine: one contract value holding the configuration, the
//! optional sale state, the unsold-token inventory and the purchase ledger.
//!
//! Ghost running totals account for every token and every unit of currency
//! that ever crossed the engine's boundary; the well-formedness invariant
//! ties them to the live state, and the conservation laws read them off.

use vstd::prelude::*;

use crate::error::ContractError;
use crate::inventory::Inventory;
use crate::ledger::fee_of;
use crate::ledger::ledger_wf;
use crate::ledger::records;
use crate::ledger::remainder_of;
use crate::ledger::sum_p;
use crate::ledger::Ledger;
use crate::ledger::LedgerEntry;
use crate::ledger::Purchase;
use crate::state::Config;
use crate::state::State;
use crate::types::BlockInfo;
use crate::types::block_le;
use crate::types::Coin;
use crate::types::CrowdfundMintMsg;
use crate::types::Expiration;
use crate::types::MintMsg;
use crate::types::Recipient;

verus! {

/// The most ledger entries or unsold tokens one settlement call touches.
pub const MAX_LIMIT: u32 = 100;

/// The batch size used when a settlement call names none.
pub const DEFAULT_LIMIT: u32 = 50;

/// The most tokens one mint call may create.
pub const MAX_MINT_LIMIT: u32 = 100;

/// Running totals over the whole life of the contract, in ghost code only.
pub struct Totals {
    /// Tokens ever added to the sale inventory.
    pub minted: int,
    /// Tokens burned after failed or cleared sales.
    pub burned: int,
    /// Tokens delivered to their buyers.
    pub delivered: int,
    /// Tokens of refunded units, abandoned to the registry's own sweep.
    pub forfeited: int,
    /// Currency collected from buyers for reserved units.
    pub collected: int,
    /// Currency sent back to buyers of failed sales.
    pub refunded: int,
    /// Currency paid out to sale recipients.
    pub paid_out: int,
    /// Currency bound in fee instructions emitted with deliveries.
    pub fees_emitted: int,
}

/// The sale engine.
pub struct Crowdfund {
    /// The only address allowed to mint and to start sales.
    pub owner: String,
    pub config: Config,
    /// One-way latch: true once any sale has ever started.
    pub sale_conducted: bool,
    /// The active sale, if one is running or settling.
    pub state: Option<State>,
    pub inventory: Inventory,
    pub ledger: Ledger,
    /// Ghost running totals; see [`Totals`].
    pub totals: Ghost<Totals>,
    /// Ghost high-water mark of the monotone block clock.
    pub clock: Ghost<BlockInfo>,
}

impl Crowdfund {
    /// Currency owed to the payout recipient and not yet paid or refunded.
    ///
    /// While a sale is failing, the recipient share of every outstanding
    /// purchase is still owed back to its buyer; while it is active or
    /// succeeding, the accrued payout carries the whole share.
    pub open spec fn pending_payout(self) -> int {
        match self.state {
            Option::None => 0,
            Option::Some(s) => if s.amount_sold < s.min_tokens_sold {
                sum_p(records(self.ledger@), remainder_of())
            } else {
                s.amount_to_send as int
            },
        }
    }

    /// Currency bound in fee instructions not yet emitted or refunded.
    pub open spec fn fee_obligations(self) -> int {
        match self.state {
            Option::None => 0,
            Option::Some(s) => sum_p(records(self.ledger@), fee_of(s.price.amount as int)),
        }
    }

    /// Every unit of currency collected is refunded, paid out, bound in an
    /// emitted fee instruction, or still owed.
    pub open spec fn money_ok(self) -> bool {
        let t = self.totals@;
        &&& t.collected >= 0
        &&& t.refunded >= 0
        &&& t.paid_out >= 0
        &&& t.fees_emitted >= 0
        &&& t.collected == t.refunded + t.paid_out + t.fees_emitted + self.pending_payout()
            + self.fee_obligations()
    }

    /// Every minted token is unsold inventory, a reserved unit, burned,
    /// delivered, or forfeited with a refund — and only one of these.
    pub open spec fn tokens_ok(self) -> bool {
        let t = self.totals@;
        &&& t.minted >= 0
        &&& t.burned >= 0
        &&& t.delivered >= 0
        &&& t.forfeited >= 0
        &&& t.minted == self.inventory@.len() + records(self.ledger@).len() + t.burned
            + t.delivered + t.forfeited
    }

    /// No token identifier is referenced twice: reserved units are pairwise
    /// distinct and none of them is still in the inventory.
    pub open spec fn items_distinct(self) -> bool {
        let rs = records(self.ledger@);
        &&& forall|i: int, j: int|
            0 <= i < rs.len() && 0 <= j < rs.len() && i != j ==> (#[trigger] rs[i].token_id)@ != (
            #[trigger] rs[j].token_id)@
        &&& forall|i: int|
            0 <= i < rs.len() ==> !self.inventory@.contains((#[trigger] rs[i].token_id)@)
    }

    /// The ledger agrees with the sale counters.
    ///
    /// In a succeeding or still undecided-upward sale every sold unit is
    /// outstanding or delivered.  In a sale short of its minimum nothing
    /// has been delivered; outstanding units can fall short of sold ones
    /// only once refunds have begun, which happens only after the window
    /// closed or the inventory emptied, and before any refund the accrued
    /// payout equals the recipient share of the outstanding units.
    pub open spec fn sale_ok(self) -> bool {
        match self.state {
            Option::None => self.ledger@.len() == 0,
            Option::Some(s) => {
                let rs = records(self.ledger@);
                &&& s.wf()
                &&& forall|i: int|
                    0 <= i < self.ledger@.len() ==> (#[trigger] self.ledger@[i].purchases)@.len()
                        <= s.max_amount_per_wallet
                &&& forall|i: int|
                    0 <= i < self.ledger@.len() ==> sum_p(
                        (#[trigger] self.ledger@[i].purchases)@,
                        crate::ledger::refund_of(s.price.amount as int),
                    ) <= u128::MAX
                &&& forall|j: int|
                    0 <= j < rs.len() ==> (#[trigger] rs[j].remainder)@ <= s.price.amount
                        && s.price.amount + rs[j].tax_amount <= u128::MAX
                &&& if s.amount_sold >= s.min_tokens_sold {
                    rs.len() == s.amount_sold - s.amount_transferred
                } else {
                    &&& s.amount_transferred == 0
                    &&& rs.len() <= s.amount_sold
                    &&& rs.len() < s.amount_sold ==> (s.expiration.spec_is_expired(self.clock@)
                        || self.inventory@.len() == 0)
                    &&& rs.len() == s.amount_sold ==> s.amount_to_send == sum_p(
                        rs,
                        remainder_of(),
                    )
                }
            },
        }
    }

    /// The engine's full invariant: every operation requires and preserves
    /// it.
    pub open spec fn wf(self) -> bool {
        &&& self.inventory.wf()
        &&& ledger_wf(self.ledger@)
        &&& self.sale_ok()
        &&& self.money_ok()
        &&& self.tokens_ok()
        &&& self.items_distinct()
        &&& (self.state is Some ==> self.sale_conducted)
    }

    /// Sets up a fresh contract with an empty inventory and no sale.
    pub fn instantiate(owner: String, token_address: String, can_mint_after_sale: bool) -> (c:
        Crowdfund)
        ensures
            c.wf(),
            c.owner == owner,
            c.config.token_address == token_address,
            c.config.can_mint_after_sale == can_mint_after_sale,
            !c.sale_conducted,
            c.state is None,
            c.inventory@ == Seq::<Seq<char>>::empty(),
            c.ledger@ == Seq::<LedgerEntry>::empty(),
            c.totals@ == (Totals {
                minted: 0,
                burned: 0,
                delivered: 0,
                forfeited: 0,
                collected: 0,
                refunded: 0,
                paid_out: 0,
                fees_emitted: 0,
            }),
    {
        let c = Crowdfund {
            owner,
            config: Config { token_address, can_mint_after_sale },
            sale_conducted: false,
            state: None,
            inventory: Inventory::new(),
            ledger: Ledger::new(),
            totals: Ghost(
                Totals {
                    minted: 0,
                    burned: 0,
                    delivered: 0,
                    forfeited: 0,
                    collected: 0,
                    refunded: 0,
                    paid_out: 0,
                    fees_emitted: 0,
                },
            ),
            clock: Ghost(BlockInfo { height: 0, time: 0 }),
        };
        proof {
            assert(records(c.ledger@) =~= Seq::<Purchase>::empty());
        }
        c
    }

    /// Mints one token through the external registry and, when the sale
    /// contract itself is the owner, marks it available for the next sale.
    fn mint(&mut self, contract_addr: &String, mint_msg: CrowdfundMintMsg) -> (m: MintMsg)
        requires
            old(self).wf(),
            old(self).state is None,
        ensures
            final(self).wf(),
            final(self).state is None,
            final(self).owner == old(self).owner,
            final(self).config == old(self).config,
            final(self).sale_conducted == old(self).sale_conducted,
            final(self).ledger@ == old(self).ledger@,
            final(self).clock == old(self).clock,
            m.token_id == mint_msg.token_id,
            m.token_uri == mint_msg.token_uri,
            m.owner == (match mint_msg.owner {
                Option::Some(o) => o,
                Option::None => *contract_addr,
            }),
            m.owner@ == contract_addr@ ==> inventory_gains(*final(self), *old(self), m.token_id@),
            m.owner@ != contract_addr@ ==> final(self).inventory@ == old(self).inventory@
                && final(self).totals == old(self).totals,
    {
        let owner_addr = match mint_msg.owner {
            Some(o) => o,
            None => contract_addr.clone(),
        };
        let uri = mint_msg.token_uri;
        let token_id = mint_msg.token_id;
        if owner_addr == *contract_addr {
            let was_there = self.inventory.contains_id(&token_id);
            self.inventory.add_id(token_id.clone());
            if !was_there {
                self.totals = Ghost(Totals { minted: self.totals@.minted + 1, ..self.totals@ });
            }
        }
        MintMsg { token_id, owner: owner_addr, token_uri: uri }
    }

    /// Mints a batch of tokens.
    ///
    /// Valid only between sales, for the contract owner, with no funds
    /// attached, for at most [`MAX_MINT_LIMIT`] tokens per call, and only
    /// if no sale was conducted yet or the configuration allows minting
    /// afterwards.  Tokens minted to the sale contract itself join the
    /// inventory; tokens minted to third parties are merely passed on to
    /// the registry.
    pub fn execute_mint(
        &mut self,
        sender: &String,
        funds: &Vec<Coin>,
        contract_addr: &String,
        mint_msgs: Vec<CrowdfundMintMsg>,
    ) -> (r: Result<Vec<MintMsg>, ContractError>)
        requires
            old(self).wf(),
        ensures
            final(self).wf(),
            r is Err ==> *final(self) == *old(self),
            funds@.len() != 0 ==> r == Result::<Vec<MintMsg>, ContractError>::Err(
                ContractError::InvalidFunds,
            ),
            funds@.len() == 0 && mint_msgs@.len() > MAX_MINT_LIMIT ==> r == Result::<
                Vec<MintMsg>,
                ContractError,
            >::Err(ContractError::TooManyMintMessages { limit: MAX_MINT_LIMIT }),
            funds@.len() == 0 && mint_msgs@.len() <= MAX_MINT_LIMIT && sender@ != old(self).owner@
                ==> r == Result::<Vec<MintMsg>, ContractError>::Err(ContractError::Unauthorized),
            funds@.len() == 0 && mint_msgs@.len() <= MAX_MINT_LIMIT && sender@ == old(self).owner@
                && old(self).state is Some ==> r == Result::<Vec<MintMsg>, ContractError>::Err(
                ContractError::SaleStarted,
            ),
            funds@.len() == 0 && mint_msgs@.len() <= MAX_MINT_LIMIT && sender@ == old(self).owner@
                && old(self).state is None && !old(self).config.can_mint_after_sale && old(
                self,
            ).sale_conducted ==> r == Result::<Vec<MintMsg>, ContractError>::Err(
                ContractError::CannotMintAfterSaleConducted,
            ),
            r is Ok <==> (funds@.len() == 0 && mint_msgs@.len() <= MAX_MINT_LIMIT && sender@ == old(
                self,
            ).owner@ && old(self).state is None && (old(self).config.can_mint_after_sale || !old(
                self,
            ).sale_conducted)),
            r is Ok ==> {
                let ms = r->Ok_0;
                &&& ms@.len() == mint_msgs@.len()
                &&& forall|j: int|
                    0 <= j < ms@.len() ==> (#[trigger] ms@[j]).token_id == mint_msgs@[j].token_id
                        && ms@[j].token_uri == mint_msgs@[j].token_uri && ms@[j].owner@
                        == resolved_owner(mint_msgs@[j], contract_addr@)
                &&& forall|k: Seq<char>|
                    final(self).inventory@.contains(k) <==> (old(self).inventory@.contains(k)
                        || exists|j: int|
                        0 <= j < mint_msgs@.len() && resolved_owner(
                            #[trigger] mint_msgs@[j],
                            contract_addr@,
                        ) == contract_addr@ && mint_msgs@[j].token_id@ == k)
                &&& final(self).state is None
                &&& final(self).ledger@ == old(self).ledger@
                &&& final(self).owner == old(self).owner
                &&& final(self).config == old(self).config
                &&& final(self).sale_conducted == old(self).sale_conducted
                &&& final(self).clock == old(self).clock
            },
    {
        if funds.len() != 0 {
            return Err(ContractError::InvalidFunds);
        }
        if mint_msgs.len() > MAX_MINT_LIMIT as usize {
            return Err(ContractError::TooManyMintMessages { limit: MAX_MINT_LIMIT });
        }
        if !(*sender == self.owner) {
            return Err(ContractError::Unauthorized);
        }
        if self.state.is_some() {
            return Err(ContractError::SaleStarted);
        }
        if !self.config.can_mint_after_sale && self.sale_conducted {
            return Err(ContractError::CannotMintAfterSaleConducted);
        }
        let ghost orig = mint_msgs@;
        let ghost pre = *self;
        let mut msgs = mint_msgs;
        let mut out: Vec<MintMsg> = Vec::new();
        let n = msgs.len();
        let mut i: usize = 0;
        while i < n
            invariant
                i <= n,
                n == orig.len(),
                pre.wf(),
                pre == *old(self),
                pre.state is None,
                msgs@ == orig.skip(i as int),
                self.wf(),
                self.state is None,
                self.owner == pre.owner,
                self.config == pre.config,
                self.sale_conducted == pre.sale_conducted,
                self.ledger@ == pre.ledger@,
                self.clock == pre.clock,
                out@.len() == i,
                forall|j: int|
                    0 <= j < i ==> (#[trigger] out@[j]).token_id == orig[j].token_id
                        && out@[j].token_uri == orig[j].token_uri && out@[j].owner@
                        == resolved_owner(orig[j], contract_addr@),
                forall|k: Seq<char>|
                    self.inventory@.contains(k) ==> pre.inventory@.contains(k) || exists|j: int|
                        0 <= j < i && resolved_owner(#[trigger] orig[j], contract_addr@)
                            == contract_addr@ && orig[j].token_id@ == k,
                forall|k: Seq<char>| pre.inventory@.contains(k) ==> self.inventory@.contains(k),
                forall|j: int|
                    0 <= j < i && resolved_owner(#[trigger] orig[j], contract_addr@)
                        == contract_addr@ ==> self.inventory@.contains(orig[j].token_id@),
            decreases n - i,
        {
            let msg = msgs.remove(0);
            proof {
                assert(msg == orig[i as int]);
                assert(msgs@ =~= orig.skip(i + 1));
            }
            let ghost inv_pre = self.inventory@;
            let m = self.mint(contract_addr, msg);
            out.push(m);
            proof {
                assert(m.owner@ == resolved_owner(orig[i as int], contract_addr@));
                assert forall|k: Seq<char>|
                    self.inventory@.contains(k) implies pre.inventory@.contains(k) || exists|j: int|
                        0 <= j < i + 1 && resolved_owner(#[trigger] orig[j], contract_addr@)
                            == contract_addr@ && orig[j].token_id@ == k by {
                    if !pre.inventory@.contains(k) {
                        if inv_pre.contains(k) {
                            let j = choose|j: int|
                                0 <= j < i && resolved_owner(#[trigger] orig[j], contract_addr@)
                                    == contract_addr@ && orig[j].token_id@ == k;
                            assert(0 <= j < i + 1 && resolved_owner(orig[j], contract_addr@)
                                == contract_addr@ && orig[j].token_id@ == k);
                        } else {
                            assert(resolved_owner(orig[i as int], contract_addr@) == contract_addr@
                                && orig[i as int].token_id@ == k);
                        }
                    }
                }
                assert forall|j: int|
                    0 <= j < i + 1 && resolved_owner(#[trigger] orig[j], contract_addr@)
                        == contract_addr@ implies self.inventory@.contains(orig[j].token_id@) by {
                    if j < i {
                        assert(inv_pre.contains(orig[j].token_id@));
                    }
                }
            }
            i = i + 1;
        }
        proof {
            assert forall|k: Seq<char>|
                self.inventory@.contains(k) <==> (old(self).inventory@.contains(k) || exists|j: int|
                    0 <= j < mint_msgs@.len() && resolved_owner(
                        #[trigger] mint_msgs@[j],
                        contract_addr@,
                    ) == contract_addr@ && mint_msgs@[j].token_id@ == k) by {
                if self.inventory@.contains(k) && !pre.inventory@.contains(k) {
                    let j = choose|j: int|
                        0 <= j < n && resolved_owner(#[trigger] orig[j], contract_addr@)
                            == contract_addr@ && orig[j].token_id@ == k;
                    assert(0 <= j < mint_msgs@.len() && resolved_owner(
                        mint_msgs@[j],
                        contract_addr@,
                    ) == contract_addr@ && mint_msgs@[j].token_id@ == k);
                }
                if exists|j: int|
                    0 <= j < mint_msgs@.len() && resolved_owner(
                        #[trigger] mint_msgs@[j],
                        contract_addr@,
                    ) == contract_addr@ && mint_msgs@[j].token_id@ == k {
                    let j = choose|j: int|
                        0 <= j < mint_msgs@.len() && resolved_owner(
                            #[trigger] mint_msgs@[j],
                            contract_addr@,
                        ) == contract_addr@ && mint_msgs@[j].token_id@ == k;
                    assert(0 <= j < n && resolved_owner(orig[j], contract_addr@) == contract_addr@);
                    assert(self.inventory@.contains(orig[j].token_id@));
                    assert(self.inventory@.contains(k));
                }
            }
        }
        Ok(out)
    }

    /// Opens a sale.
    ///
    /// Valid only for the contract owner, with no funds attached, with a
    /// real deadline that has not passed, and only while no sale is
    /// running.  On success the sale state is written with all counters
    /// zeroed and the sale-conducted latch is set.
    pub fn execute_start_sale(
        &mut self,
        sender: &String,
        funds: &Vec<Coin>,
        block: &BlockInfo,
        expiration: Expiration,
        price: Coin,
        min_tokens_sold: u128,
        max_amount_per_wallet: Option<u32>,
        recipient: Recipient,
    ) -> (r: Result<(), ContractError>)
        requires
            old(self).wf(),
            block_le(old(self).clock@, *block),
        ensures
            final(self).wf(),
            r is Err ==> *final(self) == *old(self),
            funds@.len() != 0 ==> r == Result::<(), ContractError>::Err(
                ContractError::InvalidFunds,
            ),
            funds@.len() == 0 && sender@ != old(self).owner@ ==> r == Result::<(),
                ContractError,
            >::Err(ContractError::Unauthorized),
            funds@.len() == 0 && sender@ == old(self).owner@ && expiration is Never ==> r
                == Result::<(), ContractError>::Err(ContractError::ExpirationMustNotBeNever),
            funds@.len() == 0 && sender@ == old(self).owner@ && !(expiration is Never)
                && expiration.spec_is_expired(*block) ==> r == Result::<(), ContractError>::Err(
                ContractError::ExpirationInPast,
            ),
            funds@.len() == 0 && sender@ == old(self).owner@ && !(expiration is Never)
                && !expiration.spec_is_expired(*block) && old(self).state is Some ==> r
                == Result::<(), ContractError>::Err(ContractError::SaleStarted),
            r is Ok <==> (funds@.len() == 0 && sender@ == old(self).owner@ && !(expiration
                is Never) && !expiration.spec_is_expired(*block) && old(self).state is None),
            r is Ok ==> {
                &&& final(self).state == Option::Some(
                    State {
                        expiration,
                        price,
                        min_tokens_sold,
                        max_amount_per_wallet: (match max_amount_per_wallet {
                            Option::Some(m) => m,
                            Option::None => 1u32,
                        }),
                        amount_sold: 0,
                        amount_to_send: 0,
                        amount_transferred: 0,
                        recipient,
                    },
                )
                &&& final(self).sale_conducted
                &&& final(self).clock@ == *block
                &&& final(self).inventory@ == old(self).inventory@
                &&& final(self).ledger@ == old(self).ledger@
                &&& final(self).totals == old(self).totals
                &&& final(self).owner == old(self).owner
                &&& final(self).config == old(self).config
            },
    {
        if funds.len() != 0 {
            return Err(ContractError::InvalidFunds);
        }
        if !(*sender == self.owner) {
            return Err(ContractError::Unauthorized);
        }
        if matches!(expiration, Expiration::Never) {
            return Err(ContractError::ExpirationMustNotBeNever);
        }
        if expiration.is_expired(block) {
            return Err(ContractError::ExpirationInPast);
        }
        if self.state.is_some() {
            return Err(ContractError::SaleStarted);
        }
        let max_per_wallet = match max_amount_per_wallet {
            Some(m) => m,
            None => 1u32,
        };
        self.state = Some(
            State {
                expiration,
                price,
                min_tokens_sold,
                max_amount_per_wallet: max_per_wallet,
                amount_sold: 0,
                amount_to_send: 0,
                amount_transferred: 0,
                recipient,
            },
        );
        self.sale_conducted = true;
        self.clock = Ghost(*block);
        proof {
            assert(records(self.ledger@) =~= Seq::<Purchase>::empty());
        }
        Ok(())
    }

    /// The sale in progress, if any.
    pub fn query_state(&self) -> (r: &Option<State>)
        ensures
            *r == self.state,
    {
        &self.state
    }

    /// The deployment configuration.
    pub fn query_config(&self) -> (r: &Config)
        ensures
            *r == self.config,
    {
        &self.config
    }

    /// Up to `limit` available token identifiers after `start_after`, in
    /// ascending key order.
    pub fn query_available_tokens(&self, start_after: Option<&String>, limit: Option<u32>) -> (ids:
        Vec<String>)
        requires
            self.wf(),
        ensures
            ({
                let lo = match start_after {
                    Option::Some(k) => crate::inventory::keys_not_above(self.inventory@, k@),
                    Option::None => 0int,
                };
                let hi = match limit {
                    Option::Some(l) => vstd::math::min(lo + l as int, self.inventory@.len() as int),
                    Option::None => self.inventory@.len() as int,
                };
                crate::seqs::string_views(ids@) == self.inventory@.subrange(lo, hi)
            }),
    {
        self.inventory.available_ids(start_after, limit)
    }

    /// Whether one token is still available for sale.
    pub fn query_is_token_available(&self, id: &String) -> (r: bool)
        requires
            self.wf(),
        ensures
            r == self.inventory@.contains(id@),
    {
        self.inventory.contains_id(id)
    }
}

/// The registry owner that a mint request resolves to: the named owner, or
/// the sale contract itself when none is named.
pub open spec fn resolved_owner(m: CrowdfundMintMsg, contract: Seq<char>) -> Seq<char> {
    match m.owner {
        Option::Some(o) => o@,
        Option::None => contract,
    }
}

/// After a mint the inventory holds the new token and nothing else changed.
pub open spec fn inventory_gains(post: Crowdfund, pre: Crowdfund, id: Seq<char>) -> bool {
    &&& post.inventory@.contains(id)
    &&& forall|k: Seq<char>| post.inventory@.contains(k) <==> (pre.inventory@.contains(k) || k
        == id)
    &&& pre.inventory@.contains(id) ==> post.inventory@ == pre.inventory@ && post.totals
        == pre.totals
    &&& !pre.inventory@.contains(id) ==> post.inventory@.len() == pre.inventory@.len() + 1
        && post.totals@ == (Totals { minted: pre.totals@.minted + 1, ..pre.totals@ })
}

} // verus!
