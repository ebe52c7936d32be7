//! The purchase ledger: one entry per buyer, in ascending key order, each
//! holding that buyer's unsettled purchases in purchase order.
//!
//! An entry exists exactly while the buyer has unsettled purchases; it is
//! removed entirely once they are refunded or delivered.  Settlement walks
//! entries in ascending buyer order, FIFO within one buyer.

use vstd::math::min;
use vstd::prelude::*;

use crate::inventory::ids_sorted;
use crate::keys::key_lt;
use crate::keys::lemma_key_lt_connex;
use crate::keys::lemma_key_lt_irrefl;
use crate::keys::lemma_key_lt_trans;
use crate::keys::str_key_lt;
use crate::seqs::lemma_map_values_insert;
use crate::seqs::lemma_map_values_remove;
use crate::types::FeeMsg;

verus! {

/// One reserved unit: a buyer holds a token at the sale price plus a tax,
/// with the fee instructions to emit when the unit is delivered.
pub struct Purchase {
    pub token_id: String,
    pub tax_amount: u128,
    pub msgs: Vec<FeeMsg>,
    pub purchaser: String,
    /// The part of the unit price left for the payout recipient after the
    /// rates collaborator's deductions; kept for accounting only.
    pub remainder: Ghost<u128>,
}

/// One buyer's unsettled purchases, oldest first.
pub struct LedgerEntry {
    pub purchaser: String,
    pub purchases: Vec<Purchase>,
}

/// All unsettled purchases, in settlement order: ascending buyer key,
/// FIFO within one buyer.
pub open spec fn records(s: Seq<LedgerEntry>) -> Seq<Purchase>
    decreases s.len(),
{
    if s.len() == 0 {
        Seq::empty()
    } else {
        s[0].purchases@ + records(s.drop_first())
    }
}

/// The buyer keys, in ledger order.
pub open spec fn entry_keys(s: Seq<LedgerEntry>) -> Seq<Seq<char>> {
    s.map_values(|e: LedgerEntry| e.purchaser@)
}

/// Structural well-formedness: keys strictly ascending, no empty entry,
/// every record filed under its own buyer.
pub open spec fn ledger_wf(s: Seq<LedgerEntry>) -> bool {
    &&& ids_sorted(entry_keys(s))
    &&& forall|i: int| 0 <= i < s.len() ==> #[trigger] s[i].purchases@.len() > 0
    &&& forall|i: int, j: int|
        0 <= i < s.len() && 0 <= j < s[i].purchases@.len() ==> (#[trigger] s[i].purchases@[j].purchaser)@
            == s[i].purchaser@
}

/// A sum of a per-record value over a run of purchases.
pub open spec fn sum_p(s: Seq<Purchase>, f: spec_fn(Purchase) -> int) -> int
    decreases s.len(),
{
    if s.len() == 0 {
        0
    } else {
        f(s[0]) + sum_p(s.drop_first(), f)
    }
}

/// What the buyer paid for one unit: price plus the tax owed on it.
pub open spec fn refund_of(price: int) -> spec_fn(Purchase) -> int {
    |p: Purchase| price + p.tax_amount
}

/// The payout share of one unit.
pub open spec fn remainder_of() -> spec_fn(Purchase) -> int {
    |p: Purchase| p.remainder@ as int
}

/// The fee share of one unit: what the buyer paid less the payout share.
pub open spec fn fee_of(price: int) -> spec_fn(Purchase) -> int {
    |p: Purchase| price + p.tax_amount - p.remainder@
}

/// Sums split over concatenation.
pub proof fn lemma_sum_p_concat(a: Seq<Purchase>, b: Seq<Purchase>, f: spec_fn(Purchase) -> int)
    ensures
        sum_p(a + b, f) == sum_p(a, f) + sum_p(b, f),
    decreases a.len(),
{
    if a.len() == 0 {
        assert(a + b =~= b);
    } else {
        assert((a + b).drop_first() =~= a.drop_first() + b);
        lemma_sum_p_concat(a.drop_first(), b, f);
    }
}

/// A sum splits at any index into the sums of the prefix and the suffix.
pub proof fn lemma_sum_p_split(s: Seq<Purchase>, k: int, f: spec_fn(Purchase) -> int)
    requires
        0 <= k <= s.len(),
    ensures
        sum_p(s, f) == sum_p(s.take(k), f) + sum_p(s.skip(k), f),
{
    assert(s =~= s.take(k) + s.skip(k));
    lemma_sum_p_concat(s.take(k), s.skip(k), f);
}

/// A sum of records that all carry one value is that value times the count.
pub proof fn lemma_sum_p_constant(s: Seq<Purchase>, f: spec_fn(Purchase) -> int, c: int)
    requires
        forall|j: int| 0 <= j < s.len() ==> #[trigger] f(s[j]) == c,
    ensures
        sum_p(s, f) == c * s.len(),
    decreases s.len(),
{
    if s.len() == 0 {
    } else {
        lemma_sum_p_constant(s.drop_first(), f, c);
        assert(sum_p(s, f) == c + c * (s.len() - 1));
        assert(c + c * (s.len() - 1) == c * s.len()) by (nonlinear_arith);
    }
}

/// Splicing a run of records into a sum adds the run's sum.
pub proof fn lemma_splice_sums(
    base: Seq<Purchase>,
    ins: Seq<Purchase>,
    m: int,
    f: spec_fn(Purchase) -> int,
)
    requires
        0 <= m <= base.len(),
    ensures
        sum_p(base.take(m) + ins + base.skip(m), f) == sum_p(base, f) + sum_p(ins, f),
{
    lemma_sum_p_concat(base.take(m), ins, f);
    lemma_sum_p_concat(base.take(m) + ins, base.skip(m), f);
    lemma_sum_p_split(base, m, f);
}

/// A sum of nonnegative values is nonnegative.
pub proof fn lemma_sum_p_nonneg(s: Seq<Purchase>, f: spec_fn(Purchase) -> int)
    requires
        forall|j: int| 0 <= j < s.len() ==> #[trigger] f(s[j]) >= 0,
    ensures
        sum_p(s, f) >= 0,
    decreases s.len(),
{
    if s.len() > 0 {
        lemma_sum_p_nonneg(s.drop_first(), f);
    }
}

/// The records of two runs of entries concatenate.
pub proof fn lemma_records_concat(a: Seq<LedgerEntry>, b: Seq<LedgerEntry>)
    ensures
        records(a + b) == records(a) + records(b),
    decreases a.len(),
{
    if a.len() == 0 {
        assert(a + b =~= b);
        assert(records(a) + records(b) =~= records(b));
    } else {
        assert((a + b).drop_first() =~= a.drop_first() + b);
        lemma_records_concat(a.drop_first(), b);
        assert(records(a + b) =~= records(a) + records(b));
    }
}

/// The records of a run of entries split at an entry boundary.
pub proof fn lemma_records_split(s: Seq<LedgerEntry>, m: int)
    requires
        0 <= m <= s.len(),
    ensures
        records(s) == records(s.take(m)) + records(s.skip(m)),
{
    assert(s =~= s.take(m) + s.skip(m));
    lemma_records_concat(s.take(m), s.skip(m));
}

/// Appending one entry appends its purchases to the records.
pub proof fn lemma_records_push(s: Seq<LedgerEntry>, e: LedgerEntry)
    ensures
        records(s.push(e)) == records(s) + e.purchases@,
{
    assert(s.push(e) =~= s + seq![e]);
    lemma_records_concat(s, seq![e]);
    assert(records(seq![e]) =~= e.purchases@) by {
        assert(seq![e].drop_first() =~= Seq::<LedgerEntry>::empty());
        assert(records(Seq::<LedgerEntry>::empty()) =~= Seq::<Purchase>::empty());
        assert(seq![e][0] == e);
    }
}

/// Whether some entry is filed under this buyer key.
pub open spec fn has_entry(s: Seq<LedgerEntry>, key: Seq<char>) -> bool {
    exists|i: int| 0 <= i < s.len() && (#[trigger] s[i].purchaser)@ == key
}

/// The position of the buyer's entry; meaningful only when [`has_entry`].
pub open spec fn entry_at(s: Seq<LedgerEntry>, key: Seq<char>) -> int {
    choose|i: int| 0 <= i < s.len() && (#[trigger] s[i].purchaser)@ == key
}

/// The buyer's unsettled purchases, oldest first; empty without an entry.
pub open spec fn buyer_records(s: Seq<LedgerEntry>, key: Seq<char>) -> Seq<Purchase> {
    if has_entry(s, key) {
        s[entry_at(s, key)].purchases@
    } else {
        Seq::empty()
    }
}

/// Splitting a run of entries around one entry splits its records.
pub proof fn lemma_records_mid(s: Seq<LedgerEntry>, i: int)
    requires
        0 <= i < s.len(),
    ensures
        records(s) == records(s.take(i)) + s[i].purchases@ + records(s.skip(i + 1)),
        records(s.remove(i)) == records(s.take(i)) + records(s.skip(i + 1)),
    decreases s.len(),
{
    lemma_records_split(s, i);
    assert(records(s.skip(i)) =~= s[i].purchases@ + records(s.skip(i + 1))) by {
        assert(s.skip(i)[0] == s[i]);
        assert(s.skip(i).drop_first() =~= s.skip(i + 1));
    }
    assert(records(s) =~= records(s.take(i)) + s[i].purchases@ + records(s.skip(i + 1)));
    assert(s.remove(i).take(i) =~= s.take(i));
    assert(s.remove(i).skip(i) =~= s.skip(i + 1));
    lemma_records_split(s.remove(i), i);
}

/// Inserting an entry splices its records into place.
pub proof fn lemma_records_insert(s: Seq<LedgerEntry>, i: int, e: LedgerEntry)
    requires
        0 <= i <= s.len(),
    ensures
        records(s.insert(i, e)) == records(s.take(i)) + e.purchases@ + records(s.skip(i)),
{
    let t = s.insert(i, e);
    lemma_records_mid(t, i);
    assert(t.take(i) =~= s.take(i));
    assert(t.skip(i + 1) =~= s.skip(i));
    assert(t[i] == e);
}

/// The purchase ledger.
pub struct Ledger {
    entries: Vec<LedgerEntry>,
}

impl View for Ledger {
    type V = Seq<LedgerEntry>;

    closed spec fn view(&self) -> Seq<LedgerEntry> {
        self.entries@
    }
}

impl Ledger {
    /// An empty ledger.
    pub fn new() -> (l: Ledger)
        ensures
            l@ == Seq::<LedgerEntry>::empty(),
    {
        let l = Ledger { entries: Vec::new() };
        proof {
            assert(l@ =~= Seq::<LedgerEntry>::empty());
        }
        l
    }

    /// How many buyers hold unsettled purchases.
    pub fn num_entries(&self) -> (n: usize)
        ensures
            n == self@.len(),
    {
        self.entries.len()
    }

    /// How many unsettled purchases one buyer holds.
    pub fn count_for(&self, buyer: &String) -> (n: usize)
        requires
            ledger_wf(self@),
        ensures
            n == buyer_records(self@, buyer@).len(),
    {
        let n = self.entries.len();
        for i in 0..n
            invariant
                n == self@.len(),
                ledger_wf(self@),
                forall|j: int| 0 <= j < i ==> (#[trigger] self@[j].purchaser)@ != buyer@,
        {
            if self.entries[i].purchaser == *buyer {
                proof {
                    assert(has_entry(self@, buyer@));
                    let w = entry_at(self@, buyer@);
                    if w != i {
                        assert(entry_keys(self@)[w] == buyer@);
                        assert(entry_keys(self@)[i as int] == buyer@);
                        crate::inventory::lemma_sorted_distinct(entry_keys(self@), w, i as int);
                    }
                }
                return self.entries[i].purchases.len();
            }
        }
        proof {
            assert(forall|j: int| 0 <= j < self@.len() ==> (#[trigger] self@[j].purchaser)@
                != buyer@);
            assert(!has_entry(self@, buyer@));
        }
        0
    }

    /// Removes and hands out one buyer's entry, if there is one.
    pub fn take_entry(&mut self, buyer: &String) -> (r: Option<LedgerEntry>)
        requires
            ledger_wf(old(self)@),
        ensures
            ledger_wf(final(self)@),
            r is Some <==> has_entry(old(self)@, buyer@),
            r is None ==> *final(self) == *old(self),
            r is Some ==> {
                &&& r->0 == old(self)@[entry_at(old(self)@, buyer@)]
                &&& r->0.purchaser@ == buyer@
                &&& final(self)@ == old(self)@.remove(entry_at(old(self)@, buyer@))
            },
    {
        let n = self.entries.len();
        for i in 0..n
            invariant
                n == self@.len(),
                self == old(self),
                ledger_wf(self@),
                forall|j: int| 0 <= j < i ==> (#[trigger] self@[j].purchaser)@ != buyer@,
        {
            if self.entries[i].purchaser == *buyer {
                let e = self.entries.remove(i);
                proof {
                    let ghost pre = old(self)@;
                    assert(pre[i as int] == e);
                    assert(has_entry(pre, buyer@));
                    let w = entry_at(pre, buyer@);
                    if w != i {
                        assert(entry_keys(pre)[w] == buyer@);
                        assert(entry_keys(pre)[i as int] == buyer@);
                        crate::inventory::lemma_sorted_distinct(entry_keys(pre), w, i as int);
                    }
                    assert(w == i);
                    assert(ids_sorted(entry_keys(self@))) by {
                        lemma_map_values_remove(pre, |en: LedgerEntry| en.purchaser@, i as int);
                        assert(entry_keys(self@) =~= entry_keys(pre).remove(i as int));
                    }
                    assert(forall|j: int| 0 <= j < i ==> self@[j] == pre[j]);
                    assert(forall|j: int| i <= j < self@.len() ==> self@[j] == pre[j + 1]);
                }
                return Some(e);
            }
        }
        None
    }

    /// Files an entry for a buyer who has none; keeps ascending key order.
    ///
    /// Returns the position at which the entry now stands.
    pub fn put_entry(&mut self, e: LedgerEntry) -> (idx: usize)
        requires
            ledger_wf(old(self)@),
            e.purchases@.len() > 0,
            forall|j: int|
                0 <= j < e.purchases@.len() ==> (#[trigger] e.purchases@[j].purchaser)@
                    == e.purchaser@,
            forall|i: int|
                0 <= i < old(self)@.len() ==> (#[trigger] old(self)@[i].purchaser)@ != e.purchaser@,
        ensures
            ledger_wf(final(self)@),
            idx <= old(self)@.len(),
            final(self)@ == old(self)@.insert(idx as int, e),
            forall|j: int|
                0 <= j < idx ==> key_lt((#[trigger] old(self)@[j].purchaser)@, e.purchaser@),
            forall|j: int|
                idx <= j < old(self)@.len() ==> key_lt(
                    e.purchaser@,
                    (#[trigger] old(self)@[j].purchaser)@,
                ),
    {
        let n = self.entries.len();
        let mut i: usize = 0;
        while i < n
            invariant
                n == self@.len(),
                i <= n,
                self == old(self),
                forall|j: int| 0 <= j < i ==> key_lt((#[trigger] self@[j].purchaser)@, e.purchaser@),
            ensures
                i <= n,
                self == old(self),
                forall|j: int| 0 <= j < i ==> key_lt((#[trigger] self@[j].purchaser)@, e.purchaser@),
                i < n ==> !key_lt(self@[i as int].purchaser@, e.purchaser@),
            decreases n - i,
        {
            if !str_key_lt(self.entries[i].purchaser.as_str(), e.purchaser.as_str()) {
                break;
            }
            i = i + 1;
        }
        proof {
            if i < n {
                assert(key_lt(e.purchaser@, self@[i as int].purchaser@)) by {
                    if !key_lt(e.purchaser@, self@[i as int].purchaser@) {
                        lemma_key_lt_connex(self@[i as int].purchaser@, e.purchaser@);
                    }
                }
            }
            assert forall|j: int| i <= j < self@.len() implies key_lt(
                e.purchaser@,
                (#[trigger] self@[j].purchaser)@,
            ) by {
                assert(entry_keys(self@)[j] == self@[j].purchaser@);
                if j > i {
                    assert(key_lt(entry_keys(self@)[i as int], entry_keys(self@)[j]));
                    lemma_key_lt_trans(e.purchaser@, self@[i as int].purchaser@, self@[j].purchaser@);
                }
            }
        }
        let ghost pre = self@;
        self.entries.insert(i, e);
        proof {
            assert(ids_sorted(entry_keys(self@))) by {
                lemma_map_values_insert(pre, |en: LedgerEntry| en.purchaser@, i as int, e);
                assert(entry_keys(self@) =~= entry_keys(pre).insert(i as int, e.purchaser@));
                assert(forall|j: int| 0 <= j < i ==> entry_keys(self@)[j] == entry_keys(pre)[j]);
                assert(entry_keys(self@)[i as int] == e.purchaser@);
                assert(forall|j: int|
                    i < j < entry_keys(self@).len() ==> entry_keys(self@)[j] == entry_keys(pre)[j
                        - 1]);
            }
            assert(forall|j: int| 0 <= j < i ==> self@[j] == pre[j]);
            assert(self@[i as int] == e);
            assert(forall|j: int| i < j < self@.len() ==> self@[j] == pre[j - 1]);
        }
        i
    }

    /// Removes and hands out the first `k` unsettled purchases in
    /// settlement order, dropping emptied entries and truncating a
    /// partially settled one to its unprocessed suffix.
    ///
    /// Besides the records it returns how many whole entries were consumed
    /// and how many purchases were taken from the entry that now stands
    /// first, so that callers can reason about the entries that remain.
    pub fn take_first_records(&mut self, k: usize) -> (r: (Vec<Purchase>, Ghost<int>, Ghost<int>))
        requires
            ledger_wf(old(self)@),
            k <= records(old(self)@).len(),
        ensures
            ledger_wf(final(self)@),
            r.0@ == records(old(self)@).take(k as int),
            records(final(self)@) == records(old(self)@).skip(k as int),
            0 <= r.1@ <= old(self)@.len(),
            k as int == records(old(self)@.take(r.1@)).len() + r.2@,
            r.2@ == 0 ==> final(self)@ == old(self)@.skip(r.1@),
            r.2@ != 0 ==> {
                &&& r.1@ < old(self)@.len()
                &&& 0 < r.2@ < old(self)@[r.1@].purchases@.len()
                &&& final(self)@.len() == old(self)@.len() - r.1@
                &&& final(self)@[0].purchaser == old(self)@[r.1@].purchaser
                &&& final(self)@[0].purchases@ == old(self)@[r.1@].purchases@.skip(r.2@)
                &&& forall|j: int|
                    1 <= j < final(self)@.len() ==> final(self)@[j] == old(self)@[r.1@ + j]
            },
    {
        let ghost orig = old(self)@;
        let mut taken: Vec<Purchase> = Vec::new();
        let ghost mut m: int = 0;
        loop
            invariant
                orig == old(self)@,
                ledger_wf(orig),
                k <= records(orig).len(),
                0 <= m <= orig.len(),
                self@ =~= orig.skip(m),
                taken@.len() <= k,
                taken@ =~= records(orig.take(m)),
                taken@.len() == records(orig.take(m)).len(),
                taken@ =~= records(orig).take(taken@.len() as int),
            ensures
                taken@.len() == k,
                taken@ =~= records(orig).take(k as int),
                self@ =~= orig.skip(m),
                0 <= m <= orig.len(),
                k as int == records(orig.take(m)).len(),
            decreases k - taken.len(),
        {
            if taken.len() == k {
                break ;
            }
            proof {
                lemma_records_split(orig, m);
                assert(records(self@).len() > 0) by {
                    if self@.len() == 0 {
                        assert(records(self@) =~= Seq::<Purchase>::empty());
                    }
                }
                assert(self@.len() > 0);
                assert(self@[0] == orig[m]);
            }
            let first_len = self.entries[0].purchases.len();
            proof {
                assert(self@.drop_first() =~= orig.skip(m + 1));
                assert(orig.take(m + 1) =~= orig.take(m).push(orig[m]));
                lemma_records_push(orig.take(m), orig[m]);
                lemma_records_split(orig, m + 1);
            }
            if first_len <= k - taken.len() {
                let mut e = self.entries.remove(0);
                taken.append(&mut e.purchases);
                proof {
                    m = m + 1;
                    assert(taken@ =~= records(orig.take(m)));
                    assert(taken@ =~= records(orig).take(taken@.len() as int));
                }
            } else {
                let need = k - taken.len();
                let mut e = self.entries.remove(0);
                let rest = e.purchases.split_off(need);
                let ghost n = need as int;
                taken.append(&mut e.purchases);
                let replaced = LedgerEntry { purchaser: e.purchaser, purchases: rest };
                self.entries.insert(0, replaced);
                proof {
                    assert(self@[0].purchases@ =~= orig[m].purchases@.skip(n));
                    assert(forall|j: int| 1 <= j < self@.len() ==> self@[j] == orig[m + j]);
                    assert(taken@ =~= records(orig.take(m)) + orig[m].purchases@.take(n));
                    assert(taken@ =~= records(orig).take(k as int)) by {
                        assert(records(orig) =~= records(orig.take(m)) + orig[m].purchases@
                            + records(orig.skip(m + 1)));
                    }
                    assert(ledger_wf(self@)) by {
                        assert(entry_keys(self@) =~= entry_keys(orig.skip(m)));
                        assert(ids_sorted(entry_keys(orig.skip(m)))) by {
                            assert(forall|j: int|
                                0 <= j < entry_keys(orig.skip(m)).len() ==> entry_keys(
                                    orig.skip(m),
                                )[j] == entry_keys(orig)[j + m]);
                        }
                    }
                    assert(records(self@) == records(orig).skip(k as int)) by {
                        lemma_records_split(orig, m);
                        assert(records(self@) =~= orig[m].purchases@.skip(n) + records(
                            orig.skip(m + 1),
                        )) by {
                            assert(self@.drop_first() =~= orig.skip(m + 1));
                        }
                        assert(records(orig) =~= records(orig.take(m)) + orig[m].purchases@
                            + records(orig.skip(m + 1)));
                        assert(records(orig).skip(k as int) =~= orig[m].purchases@.skip(n)
                            + records(orig.skip(m + 1)));
                    }
                }
                return (taken, Ghost(m), Ghost(n));
            }
            proof {
                assert(ids_sorted(entry_keys(orig.skip(m)))) by {
                    assert(forall|j: int|
                        0 <= j < entry_keys(orig.skip(m)).len() ==> entry_keys(orig.skip(m))[j]
                            == entry_keys(orig)[j + m]);
                }
            }
        }
        proof {
            lemma_records_split(orig, m);
            assert(ids_sorted(entry_keys(orig.skip(m)))) by {
                assert(forall|j: int|
                    0 <= j < entry_keys(orig.skip(m)).len() ==> entry_keys(orig.skip(m))[j]
                        == entry_keys(orig)[j + m]);
            }
            assert(ledger_wf(self@));
            assert(records(self@) == records(orig).skip(k as int)) by {
                assert(records(orig) =~= records(orig.take(m)) + records(orig.skip(m)));
                assert(records(self@) =~= records(orig).skip(k as int));
            }
        }
        (taken, Ghost(m), Ghost(0))
    }

    /// Removes and hands out the first `k` entries, or all of them if
    /// there are fewer.
    pub fn take_first_entries(&mut self, k: usize) -> (taken: Vec<LedgerEntry>)
        requires
            ledger_wf(old(self)@),
        ensures
            ledger_wf(final(self)@),
            taken@ == old(self)@.take(min(k as int, old(self)@.len() as int)),
            final(self)@ == old(self)@.skip(min(k as int, old(self)@.len() as int)),
    {
        let m = if k < self.entries.len() {
            k
        } else {
            self.entries.len()
        };
        let mut rest = self.entries.split_off(m);
        core::mem::swap(&mut self.entries, &mut rest);
        proof {
            let ghost mm = min(k as int, old(self)@.len() as int);
            assert(rest@ =~= old(self)@.take(mm));
            assert(self@ =~= old(self)@.skip(mm));
            assert(ids_sorted(entry_keys(self@))) by {
                assert(forall|j: int| 0 <= j < self@.len() ==> self@[j] == old(self)@[j + mm]);
                assert(forall|j: int|
                    0 <= j < entry_keys(self@).len() ==> entry_keys(self@)[j] == entry_keys(
                        old(self)@,
                    )[j + mm]);
            }
        }
        rest
    }
}

} // verus!
