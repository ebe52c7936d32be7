//! The pool of tokens that are owned by the sale contract and eligible
//! for sale.
//!
//! The pool is a set of token identifiers held in ascending key order,
//! together with a cached cardinality counter that is kept consistent with
//! the set on every insert and remove, never recomputed by a full scan.

use vstd::math::min;
use vstd::prelude::*;

use crate::keys::key_lt;
use crate::keys::lemma_key_lt_connex;
use crate::keys::lemma_key_lt_irrefl;
use crate::keys::lemma_key_lt_trans;
use crate::keys::str_key_lt;
use crate::seqs::lemma_map_values_insert;
use crate::seqs::lemma_map_values_push;
use crate::seqs::lemma_map_values_remove;
use crate::seqs::lemma_map_values_subrange;
use crate::seqs::lemma_take_succ;
use crate::seqs::string_views;

verus! {

/// A sequence of keys in strictly ascending order.
pub open spec fn ids_sorted(s: Seq<Seq<char>>) -> bool {
    forall|i: int, j: int| 0 <= i < j < s.len() ==> key_lt(s[i], s[j])
}

/// A strictly sorted sequence holds no key twice.
pub proof fn lemma_sorted_distinct(s: Seq<Seq<char>>, i: int, j: int)
    requires
        ids_sorted(s),
        0 <= i < s.len(),
        0 <= j < s.len(),
        i != j,
    ensures
        s[i] != s[j],
{
    if i < j {
        lemma_key_lt_irrefl(s[i]);
    } else {
        lemma_key_lt_irrefl(s[j]);
    }
}

/// How many keys in the run are not above the given key.
pub open spec fn keys_not_above(s: Seq<Seq<char>>, key: Seq<char>) -> int
    decreases s.len(),
{
    if s.len() == 0 {
        0
    } else {
        (if !key_lt(key, s[0]) {
            1int
        } else {
            0int
        }) + keys_not_above(s.drop_first(), key)
    }
}

/// In a run whose first `i` keys are not above the given key and whose
/// rest are, exactly `i` keys are not above it.
pub proof fn lemma_keys_not_above(s: Seq<Seq<char>>, key: Seq<char>, i: int)
    requires
        0 <= i <= s.len(),
        forall|j: int| 0 <= j < i ==> !key_lt(key, s[j]),
        forall|j: int| i <= j < s.len() ==> key_lt(key, s[j]),
    ensures
        keys_not_above(s, key) == i,
    decreases s.len(),
{
    if s.len() > 0 {
        if i == 0 {
            lemma_keys_not_above(s.drop_first(), key, 0);
        } else {
            lemma_keys_not_above(s.drop_first(), key, i - 1);
        }
    }
}

/// The unsold-token inventory.
pub struct Inventory {
    tokens: Vec<String>,
    count: u128,
}

impl View for Inventory {
    type V = Seq<Seq<char>>;

    closed spec fn view(&self) -> Seq<Seq<char>> {
        self.tokens@.map_values(|s: String| s@)
    }
}

impl Inventory {
    /// The cached counter equals the true size and the keys are sorted.
    pub closed spec fn wf(&self) -> bool {
        &&& self.count == self.tokens@.len()
        &&& ids_sorted(self@)
    }

    /// A well-formed inventory keeps its keys in ascending order.
    pub proof fn lemma_wf_sorted(&self)
        requires
            self.wf(),
        ensures
            ids_sorted(self@),
    {
    }

    /// An empty inventory.
    pub fn new() -> (inv: Inventory)
        ensures
            inv.wf(),
            inv@ == Seq::<Seq<char>>::empty(),
    {
        let inv = Inventory { tokens: Vec::new(), count: 0 };
        proof {
            assert(inv@ =~= Seq::<Seq<char>>::empty());
        }
        inv
    }

    /// How many tokens are available.
    pub fn count(&self) -> (n: u128)
        requires
            self.wf(),
        ensures
            n == self@.len(),
    {
        self.count
    }

    /// Whether a token identifier is in the pool.
    pub fn contains_id(&self, id: &String) -> (r: bool)
        requires
            self.wf(),
        ensures
            r == self@.contains(id@),
    {
        let n = self.tokens.len();
        for i in 0..n
            invariant
                n == self.tokens@.len(),
                forall|j: int| 0 <= j < i ==> self@[j] != id@,
        {
            if self.tokens[i] == *id {
                assert(self@[i as int] == id@);
                return true;
            }
        }
        proof {
            assert(forall|j: int| 0 <= j < self@.len() ==> self@[j] != id@);
        }
        false
    }

    /// Adds a token identifier to the pool; a key already present is kept
    /// as it is.
    pub fn add_id(&mut self, id: String)
        requires
            old(self).wf(),
        ensures
            final(self).wf(),
            old(self)@.contains(id@) ==> final(self)@ == old(self)@,
            !old(self)@.contains(id@) ==> {
                &&& final(self)@.len() == old(self)@.len() + 1
                &&& forall|k: Seq<char>| final(self)@.contains(k) <==> (old(self)@.contains(k) || k
                    == id@)
            },
    {
        let n = self.tokens.len();
        let mut i: usize = 0;
        while i < n
            invariant
                n == self.tokens@.len(),
                i <= n,
                self == old(self),
                forall|j: int| 0 <= j < i ==> key_lt(self@[j], id@),
            ensures
                i <= n,
                self == old(self),
                forall|j: int| 0 <= j < i ==> key_lt(self@[j], id@),
                i < n ==> !key_lt(self@[i as int], id@),
            decreases n - i,
        {
            if !str_key_lt(self.tokens[i].as_str(), id.as_str()) {
                break;
            }
            i = i + 1;
        }
        // Here every key before `i` is below `id`, and if `i` is in range
        // the key at `i` is not below `id`.
        if i < n {
            if self.tokens[i] == id {
                proof {
                    assert(old(self)@[i as int] == id@);
                    assert(old(self)@.contains(id@));
                }
                return ;
            }
            proof {
                // The key at `i` is not below `id` and differs from it, so
                // it is above it.
                assert(self@[i as int] != id@);
                assert(key_lt(id@, self@[i as int])) by {
                    if !key_lt(id@, self@[i as int]) {
                        lemma_key_lt_connex(self@[i as int], id@);
                    }
                }
            }
        }
        proof {
            // `id` is not present: below `i` everything is smaller, from
            // `i` on everything is larger.
            assert forall|j: int| i <= j < self@.len() implies key_lt(id@, self@[j]) by {
                if j > i {
                    lemma_key_lt_trans(id@, self@[i as int], self@[j]);
                }
            }
            assert forall|j: int| 0 <= j < self@.len() implies self@[j] != id@ by {
                lemma_key_lt_irrefl(id@);
                if j < i {
                    lemma_key_lt_irrefl(self@[j]);
                }
            }
            assert(!old(self)@.contains(id@));
        }
        let ghost pre = self@;
        self.tokens.insert(i, id);
        self.count = self.count + 1;
        proof {
            assert(self@ =~= pre.insert(i as int, id@)) by {
                assert(self.tokens@ == old(self).tokens@.insert(i as int, id));
                lemma_map_values_insert(old(self).tokens@, |s: String| s@, i as int, id);
            }
            assert(forall|j: int| 0 <= j < i ==> self@[j] == pre[j]);
            assert(self@[i as int] == id@);
            assert(forall|j: int| i < j < self@.len() ==> self@[j] == pre[j - 1]);
            assert(ids_sorted(self@)) by {
                assert(forall|j: int| 0 <= j < i ==> key_lt(self@[j], id@) && self@[j] == pre[j]);
                assert(forall|j: int|
                    i < j < self@.len() ==> key_lt(id@, self@[j]) && self@[j] == pre[j - 1]);
            }
            assert forall|k: Seq<char>| self@.contains(k) <==> (pre.contains(k) || k == id@) by {
                if self@.contains(k) {
                    let j = choose|j: int| 0 <= j < self@.len() && self@[j] == k;
                    if j < i {
                        assert(pre[j] == k);
                    } else if j > i {
                        assert(pre[j - 1] == k);
                    }
                }
                if pre.contains(k) {
                    let j = choose|j: int| 0 <= j < pre.len() && pre[j] == k;
                    if j < i {
                        assert(self@[j] == k);
                    } else {
                        assert(self@[j + 1] == k);
                    }
                }
                if k == id@ {
                    assert(self@[i as int] == k);
                }
            }
        }
    }

    /// Removes a token identifier from the pool; reports whether it was
    /// there.
    pub fn remove_id(&mut self, id: &String) -> (found: bool)
        requires
            old(self).wf(),
        ensures
            final(self).wf(),
            found == old(self)@.contains(id@),
            !found ==> final(self)@ == old(self)@,
            found ==> {
                &&& final(self)@.len() == old(self)@.len() - 1
                &&& !final(self)@.contains(id@)
                &&& forall|k: Seq<char>|
                    k != id@ ==> (final(self)@.contains(k) <==> old(self)@.contains(
                    k,
                ))
            },
    {
        let n = self.tokens.len();
        let ghost pre = self@;
        for i in 0..n
            invariant
                n == self.tokens@.len(),
                self == old(self),
                old(self).wf(),
                pre == old(self)@,
                forall|j: int| 0 <= j < i ==> self@[j] != id@,
        {
            if self.tokens[i] == *id {
                self.tokens.remove(i);
                self.count = self.count - 1;
                proof {
                    assert(self@ =~= pre.remove(i as int)) by {
                        assert(self.tokens@ == old(self).tokens@.remove(i as int));
                        lemma_map_values_remove(old(self).tokens@, |s: String| s@, i as int);
                    }
                    assert(forall|j: int| 0 <= j < i ==> self@[j] == pre[j]);
                    assert(forall|j: int| i <= j < self@.len() ==> self@[j] == pre[j + 1]);
                    assert(ids_sorted(self@));
                    assert(pre.contains(id@)) by {
                        assert(pre[i as int] == id@);
                    }
                    assert forall|k: Seq<char>| k != id@ implies (self@.contains(k)
                        <==> pre.contains(k)) by {
                        if self@.contains(k) {
                            let j = choose|j: int| 0 <= j < self@.len() && self@[j] == k;
                            if j < i {
                                assert(pre[j] == k);
                            } else {
                                assert(pre[j + 1] == k);
                            }
                        }
                        if pre.contains(k) {
                            let j = choose|j: int| 0 <= j < pre.len() && pre[j] == k;
                            assert(j != i);
                            if j < i {
                                assert(self@[j] == k);
                            } else {
                                assert(self@[j - 1] == k);
                            }
                        }
                    }
                    assert(!self@.contains(id@)) by {
                        if self@.contains(id@) {
                            let j = choose|j: int| 0 <= j < self@.len() && self@[j] == id@;
                            if j < i {
                                assert(pre[j] == id@);
                                lemma_sorted_distinct(pre, j, i as int);
                            } else {
                                assert(pre[j + 1] == id@);
                                lemma_sorted_distinct(pre, j + 1, i as int);
                            }
                        }
                    }
                }
                return true;
            }
        }
        proof {
            assert(forall|j: int| 0 <= j < pre.len() ==> pre[j] != id@);
        }
        false
    }

    /// Copies the first `n` token identifiers, or all of them if fewer.
    pub fn first_ids(&self, n: usize) -> (ids: Vec<String>)
        requires
            self.wf(),
        ensures
            string_views(ids@) == self@.take(min(n as int, self@.len() as int)),
    {
        let k = if n < self.tokens.len() {
            n
        } else {
            self.tokens.len()
        };
        let mut ids: Vec<String> = Vec::new();
        for i in 0..k
            invariant
                k == min(n as int, self@.len() as int),
                k <= self.tokens@.len(),
                string_views(ids@) =~= self@.take(i as int),
        {
            let ghost prev = ids@;
            ids.push(self.tokens[i].clone());
            proof {
                lemma_map_values_push(prev, |s: String| s@, ids@.last());
                lemma_take_succ(self@, i as int);
                assert(string_views(ids@) =~= prev.map_values(|s: String| s@).push(ids@.last()@));
                assert(string_views(ids@) =~= self@.take(i + 1));
            }
        }
        ids
    }

    /// Lists up to `limit` token identifiers that come strictly after
    /// `start_after` in key order, or all of them without a limit.
    pub fn available_ids(&self, start_after: Option<&String>, limit: Option<u32>) -> (ids: Vec<
        String,
    >)
        requires
            self.wf(),
        ensures
            ({
                let lo = match start_after {
                    Option::Some(k) => keys_not_above(self@, k@),
                    Option::None => 0int,
                };
                let hi = match limit {
                    Option::Some(l) => min(lo + l as int, self@.len() as int),
                    Option::None => self@.len() as int,
                };
                string_views(ids@) == self@.subrange(lo, hi)
            }),
    {
        let n = self.tokens.len();
        let mut lo: usize = 0;
        match start_after {
            None => {},
            Some(k) => {
                while lo < n
                    invariant
                        n == self.tokens@.len(),
                        lo <= n,
                        self.wf(),
                        forall|j: int| 0 <= j < lo ==> !key_lt(k@, self@[j]),
                    ensures
                        lo <= n,
                        forall|j: int| 0 <= j < lo ==> !key_lt(k@, self@[j]),
                        lo < n ==> key_lt(k@, self@[lo as int]),
                    decreases n - lo,
                {
                    if str_key_lt(k.as_str(), self.tokens[lo].as_str()) {
                        break ;
                    }
                    lo = lo + 1;
                }
                proof {
                    assert forall|j: int| lo <= j < self@.len() implies key_lt(
                        k@,
                        self@[j],
                    ) by {
                        if j > lo {
                            lemma_key_lt_trans(k@, self@[lo as int], self@[j]);
                        }
                    }
                    lemma_keys_not_above(self@, k@, lo as int);
                }
            },
        }
        let hi = match limit {
            Some(l) => if (l as usize) < n - lo {
                lo + (l as usize)
            } else {
                n
            },
            None => n,
        };
        let mut ids: Vec<String> = Vec::new();
        let mut i = lo;
        while i < hi
            invariant
                lo <= i <= hi <= n,
                n == self.tokens@.len(),
                string_views(ids@) =~= self@.subrange(lo as int, i as int),
            decreases hi - i,
        {
            let ghost prev = ids@;
            ids.push(self.tokens[i].clone());
            proof {
                lemma_map_values_push(prev, |s: String| s@, ids@.last());
                assert(string_views(ids@) =~= self@.subrange(lo as int, i + 1));
            }
            i = i + 1;
        }
        ids
    }

    /// Removes the first `n` token identifiers, or all of them if fewer,
    /// and hands them out.
    pub fn take_first(&mut self, n: usize) -> (taken: Vec<String>)
        requires
            old(self).wf(),
        ensures
            final(self).wf(),
            string_views(taken@) == old(self)@.take(min(n as int, old(self)@.len() as int)),
            final(self)@ == old(self)@.skip(min(n as int, old(self)@.len() as int)),
    {
        let k = if n < self.tokens.len() {
            n
        } else {
            self.tokens.len()
        };
        let mut rest = self.tokens.split_off(k);
        core::mem::swap(&mut self.tokens, &mut rest);
        self.count = self.count - k as u128;
        proof {
            let ghost m = min(n as int, old(self)@.len() as int);
            lemma_map_values_subrange(old(self).tokens@, |s: String| s@, 0, m);
            lemma_map_values_subrange(
                old(self).tokens@,
                |s: String| s@,
                m,
                old(self).tokens@.len() as int,
            );
            assert(string_views(rest@) =~= old(self)@.take(m));
            assert(self@ =~= old(self)@.skip(m));
            assert(ids_sorted(self@)) by {
                assert(forall|j: int| 0 <= j < self@.len() ==> self@[j] == old(self)@[j + m]);
            }
        }
        rest
    }
}

} // verus!
