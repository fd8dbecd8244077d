//! The subscriber pool's registry: the set of currently connected
//! subscribers, keyed by a unique connection id. The transport layer owns
//! the channels themselves; the registry decides who is a member, and the
//! aggregation engine asks it how many members there are before it builds
//! a summary at all.
use vstd::prelude::*;

use crate::orderbook::lemma_filter_elems;

verus! {

/// No id occurs twice.
pub open spec fn ids_distinct(s: Seq<u128>) -> bool {
    forall|i: int, j: int| 0 <= i < j < s.len() ==> #[trigger] s[i] != #[trigger] s[j]
}

/// Filtering keeps ids distinct.
proof fn lemma_filter_distinct(s: Seq<u128>, pred: spec_fn(u128) -> bool)
    requires
        ids_distinct(s),
    ensures
        ids_distinct(s.filter(pred)),
    decreases s.len(),
{
    reveal(Seq::filter);
    if s.len() > 0 {
        let dl = s.drop_last();
        let f = s.filter(pred);
        let fdl = dl.filter(pred);
        lemma_filter_distinct(dl, pred);
        lemma_filter_elems(dl, pred);
        assert forall|i: int, j: int| 0 <= i < j < f.len() implies #[trigger] f[i] != #[trigger] f[j] by {
            if j < fdl.len() {
                assert(f[i] == fdl[i] && f[j] == fdl[j]);
            } else {
                assert(f[i] == fdl[i]);
                assert(dl.contains(fdl[i]));
                let m = choose|m: int| 0 <= m < dl.len() && dl[m] == fdl[i];
                assert(s[m] != s[s.len() - 1]);
            }
        }
    }
}

/// The registry of active subscribers: their connection ids, each held at
/// most once. Entries are created by `register` on connect and removed by
/// `deregister` when the transport reports the disconnect, so the pool
/// never accumulates dead entries.
#[derive(Clone, Debug)]
pub struct SubscriberPool {
    pub ids: Vec<u128>,
}

impl SubscriberPool {
    /// The registry invariant: every id occurs at most once.
    pub open spec fn wf(&self) -> bool {
        ids_distinct(self.ids@)
    }

    /// An empty pool.
    pub fn new() -> (r: Self)
        ensures
            r.ids@.len() == 0,
            r.wf(),
    {
        SubscriberPool { ids: Vec::new() }
    }

    /// How many subscribers are registered.
    pub fn len(&self) -> (r: usize)
        ensures
            r == self.ids@.len(),
    {
        self.ids.len()
    }

    /// Whether `id` is registered.
    pub fn contains(&self, id: u128) -> (r: bool)
        ensures
            r == self.ids@.contains(id),
    {
        let mut k: usize = 0;
        while k < self.ids.len()
            invariant
                k <= self.ids@.len(),
                forall|q: int| 0 <= q < k ==> #[trigger] self.ids@[q] != id,
            decreases self.ids@.len() - k,
        {
            if self.ids[k] == id {
                return true;
            }
            k += 1;
        }
        false
    }

    /// Adds a subscriber under a fresh id. A repeated id is refused and
    /// the registry left unchanged, so distinctness is never lost.
    pub fn register(&mut self, id: u128) -> (added: bool)
        requires
            old(self).wf(),
        ensures
            final(self).wf(),
            added == !old(self).ids@.contains(id),
            final(self).ids@ == if old(self).ids@.contains(id) {
                old(self).ids@
            } else {
                old(self).ids@.push(id)
            },
    {
        if self.contains(id) {
            false
        } else {
            self.ids.push(id);
            true
        }
    }

    /// Removes the subscriber with this id, if present: triggered by the
    /// transport's disconnect notification or by a failed delivery.
    pub fn deregister(&mut self, id: u128)
        requires
            old(self).wf(),
        ensures
            final(self).wf(),
            final(self).ids@ == old(self).ids@.filter(|x: u128| x != id),
            !final(self).ids@.contains(id),
    {
        broadcast use vstd::seq_lib::group_seq_properties;
        broadcast use vstd::seq_lib::group_filter_ensures;

        proof {
            lemma_filter_distinct(self.ids@, |x: u128| x != id);
        }
        let mut r: Vec<u128> = Vec::new();
        let mut k: usize = 0;
        while k < self.ids.len()
            invariant
                k <= self.ids@.len(),
                r@ == self.ids@.take(k as int).filter(|x: u128| x != id),
            decreases self.ids@.len() - k,
        {
            proof {
                self.ids@.lemma_take_succ_push(k as int);
                self.ids@.take(k as int).lemma_filter_push(self.ids@[k as int], |x: u128| x != id);
            }
            if self.ids[k] != id {
                r.push(self.ids[k]);
            }
            k += 1;
        }
        proof {
            assert(self.ids@.take(self.ids@.len() as int) =~= self.ids@);
        }
        self.ids = r;
        proof {
            assert(!self.ids@.contains(id)) by {
                if self.ids@.contains(id) {
                    let m = choose|m: int| 0 <= m < self.ids@.len() && self.ids@[m] == id;
                }
            }
        }
    }
}

} // verus!
