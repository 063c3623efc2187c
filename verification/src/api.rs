//! The decision half of the rate-limited, batched profile fetcher.
//!
//! The fetcher partitions the requested ids into pages of at most
//! [`BATCH_SIZE`], and admits one page at a time through a quota limiter: a page
//! is dispatched only while the probed quota leaves clear headroom, and each
//! dispatch is charged a full page's worth of quota up front, pessimistically.
//! The caller performs the remote work the limiter asks for — dispatching a page
//! or sleeping and re-probing the quota — and hands each probe's outcome
//! back; successful pages are merged here into one id-keyed mapping.

#![allow(unused_imports)]
use std::collections::HashMap;
use vstd::prelude::*;

verus! {

broadcast use vstd::std_specs::hash::group_hash_axioms;

use crate::User;

/// Ids per profile-lookup request: the endpoint's page-size ceiling.
pub const BATCH_SIZE: usize = 50;

/// The quota window as last probed: how many requests the window allows, and
/// how many the fetcher still counts on.
#[derive(Debug, Clone, Copy, PartialEq, Eq, Structural)]
pub struct RateLimitState {
    pub limit: i32,
    pub remaining: i32,
}

/// What the dispatch loop should do next.
#[derive(Clone, Copy, Debug, PartialEq, Eq, Structural)]
pub enum FetchAction {
    /// Send the page with this index.
    Dispatch(usize),
    /// Quota headroom is gone: sleep, re-probe, and report with `on_probe`.
    Wait,
    /// Every page has been dispatched.
    Done,
}

/// The ids of all pages, page order kept.
pub open spec fn pages_flat(pages: Seq<Vec<i32>>) -> Seq<i32> {
    pages.map_values(|p: Vec<i32>| p@).flatten()
}

/// Partitions ids into dispatch pages: each page holds between one and
/// [`BATCH_SIZE`] ids, and the pages laid end to end are exactly the input —
/// no id dropped, none repeated.
pub fn partition_ids(ids: &Vec<i32>) -> (pages: Vec<Vec<i32>>)
    ensures
        pages_flat(pages@) == ids@,
        forall|k: int| 0 <= k < pages@.len() ==> 1 <= (#[trigger] pages@[k])@.len() <= BATCH_SIZE,
{
    let mut pages: Vec<Vec<i32>> = Vec::new();
    proof {
        assert(pages_flat(pages@) =~= Seq::<i32>::empty());
        assert(ids@.take(0) =~= Seq::<i32>::empty());
    }
    let mut i: usize = 0;
    while i < ids.len()
        invariant
            i <= ids@.len(),
            pages_flat(pages@) == ids@.take(i as int),
            forall|k: int|
                0 <= k < pages@.len() ==> 1 <= (#[trigger] pages@[k])@.len() <= BATCH_SIZE,
        decreases ids@.len() - i,
    {
        let ghost start = i as int;
        let end = if ids.len() - i < BATCH_SIZE {
            ids.len()
        } else {
            i + BATCH_SIZE
        };
        let mut page: Vec<i32> = Vec::new();
        proof {
            assert(ids@.subrange(start, start) =~= Seq::<i32>::empty());
        }
        while i < end
            invariant
                0 <= start <= i as int <= end as int <= ids@.len(),
                end as int - start <= BATCH_SIZE,
                page@ == ids@.subrange(start, i as int),
            decreases end - i,
        {
            let x = ids[i];
            page.push(x);
            proof {
                assert(ids@.subrange(start, i + 1) =~= ids@.subrange(start, i as int).push(
                    ids@[i as int],
                ));
            }
            i += 1;
        }
        proof {
            let mapped = pages@.map_values(|p: Vec<i32>| p@);
            mapped.lemma_flatten_push(page@);
            assert(pages@.push(page).map_values(|p: Vec<i32>| p@) =~= mapped.push(page@));
            assert(pages_flat(pages@.push(page)) =~= ids@.take(i as int)) by {
                assert(mapped.flatten() + page@ =~= ids@.take(start) + ids@.subrange(
                    start,
                    i as int,
                ));
                assert(ids@.take(start) + ids@.subrange(start, i as int) =~= ids@.take(i as int));
            }
        }
        pages.push(page);
    }
    proof {
        assert(ids@.take(ids@.len() as int) =~= ids@);
    }
    pages
}

/// An id occurs somewhere in the pages exactly when it occurs in the flat
/// sequence of all of them.
proof fn lemma_flat_contains(pages: Seq<Vec<i32>>)
    ensures
        forall|x: i32|
            #[trigger] pages_flat(pages).contains(x) <==> exists|k: int|
                0 <= k < pages.len() && (#[trigger] pages[k])@.contains(x),
    decreases pages.len(),
{
    let mapped = pages.map_values(|p: Vec<i32>| p@);
    if pages.len() == 0 {
        assert(mapped =~= Seq::<Seq<i32>>::empty());
        assert(pages_flat(pages) =~= Seq::<i32>::empty());
    } else {
        lemma_flat_contains(pages.drop_last());
        let dl = pages.drop_last();
        let mdl = dl.map_values(|p: Vec<i32>| p@);
        assert(mapped =~= mdl.push(pages.last()@));
        mdl.lemma_flatten_push(pages.last()@);
        let a = pages_flat(dl);
        let b = pages.last()@;
        assert(pages_flat(pages) == a + b);
        assert forall|x: i32| #[trigger] pages_flat(pages).contains(x) implies (exists|k: int|
            0 <= k < pages.len() && (#[trigger] pages[k])@.contains(x)) by {
            let idx = choose|idx: int| 0 <= idx < (a + b).len() && (a + b)[idx] == x;
            if idx < a.len() {
                assert(a[idx] == x);
                assert(pages_flat(dl).contains(x));
                let k = choose|k: int| 0 <= k < dl.len() && (#[trigger] dl[k])@.contains(x);
                assert(pages[k] == dl[k]);
                assert((pages[k])@.contains(x));
            } else {
                assert(b[idx - a.len()] == x);
                assert((pages[pages.len() - 1])@.contains(x));
            }
        }
        assert forall|x: i32| (exists|k: int|
            0 <= k < pages.len() && (#[trigger] pages[k])@.contains(x)) implies #[trigger] pages_flat(
            pages,
        ).contains(x) by {
            let k = choose|k: int| 0 <= k < pages.len() && (#[trigger] pages[k])@.contains(x);
            if k < pages.len() - 1 {
                assert((dl[k])@.contains(x));
                assert(pages_flat(dl).contains(x));
                let idx = choose|idx: int| 0 <= idx < a.len() && a[idx] == x;
                assert((a + b)[idx] == x);
            } else {
                let idx = choose|idx: int| 0 <= idx < b.len() && b[idx] == x;
                assert((a + b)[a.len() + idx] == x);
            }
        }
    }
}

/// The pages ask the service for exactly the ids that were requested: an id
/// sits in some page exactly when it was in the input, and the pages laid end
/// to end repeat the input verbatim, so nothing is dropped or repeated.
pub proof fn lemma_pages_cover(pages: Seq<Vec<i32>>, ids: Seq<i32>)
    requires
        pages_flat(pages) == ids,
    ensures
        forall|x: i32|
            #[trigger] ids.contains(x) <==> exists|k: int|
                0 <= k < pages.len() && (#[trigger] pages[k])@.contains(x),
{
    lemma_flat_contains(pages);
}

/// The dispatch loop of one fetch call: the pages still to send and the quota
/// window as last probed.
pub struct Fetcher {
    pub pages: Vec<Vec<i32>>,
    pub next_page: usize,
    pub state: RateLimitState,
}

impl Fetcher {
    /// The limiter's bookkeeping never counts on a negative quota, and never
    /// points past the last page.
    pub open spec fn wf(&self) -> bool {
        &&& self.state.remaining >= 0
        &&& self.next_page <= self.pages@.len()
    }

    /// Sets up one fetch call: partitions `ids` into pages and records the
    /// quota window first probed. A probe that reports a negative remainder
    /// is counted as no headroom at all.
    pub fn new(ids: &Vec<i32>, limit: i32, remaining: i32) -> (f: Fetcher)
        ensures
            f.wf(),
            pages_flat(f.pages@) == ids@,
            forall|k: int|
                0 <= k < f.pages@.len() ==> 1 <= (#[trigger] f.pages@[k])@.len() <= BATCH_SIZE,
            f.next_page == 0,
            f.state.limit == limit,
            f.state.remaining == if remaining >= 0 {
                remaining
            } else {
                0
            },
    {
        let pages = partition_ids(ids);
        let rem = if remaining >= 0 {
            remaining
        } else {
            0
        };
        Fetcher { pages, next_page: 0, state: RateLimitState { limit, remaining: rem } }
    }

    /// One turn of the dispatch loop. A page is admitted only while the
    /// counted quota exceeds a full page's cost; each admission is charged
    /// [`BATCH_SIZE`] up front, whatever the page's true size, so the count
    /// stays pessimistic and never goes negative.
    pub fn step(&mut self) -> (a: FetchAction)
        requires
            old(self).wf(),
        ensures
            final(self).wf(),
            final(self).pages == old(self).pages,
            final(self).state.limit == old(self).state.limit,
            match a {
                FetchAction::Done => {
                    &&& old(self).next_page == old(self).pages@.len()
                    &&& *final(self) == *old(self)
                },
                FetchAction::Wait => {
                    &&& old(self).next_page < old(self).pages@.len()
                    &&& old(self).state.remaining <= BATCH_SIZE
                    &&& *final(self) == *old(self)
                },
                FetchAction::Dispatch(k) => {
                    &&& k == old(self).next_page < old(self).pages@.len()
                    &&& old(self).state.remaining > BATCH_SIZE
                    &&& final(self).next_page == old(self).next_page + 1
                    &&& final(self).state.remaining == old(self).state.remaining - BATCH_SIZE
                },
            },
    {
        if self.next_page == self.pages.len() {
            FetchAction::Done
        } else if self.state.remaining <= BATCH_SIZE as i32 {
            FetchAction::Wait
        } else {
            let k = self.next_page;
            self.next_page = k + 1;
            self.state.remaining = self.state.remaining - BATCH_SIZE as i32;
            FetchAction::Dispatch(k)
        }
    }

    /// Takes a fresh probe of the quota window. A failed probe falls back to
    /// a conservative default — no headroom, so the loop keeps waiting —
    /// rather than assuming anything; a probe that reports a negative
    /// remainder is likewise counted as none.
    pub fn on_probe(&mut self, probe: Option<RateLimitState>, default_limit: i32)
        requires
            old(self).wf(),
        ensures
            final(self).wf(),
            final(self).pages == old(self).pages,
            final(self).next_page == old(self).next_page,
            match probe {
                Some(rl) => {
                    &&& final(self).state.limit == rl.limit
                    &&& final(self).state.remaining == if rl.remaining >= 0 {
                        rl.remaining
                    } else {
                        0
                    }
                },
                None => {
                    &&& final(self).state.limit == default_limit
                    &&& final(self).state.remaining == 0
                },
            },
    {
        match probe {
            Some(rl) => {
                let rem = if rl.remaining >= 0 {
                    rl.remaining
                } else {
                    0
                };
                self.state = RateLimitState { limit: rl.limit, remaining: rem };
            },
            None => {
                self.state = RateLimitState { limit: default_limit, remaining: 0 };
            },
        }
    }
}

/// The mapping after the records of one page are added, first to last: a
/// record for an id already present wins over the older one.
pub open spec fn insert_all(m: Map<i32, User>, users: Seq<User>) -> Map<i32, User>
    decreases users.len(),
{
    if users.len() == 0 {
        m
    } else {
        insert_all(m.insert(users[0].id, users[0]), users.skip(1))
    }
}

/// Merges one successfully fetched page into the run's id-keyed mapping.
/// Pages carry disjoint ids by construction, so no page overwrites another.
pub fn merge_page(data: &mut HashMap<i32, User>, users: Vec<User>)
    ensures
        final(data)@ == insert_all(old(data)@, users@),
{
    let ghost orig = data@;
    let ghost uv = users@;
    let mut rest = users;
    while rest.len() > 0
        invariant
            insert_all(orig, uv) == insert_all(data@, rest@),
        decreases rest@.len(),
    {
        let ghost rest0 = rest@;
        let u = rest.remove(0);
        proof {
            assert(rest@ =~= rest0.skip(1));
        }
        let ghost before = data@;
        data.insert(u.id, u);
        proof {
            assert(data@ == before.insert(u.id, u));
            assert(insert_all(before, rest0) == insert_all(data@, rest@));
        }
    }
    proof {
        assert(insert_all(data@, rest@) == data@);
    }
}

} // verus!
