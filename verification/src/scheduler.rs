use vstd::prelude::*;
use crate::mapping::{
    lemma_set_of_iff, lemma_set_of_remove, set_of, urls_distinct, UrlMap, UrlSet,
};

verus! {

// ---------------------------------------------------------------------------
// The bounded-concurrency scheduler
//
// The scheduler owns every decision of the download batch: which URL to hand
// out next, that no more than `limit` tasks are ever in flight at once, that
// each distinct URL is dispatched exactly once, and how each task's terminal
// outcome — success with a link, or failure — is folded into the result
// mapping. The fetching itself (network, filesystem, the waiting) is the
// caller's: it asks for work with `try_dispatch`, performs the fetch and save
// however it likes, and reports the outcome with `record_success` or
// `record_failure`. Whatever order outcomes arrive in, the invariants hold.
// ---------------------------------------------------------------------------

pub struct Scheduler {
    /// The distinct URLs of the batch; the first `next` are dispatched.
    urls: Vec<String>,
    /// How many URLs have been handed out so far.
    next: usize,
    /// Dispatched URLs whose outcome has not been reported yet.
    in_flight: Vec<String>,
    /// The concurrency ceiling.
    limit: usize,
    /// The links recorded for the URLs that succeeded.
    results: UrlMap,
    /// How many URLs failed terminally.
    failed: usize,
}

impl Scheduler {
    /// The set of URLs dispatched so far.
    pub closed spec fn dispatched_set(&self) -> Set<Seq<char>> {
        set_of(self.urls@.subrange(0, self.next as int))
    }

    /// The URLs of the batch, in dispatch order.
    pub closed spec fn url_views(&self) -> Seq<Seq<char>> {
        self.urls@.map_values(|u: String| u@)
    }

    /// The whole batch as a set.
    pub closed spec fn url_set(&self) -> Set<Seq<char>> {
        set_of(self.urls@)
    }

    pub closed spec fn total(&self) -> nat {
        self.urls@.len()
    }

    pub closed spec fn dispatched(&self) -> nat {
        self.next as nat
    }

    pub closed spec fn spec_limit(&self) -> nat {
        self.limit as nat
    }

    pub closed spec fn in_flight_count(&self) -> nat {
        self.in_flight@.len()
    }

    /// The dispatched URLs still awaiting their outcome.
    pub closed spec fn in_flight_urls(&self) -> Set<Seq<char>> {
        set_of(self.in_flight@)
    }

    /// The mapping of successes collected so far.
    pub closed spec fn result_map(&self) -> Map<Seq<char>, Seq<char>> {
        self.results@
    }

    pub closed spec fn result_count(&self) -> nat {
        self.results.spec_len()
    }

    pub closed spec fn failed_count(&self) -> nat {
        self.failed as nat
    }

    /// The scheduler's invariant: URLs are distinct and dispatched in order;
    /// in-flight URLs are distinct, dispatched, and not yet recorded; every
    /// recorded success is a dispatched URL; and every dispatched URL is
    /// accounted for as exactly one of in flight, succeeded or failed.
    pub closed spec fn wf(&self) -> bool {
        &&& urls_distinct(self.urls@)
        &&& self.next <= self.urls@.len()
        &&& self.in_flight@.len() <= self.limit
        &&& urls_distinct(self.in_flight@)
        &&& forall|i: int|
            0 <= i < self.in_flight@.len() ==> self.dispatched_set().contains(
                #[trigger] self.in_flight@[i]@,
            )
        &&& forall|i: int|
            0 <= i < self.in_flight@.len() ==> !self.results@.dom().contains(
                #[trigger] self.in_flight@[i]@,
            )
        &&& forall|x: Seq<char>|
            #[trigger] self.results@.dom().contains(x) ==> self.dispatched_set().contains(x)
        &&& self.results.wf()
        &&& self.results.spec_len() + self.failed + self.in_flight@.len() == self.next
    }

    /// Start a batch over a deduplicated URL set with a concurrency ceiling.
    pub fn new(urls: UrlSet, limit: usize) -> (s: Scheduler)
        requires
            urls.wf(),
            limit >= 1,
        ensures
            s.wf(),
            s.spec_limit() == limit,
            s.total() == urls.spec_len(),
            s.url_set() == urls@,
            s.dispatched() == 0,
            s.in_flight_count() == 0,
            s.result_map() == Map::<Seq<char>, Seq<char>>::empty(),
            s.result_count() == 0,
            s.failed_count() == 0,
    {
        let v = urls.into_vec();
        let s = Scheduler {
            urls: v,
            next: 0,
            in_flight: Vec::new(),
            limit,
            results: UrlMap::new(),
            failed: 0,
        };
        proof {
            assert(s.urls@.subrange(0, 0) =~= Seq::<String>::empty());
        }
        s
    }

    /// Hand out the next URL when work remains and the concurrency ceiling
    /// leaves room; `None` when the batch is fully dispatched or `limit`
    /// tasks are already in flight.
    pub fn try_dispatch(&mut self) -> (r: Option<String>)
        requires
            old(self).wf(),
        ensures
            final(self).wf(),
            final(self).spec_limit() == old(self).spec_limit(),
            final(self).total() == old(self).total(),
            final(self).url_views() == old(self).url_views(),
            final(self).url_set() == old(self).url_set(),
            (match r {
                Some(u) => {
                    &&& old(self).dispatched() < old(self).total()
                    &&& old(self).in_flight_count() < old(self).spec_limit()
                    &&& u@ == old(self).url_views()[old(self).dispatched() as int]
                    &&& final(self).dispatched() == old(self).dispatched() + 1
                    &&& final(self).in_flight_count() == old(self).in_flight_count() + 1
                    &&& final(self).in_flight_urls() == old(self).in_flight_urls().insert(u@)
                    &&& final(self).result_map() == old(self).result_map()
                    &&& final(self).result_count() == old(self).result_count()
                    &&& final(self).failed_count() == old(self).failed_count()
                },
                None => {
                    &&& (old(self).dispatched() == old(self).total() || old(self).in_flight_count()
                        == old(self).spec_limit())
                    &&& *final(self) == *old(self)
                },
            }),
    {
        if self.next < self.urls.len() && self.in_flight.len() < self.limit {
            let u = self.urls[self.next].clone();
            let ghost pre = *self;
            proof {
                lemma_set_of_iff(pre.urls@.subrange(0, pre.next as int), u@);
                assert(!pre.dispatched_set().contains(u@));
                assert(forall|i: int|
                    0 <= i < pre.in_flight@.len() ==> #[trigger] pre.in_flight@[i]@ != u@);
            }
            self.in_flight.push(u.clone());
            self.next = self.next + 1;
            proof {
                assert(self.urls@.subrange(0, self.next as int).drop_last() =~= pre.urls@.subrange(
                    0,
                    pre.next as int,
                ));
                assert(self.dispatched_set() =~= pre.dispatched_set().insert(u@));
                assert(self.in_flight@.drop_last() =~= pre.in_flight@);
                assert(self.in_flight_urls() == pre.in_flight_urls().insert(u@));
                assert(urls_distinct(self.in_flight@));
                assert forall|i: int| 0 <= i < self.in_flight@.len() implies self.dispatched_set()
                    .contains(#[trigger] self.in_flight@[i]@) by {
                    if i < pre.in_flight@.len() {
                        assert(pre.dispatched_set().contains(pre.in_flight@[i]@));
                    }
                }
            }
            Some(u)
        } else {
            None
        }
    }

    /// Record that a dispatched URL's fetch-and-save succeeded with the given
    /// link. Returns whether the URL was in flight; an unknown URL changes
    /// nothing.
    pub fn record_success(&mut self, url: &String, link: String) -> (r: bool)
        requires
            old(self).wf(),
        ensures
            final(self).wf(),
            final(self).spec_limit() == old(self).spec_limit(),
            final(self).total() == old(self).total(),
            final(self).url_views() == old(self).url_views(),
            final(self).url_set() == old(self).url_set(),
            final(self).dispatched() == old(self).dispatched(),
            old(self).in_flight_urls().contains(url@) ==> {
                &&& r == true
                &&& final(self).in_flight_urls() == old(self).in_flight_urls().remove(url@)
                &&& final(self).in_flight_count() == old(self).in_flight_count() - 1
                &&& final(self).result_map() == old(self).result_map().insert(url@, link@)
                &&& final(self).result_count() == old(self).result_count() + 1
                &&& final(self).failed_count() == old(self).failed_count()
            },
            !old(self).in_flight_urls().contains(url@) ==> r == false && *final(self) == *old(self),
    {
        let ghost pre = *self;
        let n = self.in_flight.len();
        let mut i: usize = 0;
        while i < n
            invariant
                *self == pre,
                pre == *old(self),
                pre.wf(),
                n == pre.in_flight@.len(),
                i <= n,
                forall|j: int| 0 <= j < i ==> pre.in_flight@[j]@ != url@,
            decreases n - i,
        {
            if self.in_flight[i] == *url {
                proof {
                    lemma_set_of_iff(pre.in_flight@, url@);
                    lemma_set_of_remove(pre.in_flight@, i as int);
                    assert(!pre.results@.dom().contains(url@));
                }
                self.in_flight.remove(i);
                self.results.insert(url.clone(), link);
                proof {
                    assert forall|k: int| 0 <= k < self.in_flight@.len() implies {
                        &&& pre.dispatched_set().contains(#[trigger] self.in_flight@[k]@)
                        &&& !self.results@.dom().contains(self.in_flight@[k]@)
                    } by {
                        let ko = if k < i { k } else { k + 1 };
                        assert(self.in_flight@[k] == pre.in_flight@[ko]);
                        assert(pre.dispatched_set().contains(pre.in_flight@[ko]@));
                        assert(!pre.results@.dom().contains(pre.in_flight@[ko]@));
                        assert(pre.in_flight@[ko]@ != url@);
                    }
                }
                return true;
            }
            i = i + 1;
        }
        proof {
            lemma_set_of_iff(pre.in_flight@, url@);
        }
        false
    }

    /// Record that a dispatched URL's fetch or save failed terminally; no
    /// link is recorded and the batch goes on. Returns whether the URL was in
    /// flight; an unknown URL changes nothing.
    pub fn record_failure(&mut self, url: &String) -> (r: bool)
        requires
            old(self).wf(),
        ensures
            final(self).wf(),
            final(self).spec_limit() == old(self).spec_limit(),
            final(self).total() == old(self).total(),
            final(self).url_views() == old(self).url_views(),
            final(self).url_set() == old(self).url_set(),
            final(self).dispatched() == old(self).dispatched(),
            old(self).in_flight_urls().contains(url@) ==> {
                &&& r == true
                &&& final(self).in_flight_urls() == old(self).in_flight_urls().remove(url@)
                &&& final(self).in_flight_count() == old(self).in_flight_count() - 1
                &&& final(self).result_map() == old(self).result_map()
                &&& final(self).result_count() == old(self).result_count()
                &&& final(self).failed_count() == old(self).failed_count() + 1
            },
            !old(self).in_flight_urls().contains(url@) ==> r == false && *final(self) == *old(self),
    {
        let ghost pre = *self;
        let n = self.in_flight.len();
        let mut i: usize = 0;
        while i < n
            invariant
                *self == pre,
                pre == *old(self),
                pre.wf(),
                n == pre.in_flight@.len(),
                i <= n,
                forall|j: int| 0 <= j < i ==> pre.in_flight@[j]@ != url@,
            decreases n - i,
        {
            if self.in_flight[i] == *url {
                proof {
                    lemma_set_of_iff(pre.in_flight@, url@);
                    lemma_set_of_remove(pre.in_flight@, i as int);
                }
                self.in_flight.remove(i);
                self.failed = self.failed + 1;
                proof {
                    assert forall|k: int| 0 <= k < self.in_flight@.len() implies {
                        &&& pre.dispatched_set().contains(#[trigger] self.in_flight@[k]@)
                        &&& !self.results@.dom().contains(self.in_flight@[k]@)
                    } by {
                        let ko = if k < i { k } else { k + 1 };
                        assert(self.in_flight@[k] == pre.in_flight@[ko]);
                        assert(pre.dispatched_set().contains(pre.in_flight@[ko]@));
                        assert(!pre.results@.dom().contains(pre.in_flight@[ko]@));
                    }
                }
                return true;
            }
            i = i + 1;
        }
        proof {
            lemma_set_of_iff(pre.in_flight@, url@);
        }
        false
    }

    /// Whether every URL of the batch has reached a terminal outcome.
    pub fn is_done(&self) -> (r: bool)
        ensures
            r == (self.dispatched() == self.total() && self.in_flight_count() == 0),
    {
        self.next == self.urls.len() && self.in_flight.len() == 0
    }

    pub fn in_flight_len(&self) -> (r: usize)
        ensures
            r == self.in_flight_count(),
    {
        self.in_flight.len()
    }

    pub fn results_len(&self) -> (r: usize)
        ensures
            r == self.result_count(),
    {
        self.results.len()
    }

    pub fn failed_len(&self) -> (r: usize)
        ensures
            r == self.failed_count(),
    {
        self.failed
    }

    /// Hand the completed mapping out once every task is terminal; it holds
    /// the successes only.
    pub fn finish(self) -> (r: UrlMap)
        requires
            self.wf(),
            self.dispatched() == self.total(),
            self.in_flight_count() == 0,
        ensures
            r.wf(),
            r@ == self.result_map(),
            r.spec_len() == self.result_count(),
            r.spec_len() + self.failed_count() == self.total(),
    {
        self.results
    }

    /// Law (concurrency ceiling): in every reachable scheduler state at most
    /// `limit` tasks are in flight at once.
    pub proof fn lemma_concurrency_ceiling(&self)
        requires
            self.wf(),
        ensures
            self.in_flight_count() <= self.spec_limit(),
    {
    }

    /// Law (dispatch once): the batch's URLs are pairwise distinct, and URLs
    /// are handed out by position, so no URL is ever dispatched twice.
    pub proof fn lemma_dispatch_once(&self, i: int, j: int)
        requires
            self.wf(),
            0 <= i < j < self.total(),
        ensures
            self.url_views()[i] != self.url_views()[j],
    {
    }

    /// Law (mapping holds batch URLs only): every URL in the result mapping
    /// is one of the batch's URLs — one that reached a dispatched, terminal
    /// fetch-and-save attempt.
    pub proof fn lemma_results_are_batch_urls(&self, x: Seq<char>)
        requires
            self.wf(),
            self.result_map().dom().contains(x),
        ensures
            self.url_set().contains(x),
    {
        let sub = self.urls@.subrange(0, self.next as int);
        lemma_set_of_iff(sub, x);
        let i = choose|i: int| 0 <= i < sub.len() && sub[i]@ == x;
        assert(self.urls@[i]@ == x);
        lemma_set_of_iff(self.urls@, x);
    }

    /// Law (partial failure resilience): once every task is terminal, the
    /// recorded successes and the failures partition the batch, so with `f`
    /// failures the mapping holds exactly `total - f` URLs.
    pub proof fn lemma_outcome_accounting(&self)
        requires
            self.wf(),
            self.dispatched() == self.total(),
            self.in_flight_count() == 0,
        ensures
            self.result_count() + self.failed_count() == self.total(),
    {
    }
}

} // verus!
