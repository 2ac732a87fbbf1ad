use vstd::prelude::*;

verus! {

// ---------------------------------------------------------------------------
// URL -> local link mapping
// ---------------------------------------------------------------------------

/// The mathematical map held by a list of key/value entries; a later entry
/// for the same key would win, but well-formed containers keep keys distinct.
pub open spec fn map_of(entries: Seq<(String, String)>) -> Map<Seq<char>, Seq<char>>
    decreases entries.len(),
{
    if entries.len() == 0 {
        Map::empty()
    } else {
        map_of(entries.drop_last()).insert(entries.last().0@, entries.last().1@)
    }
}

/// Keys are pairwise distinct.
pub open spec fn keys_distinct(entries: Seq<(String, String)>) -> bool {
    forall|a: int, b: int|
        0 <= a < b < entries.len() ==> entries[a].0@ != entries[b].0@
}

proof fn lemma_map_of_entry(entries: Seq<(String, String)>, i: int)
    requires
        0 <= i < entries.len(),
        keys_distinct(entries),
    ensures
        map_of(entries).dom().contains(entries[i].0@),
        map_of(entries)[entries[i].0@] == entries[i].1@,
    decreases entries.len(),
{
    if i < entries.len() - 1 {
        assert(keys_distinct(entries.drop_last()));
        lemma_map_of_entry(entries.drop_last(), i);
        assert(entries.drop_last()[i] == entries[i]);
    }
}

proof fn lemma_map_of_absent(entries: Seq<(String, String)>, x: Seq<char>)
    requires
        forall|i: int| 0 <= i < entries.len() ==> entries[i].0@ != x,
    ensures
        !map_of(entries).dom().contains(x),
    decreases entries.len(),
{
    if entries.len() > 0 {
        assert(forall|i: int|
            0 <= i < entries.drop_last().len() ==> entries.drop_last()[i].0@ != x);
        lemma_map_of_absent(entries.drop_last(), x);
    }
}

/// The mapping from fetched URLs to the local links recorded for them; only
/// URLs whose fetch and save both succeeded ever gain an entry.
pub struct UrlMap {
    entries: Vec<(String, String)>,
}

impl View for UrlMap {
    type V = Map<Seq<char>, Seq<char>>;

    closed spec fn view(&self) -> Map<Seq<char>, Seq<char>> {
        map_of(self.entries@)
    }
}

impl UrlMap {
    /// Every key appears once.
    pub closed spec fn wf(&self) -> bool {
        keys_distinct(self.entries@)
    }

    /// How many URLs have a recorded link.
    pub closed spec fn spec_len(&self) -> nat {
        self.entries@.len()
    }

    pub fn new() -> (r: UrlMap)
        ensures
            r.wf(),
            r@ == Map::<Seq<char>, Seq<char>>::empty(),
            r.spec_len() == 0,
    {
        UrlMap { entries: Vec::new() }
    }

    pub fn len(&self) -> (r: usize)
        ensures
            r == self.spec_len(),
    {
        self.entries.len()
    }

    /// Look a URL up; `Some` exactly when the mapping holds it.
    pub fn get(&self, k: &String) -> (r: Option<&String>)
        requires
            self.wf(),
        ensures
            (match r {
                Some(v) => self@.dom().contains(k@) && v@ == self@[k@],
                None => !self@.dom().contains(k@),
            }),
    {
        let mut i: usize = 0;
        while i < self.entries.len()
            invariant
                self.wf(),
                i <= self.entries@.len(),
                forall|j: int| 0 <= j < i ==> self.entries@[j].0@ != k@,
            decreases self.entries@.len() - i,
        {
            if self.entries[i].0 == *k {
                proof {
                    lemma_map_of_entry(self.entries@, i as int);
                }
                return Some(&self.entries[i].1);
            }
            i = i + 1;
        }
        proof {
            lemma_map_of_absent(self.entries@, k@);
        }
        None
    }

    /// Record the link for a URL not seen before.
    pub fn insert(&mut self, k: String, v: String)
        requires
            old(self).wf(),
            !old(self)@.dom().contains(k@),
        ensures
            final(self).wf(),
            final(self)@ == old(self)@.insert(k@, v@),
            final(self).spec_len() == old(self).spec_len() + 1,
    {
        proof {
            if exists|i: int| 0 <= i < self.entries@.len() && self.entries@[i].0@ == k@ {
                let i = choose|i: int|
                    0 <= i < self.entries@.len() && self.entries@[i].0@ == k@;
                lemma_map_of_entry(self.entries@, i);
            }
        }
        let ghost pre = self.entries@;
        self.entries.push((k, v));
        proof {
            assert(self.entries@.drop_last() =~= pre);
        }
    }
}

// ---------------------------------------------------------------------------
// Deduplicated URL set
// ---------------------------------------------------------------------------

/// The mathematical set held by a list of URLs.
pub open spec fn set_of(urls: Seq<String>) -> Set<Seq<char>>
    decreases urls.len(),
{
    if urls.len() == 0 {
        Set::empty()
    } else {
        set_of(urls.drop_last()).insert(urls.last()@)
    }
}

/// Entries are pairwise distinct strings.
pub open spec fn urls_distinct(urls: Seq<String>) -> bool {
    forall|a: int, b: int| 0 <= a < b < urls.len() ==> urls[a]@ != urls[b]@
}

proof fn lemma_set_of_entry(urls: Seq<String>, i: int)
    requires
        0 <= i < urls.len(),
    ensures
        set_of(urls).contains(urls[i]@),
    decreases urls.len(),
{
    if i < urls.len() - 1 {
        lemma_set_of_entry(urls.drop_last(), i);
    }
}

proof fn lemma_set_of_absent(urls: Seq<String>, x: Seq<char>)
    requires
        forall|i: int| 0 <= i < urls.len() ==> urls[i]@ != x,
    ensures
        !set_of(urls).contains(x),
    decreases urls.len(),
{
    if urls.len() > 0 {
        assert(forall|i: int|
            0 <= i < urls.drop_last().len() ==> urls.drop_last()[i]@ != x);
        lemma_set_of_absent(urls.drop_last(), x);
    }
}

/// Membership in the set is exactly having an entry in the list.
pub proof fn lemma_set_of_iff(urls: Seq<String>, x: Seq<char>)
    ensures
        set_of(urls).contains(x) <==> exists|i: int| 0 <= i < urls.len() && urls[i]@ == x,
    decreases urls.len(),
{
    if urls.len() > 0 {
        lemma_set_of_iff(urls.drop_last(), x);
        if set_of(urls).contains(x) {
            if x == urls.last()@ {
                assert(urls[urls.len() - 1]@ == x);
            } else {
                let i = choose|i: int| 0 <= i < urls.drop_last().len() && urls.drop_last()[i]@ == x;
                assert(urls[i]@ == x);
            }
        }
        if exists|i: int| 0 <= i < urls.len() && urls[i]@ == x {
            let i = choose|i: int| 0 <= i < urls.len() && urls[i]@ == x;
            if i < urls.len() - 1 {
                assert(urls.drop_last()[i]@ == x);
            }
        }
    }
}

/// Removing one entry of a duplicate-free list removes exactly its element
/// from the set.
pub proof fn lemma_set_of_remove(urls: Seq<String>, i: int)
    requires
        0 <= i < urls.len(),
        urls_distinct(urls),
    ensures
        urls_distinct(urls.remove(i)),
        set_of(urls.remove(i)) =~= set_of(urls).remove(urls[i]@),
    decreases urls.len(),
{
    assert(forall|a: int, b: int|
        0 <= a < b < urls.remove(i).len() ==> urls.remove(i)[a]@ != urls.remove(i)[b]@);
    if i == urls.len() - 1 {
        assert(urls.remove(i) =~= urls.drop_last());
        assert(forall|j: int| 0 <= j < urls.drop_last().len() ==> urls.drop_last()[j]@ != urls[i]@);
        lemma_set_of_absent(urls.drop_last(), urls[i]@);
        assert(set_of(urls.drop_last()) =~= set_of(urls.drop_last()).insert(urls[i]@).remove(
            urls[i]@,
        ));
    } else {
        assert(urls_distinct(urls.drop_last()));
        lemma_set_of_remove(urls.drop_last(), i);
        assert(urls.remove(i).drop_last() =~= urls.drop_last().remove(i));
        assert(urls.remove(i).last() == urls.last());
        assert(set_of(urls.remove(i)) == set_of(urls.drop_last().remove(i)).insert(urls.last()@));
        assert(urls.last()@ != urls[i]@);
        assert(set_of(urls.drop_last()).remove(urls[i]@).insert(urls.last()@) =~= set_of(
            urls.drop_last(),
        ).insert(urls.last()@).remove(urls[i]@));
    }
}

/// The set of distinct image URLs discovered over a whole batch; inserting a
/// URL seen before leaves it unchanged, so each URL is held — and later
/// dispatched — once.
pub struct UrlSet {
    urls: Vec<String>,
}

impl View for UrlSet {
    type V = Set<Seq<char>>;

    closed spec fn view(&self) -> Set<Seq<char>> {
        set_of(self.urls@)
    }
}

impl UrlSet {
    pub closed spec fn wf(&self) -> bool {
        urls_distinct(self.urls@)
    }

    pub closed spec fn spec_len(&self) -> nat {
        self.urls@.len()
    }

    pub fn new() -> (r: UrlSet)
        ensures
            r.wf(),
            r@ == Set::<Seq<char>>::empty(),
            r.spec_len() == 0,
    {
        UrlSet { urls: Vec::new() }
    }

    pub fn len(&self) -> (r: usize)
        ensures
            r == self.spec_len(),
    {
        self.urls.len()
    }

    pub fn contains(&self, u: &String) -> (r: bool)
        ensures
            r == self@.contains(u@),
    {
        let mut i: usize = 0;
        while i < self.urls.len()
            invariant
                i <= self.urls@.len(),
                forall|j: int| 0 <= j < i ==> self.urls@[j]@ != u@,
            decreases self.urls@.len() - i,
        {
            if self.urls[i] == *u {
                proof {
                    lemma_set_of_entry(self.urls@, i as int);
                }
                return true;
            }
            i = i + 1;
        }
        proof {
            lemma_set_of_absent(self.urls@, u@);
        }
        false
    }

    /// Add a URL; a URL already present is not added again.
    pub fn insert(&mut self, u: String)
        requires
            old(self).wf(),
        ensures
            final(self).wf(),
            final(self)@ == old(self)@.insert(u@),
            final(self).spec_len() == old(self).spec_len() + (
                if old(self)@.contains(u@) { 0int } else { 1int }
            ),
    {
        if self.contains(&u) {
            proof {
                assert(self@.insert(u@) =~= self@);
            }
        } else {
            let ghost pre = self.urls@;
            proof {
                if exists|i: int| 0 <= i < pre.len() && pre[i]@ == u@ {
                    let i = choose|i: int| 0 <= i < pre.len() && pre[i]@ == u@;
                    lemma_set_of_entry(pre, i);
                }
            }
            self.urls.push(u);
            proof {
                assert(self.urls@.drop_last() =~= pre);
            }
        }
    }

    /// Hand the distinct URLs out for dispatch.
    pub fn into_vec(self) -> (r: Vec<String>)
        requires
            self.wf(),
        ensures
            urls_distinct(r@),
            set_of(r@) == self@,
            r@.len() == self.spec_len(),
    {
        self.urls
    }
}

} // verus!
