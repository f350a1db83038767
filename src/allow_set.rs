use vstd::prelude::*;

verus! {

/// The set of peer addresses (in textual form, without a port) that the relay admits.
///
/// Entries are kept in insertion order, each at most once. Nothing is ever removed.
pub struct AllowSet {
    ips: Vec<String>,
}

/// The textual addresses held by a vector of strings.
pub open spec fn texts(v: Seq<String>) -> Seq<Seq<char>> {
    v.map_values(|s: String| s@)
}

impl View for AllowSet {
    type V = Set<Seq<char>>;

    closed spec fn view(&self) -> Set<Seq<char>> {
        texts(self.ips@).to_set()
    }
}

impl AllowSet {
    /// No address is stored twice.
    pub closed spec fn wf(&self) -> bool {
        texts(self.ips@).no_duplicates()
    }

    /// An empty allow-set.
    pub fn new() -> (r: AllowSet)
        ensures
            r.wf(),
            r@ == Set::<Seq<char>>::empty(),
    {
        let r = AllowSet { ips: Vec::new() };
        assert(texts(r.ips@) =~= Seq::<Seq<char>>::empty());
        r
    }

    /// Number of distinct addresses admitted.
    pub fn len(&self) -> (r: usize)
        requires
            self.wf(),
        ensures
            r as nat == self@.len(),
    {
        proof {
            texts(self.ips@).unique_seq_to_set();
        }
        self.ips.len()
    }

    /// Point-in-time membership test.
    pub fn contains(&self, ip: &String) -> (r: bool)
        ensures
            r == self@.contains(ip@),
    {
        let mut i: usize = 0;
        while i < self.ips.len()
            invariant
                0 <= i <= self.ips@.len(),
                forall|j: int| 0 <= j < i ==> texts(self.ips@)[j] != ip@,
            decreases self.ips@.len() - i,
        {
            if self.ips[i] == *ip {
                proof {
                    assert(texts(self.ips@)[i as int] == ip@);
                }
                return true;
            }
            i = i + 1;
        }
        proof {
            if texts(self.ips@).to_set().contains(ip@) {
                let k = texts(self.ips@).index_of(ip@);
                assert(texts(self.ips@)[k] == ip@);
            }
        }
        false
    }

    /// Adds `ip`; a no-op when it is already present.
    pub fn insert(&mut self, ip: String)
        requires
            old(self).wf(),
        ensures
            final(self).wf(),
            final(self)@ == old(self)@.insert(ip@),
    {
        if !self.contains(&ip) {
            let ghost before = texts(self.ips@);
            let ghost v = ip@;
            self.ips.push(ip);
            proof {
                assert(texts(self.ips@) =~= before.push(v));
                before.lemma_push_to_set_commute(v);
                assert forall|a: int, b: int|
                    0 <= a < b < texts(self.ips@).len() implies texts(self.ips@)[a]
                    != texts(self.ips@)[b] by {
                    if b == before.len() {
                        assert(before.contains(before[a]));
                    }
                }
            }
        } else {
            assert(old(self)@.insert(ip@) =~= old(self)@);
        }
    }

    /// A copy of the current members, each once, in no promised order.
    pub fn snapshot(&self) -> (r: Vec<String>)
        requires
            self.wf(),
        ensures
            texts(r@).to_set() == self@,
            texts(r@).no_duplicates(),
    {
        self.ips.clone()
    }
}

} // verus!
