//! The canonical mapping from destination address to a deduplicated set of
//! hostnames, stored as a vector of entries with pairwise-distinct keys.

use vstd::prelude::*;
use crate::text::{str_eq, views_of};

verus! {

/// One destination with its hostnames, in insertion order, deduplicated.
struct HostEntry {
    key: String,
    hosts: Vec<String>,
}

/// A mapping from destination address to a set of hostnames.
///
/// Its mathematical view (`@`) is a `Map<Seq<char>, Set<Seq<char>>>`; the
/// entry order, visible through `kv`, only determines how the mapping is
/// rendered back to text.
pub struct HostMapping {
    entries: Vec<HostEntry>,
}

/// Well-formedness of the entry list: keys pairwise distinct and non-empty,
/// hostname lists free of duplicates.
pub open spec fn kv_wf(kv: Seq<(Seq<char>, Seq<Seq<char>>)>) -> bool {
    &&& forall|i: int, j: int| 0 <= i < j < kv.len() ==> kv[i].0 != kv[j].0
    &&& forall|i: int| 0 <= i < kv.len() ==> kv[i].0.len() > 0
    &&& forall|i: int| 0 <= i < kv.len() ==> kv[i].1.no_duplicates()
}

/// The map denoted by an entry list: each key bound to the set of its
/// hostnames, later entries overriding earlier ones with the same key.
pub open spec fn map_of(kv: Seq<(Seq<char>, Seq<Seq<char>>)>) -> Map<Seq<char>, Set<Seq<char>>>
    decreases kv.len(),
{
    if kv.len() == 0 {
        Map::empty()
    } else {
        map_of(kv.drop_last()).insert(kv.last().0, kv.last().1.to_set())
    }
}

pub(crate) proof fn lemma_map_of_contains(kv: Seq<(Seq<char>, Seq<Seq<char>>)>, k: Seq<char>)
    ensures
        map_of(kv).contains_key(k) <==> exists|i: int| 0 <= i < kv.len() && kv[i].0 == k,
    decreases kv.len(),
{
    if kv.len() > 0 {
        lemma_map_of_contains(kv.drop_last(), k);
        if kv.last().0 == k {
            assert(kv[kv.len() - 1].0 == k);
        } else if map_of(kv).contains_key(k) {
            let i = choose|i: int| 0 <= i < kv.drop_last().len() && kv.drop_last()[i].0 == k;
            assert(kv[i].0 == k);
        } else if exists|i: int| 0 <= i < kv.len() && kv[i].0 == k {
            let i = choose|i: int| 0 <= i < kv.len() && kv[i].0 == k;
            assert(kv.drop_last()[i].0 == k);
        }
    }
}

pub(crate) proof fn lemma_map_of_at(kv: Seq<(Seq<char>, Seq<Seq<char>>)>, i: int)
    requires
        forall|x: int, y: int| 0 <= x < y < kv.len() ==> kv[x].0 != kv[y].0,
        0 <= i < kv.len(),
    ensures
        map_of(kv).contains_key(kv[i].0),
        map_of(kv)[kv[i].0] == kv[i].1.to_set(),
    decreases kv.len(),
{
    if i == kv.len() - 1 {
    } else {
        lemma_map_of_at(kv.drop_last(), i);
        assert(kv.drop_last()[i] == kv[i]);
        assert(kv.last().0 != kv[i].0);
    }
}

proof fn lemma_map_of_update(kv: Seq<(Seq<char>, Seq<Seq<char>>)>, i: int, p: (Seq<char>, Seq<Seq<char>>))
    requires
        forall|x: int, y: int| 0 <= x < y < kv.len() ==> kv[x].0 != kv[y].0,
        0 <= i < kv.len(),
        p.0 == kv[i].0,
    ensures
        map_of(kv.update(i, p)) == map_of(kv).insert(p.0, p.1.to_set()),
    decreases kv.len(),
{
    let u = kv.update(i, p);
    if i == kv.len() - 1 {
        assert(u.drop_last() =~= kv.drop_last());
        assert(u.last() == p);
        assert(map_of(kv).insert(p.0, p.1.to_set()) =~= map_of(kv.drop_last()).insert(
            p.0,
            p.1.to_set(),
        ));
    } else {
        assert(u.drop_last() =~= kv.drop_last().update(i, p));
        assert(u.last() == kv.last());
        assert(kv.drop_last()[i] == kv[i]);
        lemma_map_of_update(kv.drop_last(), i, p);
        assert(kv.last().0 != p.0);
        assert(map_of(kv.drop_last()).insert(p.0, p.1.to_set()).insert(
            kv.last().0,
            kv.last().1.to_set(),
        ) =~= map_of(kv.drop_last()).insert(kv.last().0, kv.last().1.to_set()).insert(
            p.0,
            p.1.to_set(),
        ));
    }
}

/// Whether some string in `v` has view `x`.
pub(crate) fn contains_string(v: &Vec<String>, x: &str) -> (r: bool)
    ensures
        r == views_of(v@).contains(x@),
{
    let mut i: usize = 0;
    let n = v.len();
    while i < n
        invariant
            i <= n,
            n == v@.len(),
            forall|j: int| 0 <= j < i ==> views_of(v@)[j] != x@,
        decreases n - i,
    {
        if str_eq(v[i].as_str(), x) {
            proof {
                assert(views_of(v@)[i as int] == x@);
            }
            return true;
        }
        i += 1;
    }
    false
}

/// A copy of `hosts` with duplicates (by string value) removed, keeping the
/// first occurrence of each.
fn dedup_hosts(hosts: &Vec<String>) -> (r: Vec<String>)
    ensures
        views_of(r@).no_duplicates(),
        views_of(r@).to_set() == views_of(hosts@).to_set(),
{
    let mut r: Vec<String> = Vec::new();
    let mut i: usize = 0;
    let n = hosts.len();
    while i < n
        invariant
            i <= n,
            n == hosts@.len(),
            views_of(r@).no_duplicates(),
            forall|x: Seq<char>|
                views_of(r@).contains(x) <==> views_of(hosts@.take(i as int)).contains(x),
        decreases n - i,
    {
        let ghost r0 = r@;
        let h = &hosts[i];
        let absent = !contains_string(&r, h.as_str());
        if absent {
            r.push(h.clone());
        }
        proof {
            broadcast use vstd::seq_lib::lemma_seq_contains_after_push;

            let pre = views_of(hosts@.take(i as int));
            let post = views_of(hosts@.take(i + 1));
            assert(post =~= pre.push(h@));
            if absent {
                assert(views_of(r@) =~= views_of(r0).push(h@));
                assert forall|a: int| 0 <= a < views_of(r0).len() implies views_of(r0)[a]
                    != h@ by {
                    assert(views_of(r0).contains(views_of(r0)[a]));
                }
                assert(views_of(r@).drop_last() =~= views_of(r0));
            } else {
                assert(views_of(r@) == views_of(r0));
            }
            assert forall|x: Seq<char>| views_of(r@).contains(x) <==> post.contains(x) by {
                assert(views_of(r0).push(h@).contains(x) <==> h@ == x || views_of(r0).contains(
                    x,
                ));
                assert(pre.push(h@).contains(x) <==> h@ == x || pre.contains(x));
                if !absent && h@ == x {
                    assert(views_of(r@).contains(x));
                }
            }
        }
        i += 1;
    }
    proof {
        assert(hosts@.take(n as int) =~= hosts@);
        assert(views_of(r@).to_set() =~= views_of(hosts@).to_set());
    }
    r
}

impl HostMapping {
    /// The ordered contents: one pair per entry, key first.
    pub closed spec fn kv(&self) -> Seq<(Seq<char>, Seq<Seq<char>>)> {
        self.entries@.map_values(|e: HostEntry| (e.key@, views_of(e.hosts@)))
    }

    /// The mapping's invariant.
    pub open spec fn wf(&self) -> bool {
        kv_wf(self.kv())
    }

    /// An empty mapping.
    pub fn new() -> (r: HostMapping)
        ensures
            r.wf(),
            r.kv() == Seq::<(Seq<char>, Seq<Seq<char>>)>::empty(),
            r@ == Map::<Seq<char>, Set<Seq<char>>>::empty(),
    {
        let r = HostMapping { entries: Vec::new() };
        proof {
            assert(r.kv() =~= Seq::<(Seq<char>, Seq<Seq<char>>)>::empty());
        }
        r
    }

    fn find_key(&self, key: &str) -> (r: Option<usize>)
        ensures
            match r {
                Some(i) => i < self.kv().len() && self.kv()[i as int].0 == key@,
                None => forall|i: int| 0 <= i < self.kv().len() ==> self.kv()[i].0 != key@,
            },
    {
        let mut i: usize = 0;
        let n = self.entries.len();
        while i < n
            invariant
                i <= n,
                n == self.kv().len(),
                forall|j: int| 0 <= j < i ==> self.kv()[j].0 != key@,
            decreases n - i,
        {
            if str_eq(self.entries[i].key.as_str(), key) {
                return Some(i);
            }
            i += 1;
        }
        None
    }

    /// Binds `key` to the set of strings in `hosts` (deduplicated),
    /// replacing any previous binding.
    pub fn insert(&mut self, key: String, hosts: Vec<String>)
        requires
            old(self).wf(),
            key@.len() > 0,
        ensures
            final(self).wf(),
            final(self)@ == old(self)@.insert(key@, views_of(hosts@).to_set()),
    {
        let hs = dedup_hosts(&hosts);
        let idx = self.find_key(key.as_str());
        match idx {
            None => {
                let ghost kv0 = self.kv();
                self.entries.push(HostEntry { key, hosts: hs });
                proof {
                    let kvn = self.kv();
                    assert(kvn =~= kv0.push((key@, views_of(hs@))));
                    assert(kvn.drop_last() =~= kv0);
                    assert forall|i: int, j: int| 0 <= i < j < kvn.len() implies kvn[i].0
                        != kvn[j].0 by {
                        if j < kv0.len() {
                            assert(kv0[i].0 != kv0[j].0);
                        } else {
                            assert(kv0[i].0 != key@);
                        }
                    }
                }
            },
            Some(i) => {
                let ghost kv0 = self.kv();
                let mut e = self.entries.remove(i);
                e.key = key;
                e.hosts = hs;
                self.entries.insert(i, e);
                proof {
                    let kvn = self.kv();
                    let p = (key@, views_of(hs@));
                    assert(kvn =~= kv0.update(i as int, p));
                    lemma_map_of_update(kv0, i as int, p);
                    assert forall|x: int, y: int| 0 <= x < y < kvn.len() implies kvn[x].0
                        != kvn[y].0 by {
                        assert(kv0[x].0 != kv0[y].0);
                    }
                }
            },
        }
    }

    /// The hostnames bound to `key`, or `None` if `key` is not bound.
    pub fn get(&self, key: &str) -> (r: Option<Vec<String>>)
        requires
            self.wf(),
        ensures
            match r {
                Some(v) => {
                    &&& self@.contains_key(key@)
                    &&& views_of(v@).to_set() == self@[key@]
                    &&& views_of(v@).no_duplicates()
                },
                None => !self@.contains_key(key@),
            },
    {
        let idx = self.find_key(key);
        match idx {
            Some(i) => {
                proof {
                    lemma_map_of_at(self.kv(), i as int);
                }
                let mut v: Vec<String> = Vec::new();
                let hosts = &self.entries[i].hosts;
                let mut j: usize = 0;
                let n = hosts.len();
                while j < n
                    invariant
                        j <= n,
                        n == hosts@.len(),
                        v@.len() == j,
                        forall|x: int| 0 <= x < j ==> v@[x] == hosts@[x],
                    decreases n - j,
                {
                    v.push(hosts[j].clone());
                    j += 1;
                }
                proof {
                    assert(v@ =~= hosts@);
                    assert(views_of(v@) =~= self.kv()[i as int].1);
                }
                Some(v)
            },
            None => {
                proof {
                    lemma_map_of_contains(self.kv(), key@);
                }
                None
            },
        }
    }

    /// All keys, in entry order.
    pub fn keys(&self) -> (r: Vec<String>)
        ensures
            r@.len() == self.kv().len(),
            forall|i: int| 0 <= i < r@.len() ==> r@[i]@ == self.kv()[i].0,
    {
        let mut r: Vec<String> = Vec::new();
        let mut i: usize = 0;
        let n = self.entries.len();
        while i < n
            invariant
                i <= n,
                n == self.kv().len(),
                n == self.entries@.len(),
                r@.len() == i,
                forall|j: int| 0 <= j < i ==> r@[j]@ == self.kv()[j].0,
            decreases n - i,
        {
            r.push(self.entries[i].key.clone());
            i += 1;
        }
        r
    }

    /// How many destinations the mapping holds.
    pub fn len(&self) -> (n: usize)
        ensures
            n == self.kv().len(),
    {
        self.entries.len()
    }

    pub(crate) fn key_at(&self, i: usize) -> (k: &String)
        requires
            i < self.kv().len(),
        ensures
            k@ == self.kv()[i as int].0,
    {
        &self.entries[i].key
    }

    pub(crate) fn hosts_at(&self, i: usize) -> (h: &Vec<String>)
        requires
            i < self.kv().len(),
        ensures
            views_of(h@) == self.kv()[i as int].1,
    {
        &self.entries[i].hosts
    }
}

impl View for HostMapping {
    type V = Map<Seq<char>, Set<Seq<char>>>;

    open spec fn view(&self) -> Map<Seq<char>, Set<Seq<char>>> {
        map_of(self.kv())
    }
}

} // verus!
