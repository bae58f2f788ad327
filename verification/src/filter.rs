//! Subtracting an ignore mapping from a primary mapping: for every
//! destination of the primary, the hostnames the ignore mapping lists under
//! the same destination are removed; keys are never added or removed.

use vstd::prelude::*;
use crate::aggregate::set_at;
use crate::mapping::{contains_string, lemma_map_of_contains, HostMapping};
use crate::text::views_of;

verus! {

/// The primary mapping with, under each of its keys, the ignore mapping's
/// hostnames for that key removed.
pub open spec fn apply_ignore(
    p: Map<Seq<char>, Set<Seq<char>>>,
    ig: Map<Seq<char>, Set<Seq<char>>>,
) -> Map<Seq<char>, Set<Seq<char>>> {
    Map::new(|k: Seq<char>| p.contains_key(k), |k: Seq<char>| p[k].difference(set_at(ig, k)))
}

/// Filtering keeps exactly the keys of the primary mapping, and applying
/// the same ignore mapping twice is the same as applying it once.
pub proof fn lemma_apply_ignore_idempotent(
    p: Map<Seq<char>, Set<Seq<char>>>,
    ig: Map<Seq<char>, Set<Seq<char>>>,
)
    ensures
        apply_ignore(p, ig).dom() == p.dom(),
        apply_ignore(apply_ignore(p, ig), ig) == apply_ignore(p, ig),
{
    assert(apply_ignore(p, ig).dom() =~= p.dom());
    assert(apply_ignore(apply_ignore(p, ig), ig) =~~= apply_ignore(p, ig));
}

/// The strings of `cur` whose value is not among those of `drop`, in order.
fn subtract_hosts(cur: &Vec<String>, drop: &Vec<String>) -> (r: Vec<String>)
    ensures
        views_of(r@).to_set() == views_of(cur@).to_set().difference(views_of(drop@).to_set()),
{
    let mut r: Vec<String> = Vec::new();
    let mut i: usize = 0;
    let n = cur.len();
    while i < n
        invariant
            i <= n,
            n == cur@.len(),
            forall|x: Seq<char>|
                views_of(r@).contains(x) <==> (views_of(cur@.take(i as int)).contains(x)
                    && !views_of(drop@).to_set().contains(x)),
        decreases n - i,
    {
        let ghost r0 = r@;
        let h = &cur[i];
        let keep = !contains_string(drop, h.as_str());
        if keep {
            r.push(h.clone());
        }
        proof {
            broadcast use vstd::seq_lib::lemma_seq_contains_after_push;

            let pre = views_of(cur@.take(i as int));
            let post = views_of(cur@.take(i + 1));
            assert(post =~= pre.push(h@));
            if keep {
                assert(views_of(r@) =~= views_of(r0).push(h@));
            } else {
                assert(views_of(r@) == views_of(r0));
            }
            assert forall|x: Seq<char>|
                views_of(r@).contains(x) <==> (post.contains(x) && !views_of(
                    drop@,
                ).to_set().contains(x)) by {
                assert(pre.push(h@).contains(x) <==> h@ == x || pre.contains(x));
                if keep {
                    assert(views_of(r0).push(h@).contains(x) <==> h@ == x || views_of(
                        r0,
                    ).contains(x));
                }
            }
        }
        i += 1;
    }
    proof {
        assert(cur@.take(n as int) =~= cur@);
        assert(views_of(r@).to_set() =~= views_of(cur@).to_set().difference(
            views_of(drop@).to_set(),
        ));
    }
    r
}

/// Removes from every entry of `primary` the hostnames that `ign` lists
/// under the same destination. Keys stay as they are, even when their
/// hostname set becomes empty.
pub fn ignore(primary: &mut HostMapping, ign: &HostMapping)
    requires
        old(primary).wf(),
        ign.wf(),
    ensures
        final(primary).wf(),
        final(primary)@ == apply_ignore(old(primary)@, ign@),
        final(primary)@.dom() == old(primary)@.dom(),
{
    let ghost p0 = primary@;
    let ghost kv0 = primary.kv();
    let ks = primary.keys();
    let mut i: usize = 0;
    let n = ks.len();
    while i < n
        invariant
            i <= n,
            n == ks@.len(),
            n == kv0.len(),
            primary.wf(),
            ign.wf(),
            crate::mapping::kv_wf(kv0),
            p0 == crate::mapping::map_of(kv0),
            forall|j: int| 0 <= j < n ==> ks@[j]@ == kv0[j].0,
            primary@.dom() == p0.dom(),
            forall|k: Seq<char>| #[trigger] p0.contains_key(k) ==> primary@[k] == if (exists|j: int|
                0 <= j < i && kv0[j].0 == k
            ) {
                p0[k].difference(set_at(ign@, k))
            } else {
                p0[k]
            },
        decreases n - i,
    {
        let ghost pv = primary@;
        let key = ks[i].clone();
        proof {
            lemma_map_of_contains(kv0, key@);
            assert(kv0[i as int].0 == key@);
            assert(p0.contains_key(key@));
            assert forall|j: int| 0 <= j < i implies kv0[j].0 != key@ by {
                assert(kv0[j].0 != kv0[i as int].0);
            }
            assert(primary@[key@] == p0[key@]);
        }
        let cur = primary.get(key.as_str());
        match cur {
            Some(cur_hosts) => {
                let dropped = ign.get(key.as_str());
                let filtered = match dropped {
                    Some(ign_hosts) => subtract_hosts(&cur_hosts, &ign_hosts),
                    None => {
                        proof {
                            assert(views_of(cur_hosts@).to_set() =~= views_of(
                                cur_hosts@,
                            ).to_set().difference(Set::empty()));
                        }
                        cur_hosts
                    },
                };
                proof {
                    assert(views_of(filtered@).to_set() == p0[key@].difference(
                        set_at(ign@, key@),
                    ));
                }
                primary.insert(key, filtered);
                proof {
                    assert(primary@.dom() =~= pv.dom());
                    assert forall|k: Seq<char>| #[trigger] p0.contains_key(k) implies primary@[k]
                        == if (exists|j: int| 0 <= j < i + 1 && kv0[j].0 == k) {
                        p0[k].difference(set_at(ign@, k))
                    } else {
                        p0[k]
                    } by {
                        if k == key@ {
                            assert(kv0[i as int].0 == k);
                        } else {
                            assert(primary@[k] == pv[k]);
                            assert forall|j: int| 0 <= j < i + 1 && kv0[j].0 == k implies j
                                < i by {
                                assert(kv0[j].0 != key@);
                            }
                        }
                    }
                }
            },
            None => {
                proof {
                    assert(false);
                }
            },
        }
        i += 1;
    }
    proof {
        assert forall|k: Seq<char>| #[trigger] p0.contains_key(k) implies exists|j: int|
            0 <= j < n && kv0[j].0 == k by {
            lemma_map_of_contains(kv0, k);
        }
        assert(primary@ =~~= apply_ignore(p0, ign@));
    }
}

} // verus!
