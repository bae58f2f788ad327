//! Folding raw hosts-file text into a `HostMapping`: each line is
//! normalized, its first token taken as the destination key, and the
//! remaining tokens unioned into that key's hostname set.

use vstd::prelude::*;
use crate::mapping::HostMapping;
use crate::text::{
    lemma_normalize_props, lemma_split_first_nonempty, normalize, remove_comments, split,
    split_str, views_of,
};

verus! {

/// The set a mapping binds `k` to, or the empty set if `k` is unbound.
pub open spec fn set_at(m: Map<Seq<char>, Set<Seq<char>>>, k: Seq<char>) -> Set<Seq<char>> {
    if m.contains_key(k) {
        m[k]
    } else {
        Set::empty()
    }
}

/// One raw line folded into a mapping: a line whose normal form is empty
/// changes nothing; otherwise the normal form's first token is the key and
/// the remaining tokens are unioned into its set.
pub open spec fn line_update(m: Map<Seq<char>, Set<Seq<char>>>, line: Seq<char>) -> Map<
    Seq<char>,
    Set<Seq<char>>,
> {
    let t = normalize(line);
    if t.len() == 0 {
        m
    } else {
        let ts = split(t, ' ');
        m.insert(ts[0], set_at(m, ts[0]).union(ts.drop_first().to_set()))
    }
}

/// All of `lines` folded into `m`, in order.
pub open spec fn fold_lines(m: Map<Seq<char>, Set<Seq<char>>>, lines: Seq<Seq<char>>) -> Map<
    Seq<char>,
    Set<Seq<char>>,
>
    decreases lines.len(),
{
    if lines.len() == 0 {
        m
    } else {
        line_update(fold_lines(m, lines.drop_last()), lines.last())
    }
}

/// The mapping described by a block of hosts-file text.
pub open spec fn aggregate(text: Seq<char>) -> Map<Seq<char>, Set<Seq<char>>> {
    fold_lines(Map::empty(), split(text, '\n'))
}

/// The key-by-key union of two mappings.
pub open spec fn merge(m1: Map<Seq<char>, Set<Seq<char>>>, m2: Map<Seq<char>, Set<Seq<char>>>) -> Map<
    Seq<char>,
    Set<Seq<char>>,
> {
    Map::new(
        |k: Seq<char>| m1.contains_key(k) || m2.contains_key(k),
        |k: Seq<char>| set_at(m1, k).union(set_at(m2, k)),
    )
}

/// Folding a concatenation of line blocks folds them one after the other.
pub(crate) proof fn lemma_fold_lines_app(
    m: Map<Seq<char>, Set<Seq<char>>>,
    l1: Seq<Seq<char>>,
    l2: Seq<Seq<char>>,
)
    ensures
        fold_lines(m, l1 + l2) == fold_lines(fold_lines(m, l1), l2),
    decreases l2.len(),
{
    if l2.len() == 0 {
        assert(l1 + l2 =~= l1);
    } else {
        assert((l1 + l2).drop_last() =~= l1 + l2.drop_last());
        assert((l1 + l2).last() == l2.last());
        lemma_fold_lines_app(m, l1, l2.drop_last());
    }
}

proof fn lemma_line_update_merge(
    m1: Map<Seq<char>, Set<Seq<char>>>,
    f: Map<Seq<char>, Set<Seq<char>>>,
    line: Seq<char>,
)
    ensures
        line_update(merge(m1, f), line) == merge(m1, line_update(f, line)),
{
    let t = normalize(line);
    if t.len() > 0 {
        assert(line_update(merge(m1, f), line) =~~= merge(m1, line_update(f, line)));
    }
}

proof fn lemma_fold_lines_merge(m1: Map<Seq<char>, Set<Seq<char>>>, l: Seq<Seq<char>>)
    ensures
        fold_lines(m1, l) == merge(m1, fold_lines(Map::empty(), l)),
    decreases l.len(),
{
    if l.len() == 0 {
        assert(merge(m1, Map::empty()) =~~= m1);
    } else {
        lemma_fold_lines_merge(m1, l.drop_last());
        lemma_line_update_merge(m1, fold_lines(Map::empty(), l.drop_last()), l.last());
    }
}

/// Aggregating the concatenation of two texts (joined by a newline) gives,
/// key by key, the union of the two mappings aggregated independently:
/// merging is order-independent set union.
pub proof fn lemma_aggregate_concat(t1: Seq<char>, t2: Seq<char>)
    ensures
        aggregate(t1 + seq!['\n'] + t2) == merge(aggregate(t1), aggregate(t2)),
{
    crate::text::lemma_split_concat_sep(t1, t2, '\n');
    lemma_fold_lines_app(Map::empty(), split(t1, '\n'), split(t2, '\n'));
    lemma_fold_lines_merge(aggregate(t1), split(t2, '\n'));
}

pub(crate) proof fn lemma_to_set_concat(x: Seq<Seq<char>>, y: Seq<Seq<char>>)
    ensures
        (x + y).to_set() == x.to_set().union(y.to_set()),
{
    assert forall|e: Seq<char>| (x + y).to_set().contains(e) implies x.to_set().union(
        y.to_set(),
    ).contains(e) by {
        let i = choose|i: int| 0 <= i < (x + y).len() && (x + y)[i] == e;
        if i < x.len() {
            assert(x[i] == e);
        } else {
            assert(y[i - x.len()] == e);
        }
    }
    assert forall|e: Seq<char>| x.to_set().union(y.to_set()).contains(e) implies (x
        + y).to_set().contains(e) by {
        if x.to_set().contains(e) {
            let i = choose|i: int| 0 <= i < x.len() && x[i] == e;
            assert((x + y)[i] == e);
        } else {
            let i = choose|i: int| 0 <= i < y.len() && y[i] == e;
            assert((x + y)[x.len() + i] == e);
        }
    }
    assert((x + y).to_set() =~= x.to_set().union(y.to_set()));
}

/// Builds the mapping described by `hosts`: lines are normalized, split on
/// single spaces, and union-merged by their first token.
pub fn hosts_to_hashmap(hosts: &str) -> (r: HostMapping)
    ensures
        r.wf(),
        r@ == aggregate(hosts@),
{
    let lines = split_str(hosts, '\n');
    let mut m = HostMapping::new();
    let mut i: usize = 0;
    let n = lines.len();
    proof {
        assert(views_of(lines@).take(0) =~= Seq::<Seq<char>>::empty());
    }
    while i < n
        invariant
            i <= n,
            n == lines@.len(),
            m.wf(),
            views_of(lines@) == split(hosts@, '\n'),
            m@ == fold_lines(Map::empty(), views_of(lines@).take(i as int)),
        decreases n - i,
    {
        let ghost lv = views_of(lines@);
        let ghost m0 = m@;
        proof {
            assert(lv.take(i + 1).drop_last() =~= lv.take(i as int));
            assert(lv.take(i + 1).last() == lv[i as int]);
            assert(lv[i as int] == lines@[i as int]@);
        }
        let cleared = remove_comments(lines[i].as_str());
        if !cleared.as_str().is_empty() {
            let ghost t = normalize(lv[i as int]);
            let ghost ts = split(t, ' ');
            proof {
                lemma_normalize_props(lv[i as int]);
                lemma_split_first_nonempty(t, ' ');
            }
            let mut tokens = split_str(cleared.as_str(), ' ');
            let key = tokens.remove(0);
            proof {
                assert(views_of(tokens@) =~= ts.drop_first());
                assert(key@ == ts[0]);
            }
            let prev = m.get(key.as_str());
            match prev {
                Some(mut v) => {
                    let ghost v0 = v@;
                    let ghost tk0 = tokens@;
                    v.append(&mut tokens);
                    proof {
                        assert(views_of(v@) =~= views_of(v0) + views_of(tk0));
                        lemma_to_set_concat(views_of(v0), ts.drop_first());
                    }
                    m.insert(key, v);
                },
                None => {
                    proof {
                        assert(Set::empty().union(ts.drop_first().to_set()) =~= ts.drop_first().to_set());
                    }
                    m.insert(key, tokens);
                },
            }
            proof {
                assert(m@ == line_update(m0, lv[i as int]));
            }
        } else {
            proof {
                assert(m@ == line_update(m0, lv[i as int]));
            }
        }
        i += 1;
    }
    proof {
        assert(views_of(lines@).take(n as int) =~= views_of(lines@));
    }
    m
}

} // verus!
