//! Rendering a `HostMapping` back to hosts-file text: each destination's
//! hostnames are cut into chunks of at most `compression_level`, and every
//! chunk becomes one `<destination> <hostname> ...` line.

use vstd::prelude::*;
use crate::aggregate::{
    aggregate, fold_lines, lemma_fold_lines_app, lemma_to_set_concat, line_update, set_at,
};
use crate::mapping::{kv_wf, lemma_map_of_at, lemma_map_of_contains, map_of, HostMapping};
use crate::text::{
    is_space, is_token, join_space, lemma_split_append_tail, lemma_split_concat_sep,
    lemma_split_no_sep, lemma_strip_comment_id, normalize, split, trim_end, trim_start, views_of,
};

verus! {

/// `hs` cut into consecutive pieces of at most `k` elements; the last piece
/// may be shorter, and an empty `hs` has no pieces.
pub open spec fn chunks_of(hs: Seq<Seq<char>>, k: nat) -> Seq<Seq<Seq<char>>>
    decreases hs.len(),
{
    if k == 0 || hs.len() == 0 {
        Seq::empty()
    } else if hs.len() <= k {
        seq![hs]
    } else {
        seq![hs.take(k as int)] + chunks_of(hs.skip(k as int), k)
    }
}

/// The output lines of one entry: one line per chunk, the key first.
pub open spec fn entry_lines(key: Seq<char>, hs: Seq<Seq<char>>, k: nat) -> Seq<Seq<char>> {
    chunks_of(hs, k).map_values(|c: Seq<Seq<char>>| key + seq![' '] + join_space(c))
}

/// The output lines of a whole entry list, in entry order.
pub open spec fn render_lines(kv: Seq<(Seq<char>, Seq<Seq<char>>)>, k: nat) -> Seq<Seq<char>>
    decreases kv.len(),
{
    if kv.len() == 0 {
        Seq::empty()
    } else {
        render_lines(kv.drop_last(), k) + entry_lines(kv.last().0, kv.last().1, k)
    }
}

/// Lines joined with one `'\n'` after each.
pub open spec fn unlines(ls: Seq<Seq<char>>) -> Seq<char>
    decreases ls.len(),
{
    if ls.len() == 0 {
        Seq::empty()
    } else {
        unlines(ls.drop_last()) + ls.last() + seq!['\n']
    }
}

/// The serialized text of an entry list.
pub open spec fn render(kv: Seq<(Seq<char>, Seq<Seq<char>>)>, k: nat) -> Seq<char> {
    unlines(render_lines(kv, k))
}

proof fn lemma_unlines_app(a: Seq<Seq<char>>, b: Seq<Seq<char>>)
    ensures
        unlines(a + b) == unlines(a) + unlines(b),
    decreases b.len(),
{
    if b.len() == 0 {
        assert(a + b =~= a);
        assert(unlines(a) + Seq::<char>::empty() =~= unlines(a));
    } else {
        assert((a + b).drop_last() =~= a + b.drop_last());
        assert((a + b).last() == b.last());
        lemma_unlines_app(a, b.drop_last());
        assert((unlines(a) + unlines(b.drop_last())) + b.last() + seq!['\n'] =~= unlines(a) + (
        unlines(b.drop_last()) + b.last() + seq!['\n']));
    }
}

/// The first piece of a non-empty `hs` holds its first `min(k, hs.len())`
/// elements.
proof fn lemma_chunks_step(hs: Seq<Seq<char>>, k: nat)
    requires
        k >= 1,
        hs.len() > 0,
    ensures
        ({
            let d = if hs.len() <= k {
                hs.len() as int
            } else {
                k as int
            };
            chunks_of(hs, k) == seq![hs.take(d)] + chunks_of(hs.skip(d), k)
        }),
{
    if hs.len() <= k {
        let d = hs.len() as int;
        assert(hs.take(d) =~= hs);
        assert(hs.skip(d).len() == 0);
        assert(seq![hs.take(d)] + chunks_of(hs.skip(d), k) =~= seq![hs]);
    }
}

/// Appending one token extends a space-joined list by one space and the
/// token.
proof fn lemma_join_space_push(ts: Seq<Seq<char>>, t: Seq<char>)
    requires
        ts.len() >= 1,
    ensures
        join_space(ts.push(t)) == join_space(ts) + seq![' '] + t,
    decreases ts.len(),
{
    if ts.len() == 1 {
        let p = ts.push(t);
        assert(p.drop_first() =~= seq![t]);
        assert(p[0] == ts[0]);
        assert(join_space(seq![t]) == t);
        assert(ts[0] + seq![' '] + t =~= join_space(ts) + seq![' '] + t);
    } else {
        let p = ts.push(t);
        assert(p[0] == ts[0]);
        assert(p.drop_first() =~= ts.drop_first().push(t));
        lemma_join_space_push(ts.drop_first(), t);
        assert(ts[0] + seq![' '] + (join_space(ts.drop_first()) + seq![' '] + t) =~= (ts[0]
            + seq![' '] + join_space(ts.drop_first())) + seq![' '] + t);
    }
}

/// Renders `hashmap` as hosts-file text with at most `compression_level`
/// hostnames per line; a destination with no hostnames yields no line.
pub fn hashmap_to_hosts(hashmap: &HostMapping, compression_level: u16) -> (r: String)
    requires
        compression_level >= 1,
    ensures
        r@ == render(hashmap.kv(), compression_level as nat),
{
    let k: usize = compression_level as usize;
    let ghost knat = compression_level as nat;
    let ghost kv = hashmap.kv();
    let mut out = String::new();
    let n = hashmap.len();
    let mut i: usize = 0;
    proof {
        assert(kv.take(0) =~= Seq::<(Seq<char>, Seq<Seq<char>>)>::empty());
    }
    while i < n
        invariant
            i <= n,
            n == kv.len(),
            kv == hashmap.kv(),
            1 <= k <= u16::MAX,
            knat == k as nat,
            out@ == unlines(render_lines(kv.take(i as int), knat)),
        decreases n - i,
    {
        let key = hashmap.key_at(i);
        let hosts = hashmap.hosts_at(i);
        let ghost hv = views_of(hosts@);
        let m = hosts.len();
        let mut j: usize = 0;
        proof {
            assert(hv.skip(0) =~= hv);
        }
        while j < m
            invariant
                j <= m,
                m == hosts@.len(),
                1 <= k <= u16::MAX,
                knat == k as nat,
                hv == views_of(hosts@),
                key@ == kv[i as int].0,
                hv == kv[i as int].1,
                i < kv.len(),
                kv == hashmap.kv(),
                unlines(render_lines(kv.take(i as int), knat)) + unlines(
                    entry_lines(key@, hv, knat),
                ) == out@ + unlines(entry_lines(key@, hv.skip(j as int), knat)),
            decreases m - j,
        {
            let upper: usize = if m - j > k {
                j + k
            } else {
                m
            };
            let ghost chunk = hv.subrange(j as int, upper as int);
            let ghost out0 = out@;
            proof {
                reveal_strlit(" ");
                reveal_strlit("\n");
            }
            out.append(key.as_str());
            let mut c: usize = j;
            while c < upper
                invariant
                    j <= c <= upper <= m,
                    m == hosts@.len(),
                    hv == views_of(hosts@),
                    chunk == hv.subrange(j as int, upper as int),
                    j < upper,
                    " "@ == seq![' '],
                    c == j ==> out@ == out0 + key@,
                    c > j ==> out@ == out0 + key@ + seq![' '] + join_space(
                        hv.subrange(j as int, c as int),
                    ),
                decreases upper - c,
            {
                out.append(" ");
                out.append(hosts[c].as_str());
                proof {
                    let sub0 = hv.subrange(j as int, c as int);
                    let sub1 = hv.subrange(j as int, c + 1);
                    assert(hosts@[c as int]@ == hv[c as int]);
                    assert(sub1 =~= sub0.push(hv[c as int]));
                    if c == j {
                        assert(sub1 =~= seq![hv[c as int]]);
                        assert(join_space(sub1) == hv[c as int]);
                        assert(out@ =~= out0 + key@ + seq![' '] + join_space(sub1));
                    } else {
                        lemma_join_space_push(sub0, hv[c as int]);
                        assert(out@ =~= out0 + key@ + seq![' '] + join_space(sub1));
                    }
                }
                c += 1;
            }
            out.append("\n");
            proof {
                let line = key@ + seq![' '] + join_space(chunk);
                assert(out@ =~= out0 + line + seq!['\n']);
                lemma_chunks_step(hv.skip(j as int), knat);
                let d = upper - j;
                assert(hv.skip(j as int).len() == m - j);
                assert(hv.skip(j as int).take(d as int) =~= chunk);
                assert(hv.skip(j as int).skip(d as int) =~= hv.skip(upper as int));
                assert(chunks_of(hv.skip(j as int), knat) == seq![chunk] + chunks_of(
                    hv.skip(upper as int),
                    knat,
                ));
                let f = |cc: Seq<Seq<char>>| key@ + seq![' '] + join_space(cc);
                assert(entry_lines(key@, hv.skip(j as int), knat) =~= seq![line] + entry_lines(
                    key@,
                    hv.skip(upper as int),
                    knat,
                ));
                lemma_unlines_app(seq![line], entry_lines(key@, hv.skip(upper as int), knat));
                assert(unlines(seq![line]) =~= line + seq!['\n']) by {
                    assert(seq![line].drop_last() =~= Seq::<Seq<char>>::empty());
                    assert(unlines(Seq::<Seq<char>>::empty()) == Seq::<char>::empty());
                    assert(seq![line].last() == line);
                    assert(Seq::<char>::empty() + line + seq!['\n'] =~= line + seq!['\n']);
                }
                assert(out@ + unlines(entry_lines(key@, hv.skip(upper as int), knat)) =~= (out0
                    + (line + seq!['\n'])) + unlines(entry_lines(key@, hv.skip(upper as int), knat)));
                assert((out0 + (line + seq!['\n'])) + unlines(
                    entry_lines(key@, hv.skip(upper as int), knat),
                ) =~= out0 + ((line + seq!['\n']) + unlines(
                    entry_lines(key@, hv.skip(upper as int), knat),
                )));
            }
            j = upper;
        }
        proof {
            assert(hv.skip(m as int).len() == 0);
            assert(chunks_of(hv.skip(m as int), knat) =~= Seq::<Seq<Seq<char>>>::empty());
            assert(entry_lines(key@, hv.skip(m as int), knat) =~= Seq::<Seq<char>>::empty());
            assert(out@ + Seq::<char>::empty() =~= out@);
            assert(kv.take(i + 1).drop_last() =~= kv.take(i as int));
            assert(kv.take(i + 1).last() == kv[i as int]);
            lemma_unlines_app(render_lines(kv.take(i as int), knat), entry_lines(key@, hv, knat));
        }
        i += 1;
    }
    proof {
        assert(kv.take(n as int) =~= kv);
    }
    out
}

proof fn lemma_join_space_chars(chunk: Seq<Seq<char>>)
    requires
        chunk.len() >= 1,
        forall|a: int| 0 <= a < chunk.len() ==> is_token(#[trigger] chunk[a]),
    ensures
        join_space(chunk).len() >= 1,
        forall|ci: int|
            0 <= ci < join_space(chunk).len() ==> (#[trigger] join_space(chunk)[ci] == ' ' || (
            !is_space(join_space(chunk)[ci]) && join_space(chunk)[ci] != '#')),
        !is_space(join_space(chunk)[0]),
        !is_space(join_space(chunk).last()),
    decreases chunk.len(),
{
    let jn = join_space(chunk);
    if chunk.len() == 1 {
        assert(jn == chunk[0]);
        assert(is_token(chunk[0]));
        assert(!is_space(jn[0]));
        assert(!is_space(jn[jn.len() - 1]));
    } else {
        let h = chunk[0];
        let tail = chunk.drop_first();
        assert(is_token(h));
        assert forall|a: int| 0 <= a < tail.len() implies is_token(#[trigger] tail[a]) by {
            assert(tail[a] == chunk[a + 1]);
        }
        lemma_join_space_chars(tail);
        let rest = join_space(tail);
        assert(jn == h + seq![' '] + rest);
        assert forall|ci: int|
            0 <= ci < jn.len() implies (#[trigger] jn[ci] == ' ' || (!is_space(jn[ci]) && jn[ci]
            != '#')) by {
            if ci < h.len() {
                assert(jn[ci] == h[ci]);
            } else if ci == h.len() {
                assert(jn[ci] == ' ');
            } else {
                assert(jn[ci] == rest[ci - h.len() - 1]);
            }
        }
        assert(jn[0] == h[0]);
        assert(jn.last() == rest.last());
    }
}

proof fn lemma_split_join_space(chunk: Seq<Seq<char>>)
    requires
        chunk.len() >= 1,
        forall|a: int| 0 <= a < chunk.len() ==> is_token(#[trigger] chunk[a]),
    ensures
        split(join_space(chunk), ' ') == chunk,
    decreases chunk.len(),
{
    if chunk.len() == 1 {
        assert forall|i: int| 0 <= i < chunk[0].len() implies chunk[0][i] != ' ' by {
            assert(!is_space(chunk[0][i]));
        }
        lemma_split_no_sep(chunk[0], ' ');
        assert(seq![chunk[0]] =~= chunk);
    } else {
        let h = chunk[0];
        let tail = chunk.drop_first();
        assert forall|i: int| 0 <= i < h.len() implies h[i] != ' ' by {
            assert(!is_space(h[i]));
        }
        lemma_split_no_sep(h, ' ');
        assert forall|a: int| 0 <= a < tail.len() implies is_token(#[trigger] tail[a]) by {
            assert(tail[a] == chunk[a + 1]);
        }
        lemma_split_join_space(tail);
        lemma_split_concat_sep(h, join_space(tail), ' ');
        assert(join_space(chunk) == h + seq![' '] + join_space(tail));
        assert(seq![h] + tail =~= chunk);
    }
}

proof fn lemma_line_form(key: Seq<char>, chunk: Seq<Seq<char>>)
    requires
        is_token(key),
        chunk.len() >= 1,
        forall|a: int| 0 <= a < chunk.len() ==> is_token(#[trigger] chunk[a]),
    ensures
        ({
            let line = key + seq![' '] + join_space(chunk);
            &&& line.len() > 0
            &&& forall|ci: int| 0 <= ci < line.len() ==> #[trigger] line[ci] != '\n'
            &&& normalize(line) == line
            &&& split(line, ' ') == seq![key] + chunk
        }),
{
    let jn = join_space(chunk);
    let line = key + seq![' '] + jn;
    lemma_join_space_chars(chunk);
    assert forall|ci: int| 0 <= ci < line.len() implies #[trigger] line[ci] != '\n' && line[ci]
        != '#' by {
        if ci < key.len() {
            assert(line[ci] == key[ci]);
            assert(!is_space(key[ci]) && key[ci] != '#');
        } else if ci == key.len() {
            assert(line[ci] == ' ');
        } else {
            assert(line[ci] == jn[ci - key.len() - 1]);
        }
    }
    lemma_strip_comment_id(line);
    assert(line[0] == key[0]);
    assert(!is_space(line[0]));
    assert(trim_start(line) == line);
    assert(line.last() == jn.last());
    assert(!is_space(line.last()));
    assert(trim_end(line) == line);
    lemma_split_concat_sep(key, jn, ' ');
    assert forall|i: int| 0 <= i < key.len() implies key[i] != ' ' by {
        assert(!is_space(key[i]));
    }
    lemma_split_no_sep(key, ' ');
    lemma_split_join_space(chunk);
}

proof fn lemma_chunks_elements(hs: Seq<Seq<char>>, k: nat)
    requires
        k >= 1,
        forall|a: int| 0 <= a < hs.len() ==> is_token(#[trigger] hs[a]),
    ensures
        forall|a: int| 0 <= a < chunks_of(hs, k).len() ==> (#[trigger] chunks_of(hs, k)[a]).len()
            >= 1,
        forall|a: int, b: int|
            0 <= a < chunks_of(hs, k).len() && 0 <= b < chunks_of(hs, k)[a].len() ==> is_token(
                #[trigger] chunks_of(hs, k)[a][b],
            ),
    decreases hs.len(),
{
    if hs.len() == 0 {
    } else if hs.len() <= k {
        assert(chunks_of(hs, k) == seq![hs]);
        assert(chunks_of(hs, k)[0] == hs);
    } else {
        let tail = hs.skip(k as int);
        assert forall|a: int| 0 <= a < tail.len() implies is_token(#[trigger] tail[a]) by {
            assert(tail[a] == hs[a + k]);
        }
        lemma_chunks_elements(tail, k);
        let ch = chunks_of(hs, k);
        assert forall|a: int| 0 <= a < ch.len() implies (#[trigger] ch[a]).len() >= 1 by {
            if a == 0 {
                assert(ch[0] == hs.take(k as int));
            } else {
                assert(ch[a] == chunks_of(tail, k)[a - 1]);
            }
        }
        assert forall|a: int, b: int|
            0 <= a < ch.len() && 0 <= b < ch[a].len() implies is_token(
            #[trigger] ch[a][b]) by {
            if a == 0 {
                assert(ch[0] == hs.take(k as int));
                assert(ch[0][b] == hs[b]);
            } else {
                assert(ch[a] == chunks_of(tail, k)[a - 1]);
            }
        }
    }
}

proof fn lemma_render_lines_good(kv: Seq<(Seq<char>, Seq<Seq<char>>)>, k: nat)
    requires
        k >= 1,
        forall|i: int| 0 <= i < kv.len() ==> is_token((#[trigger] kv[i]).0),
        forall|i: int, j: int|
            0 <= i < kv.len() && 0 <= j < kv[i].1.len() ==> is_token(#[trigger] kv[i].1[j]),
    ensures
        forall|li: int, ci: int|
            0 <= li < render_lines(kv, k).len() && 0 <= ci < render_lines(kv, k)[li].len()
                ==> #[trigger] render_lines(kv, k)[li][ci] != '\n',
    decreases kv.len(),
{
    if kv.len() > 0 {
        let dl = kv.drop_last();
        assert forall|i: int| 0 <= i < dl.len() implies is_token((#[trigger] dl[i]).0) by {
            assert(dl[i] == kv[i]);
        }
        assert forall|i: int, j: int|
            0 <= i < dl.len() && 0 <= j < dl[i].1.len() implies is_token(
            #[trigger] dl[i].1[j]) by {
            assert(dl[i] == kv[i]);
        }
        lemma_render_lines_good(dl, k);
        let key = kv.last().0;
        let hs = kv.last().1;
        assert(kv[kv.len() - 1] == kv.last());
        assert(is_token(key));
        assert forall|a: int| 0 <= a < hs.len() implies is_token(#[trigger] hs[a]) by {
            assert(hs[a] == kv[kv.len() - 1].1[a]);
        }
        lemma_chunks_elements(hs, k);
        let el = entry_lines(key, hs, k);
        let ch = chunks_of(hs, k);
        assert forall|li: int, ci: int|
            0 <= li < el.len() && 0 <= ci < el[li].len() implies #[trigger] el[li][ci]
            != '\n' by {
            assert(el[li] == key + seq![' '] + join_space(ch[li]));
            lemma_line_form(key, ch[li]);
        }
        let rl = render_lines(kv, k);
        assert forall|li: int, ci: int|
            0 <= li < rl.len() && 0 <= ci < rl[li].len() implies #[trigger] rl[li][ci]
            != '\n' by {
            if li < render_lines(dl, k).len() {
                assert(rl[li] == render_lines(dl, k)[li]);
            } else {
                assert(rl[li] == el[li - render_lines(dl, k).len()]);
            }
        }
    }
}

proof fn lemma_unlines_split(ls: Seq<Seq<char>>)
    requires
        forall|li: int, ci: int|
            0 <= li < ls.len() && 0 <= ci < ls[li].len() ==> #[trigger] ls[li][ci] != '\n',
    ensures
        split(unlines(ls), '\n') == ls + seq![Seq::<char>::empty()],
    decreases ls.len(),
{
    if ls.len() == 0 {
        assert(unlines(ls) == Seq::<char>::empty());
        assert(split(Seq::<char>::empty(), '\n') == seq![Seq::<char>::empty()]);
        assert(ls + seq![Seq::<char>::empty()] =~= seq![Seq::<char>::empty()]);
    } else {
        let dl = ls.drop_last();
        let last = ls.last();
        assert forall|li: int, ci: int|
            0 <= li < dl.len() && 0 <= ci < dl[li].len() implies #[trigger] dl[li][ci]
            != '\n' by {
            assert(dl[li] == ls[li]);
        }
        lemma_unlines_split(dl);
        assert forall|ci: int| 0 <= ci < last.len() implies last[ci] != '\n' by {
            assert(ls[ls.len() - 1][ci] != '\n');
        }
        lemma_split_append_tail(unlines(dl), last, '\n');
        let sdl = split(unlines(dl), '\n');
        assert((dl + seq![Seq::<char>::empty()]).drop_last() =~= dl);
        assert((dl + seq![Seq::<char>::empty()]).last() == Seq::<char>::empty());
        assert(Seq::<char>::empty() + last =~= last);
        assert(split(unlines(dl) + last, '\n') =~= dl + seq![last]);
        lemma_split_concat_sep(unlines(dl) + last, Seq::<char>::empty(), '\n');
        assert(unlines(ls) =~= (unlines(dl) + last) + seq!['\n'] + Seq::<char>::empty());
        assert(split(Seq::<char>::empty(), '\n') == seq![Seq::<char>::empty()]);
        assert((dl + seq![last]) + seq![Seq::<char>::empty()] =~= ls + seq![
            Seq::<char>::empty(),
        ]);
    }
}

proof fn lemma_fold_entry(m: Map<Seq<char>, Set<Seq<char>>>, key: Seq<char>, hs: Seq<Seq<char>>, k: nat)
    requires
        k >= 1,
        is_token(key),
        hs.len() >= 1,
        forall|a: int| 0 <= a < hs.len() ==> is_token(#[trigger] hs[a]),
    ensures
        fold_lines(m, entry_lines(key, hs, k)) == m.insert(key, set_at(m, key).union(hs.to_set())),
    decreases hs.len(),
{
    let d: int = if hs.len() <= k {
        hs.len() as int
    } else {
        k as int
    };
    let chunk = hs.take(d);
    let rest = hs.skip(d);
    lemma_chunks_step(hs, k);
    assert forall|a: int| 0 <= a < chunk.len() implies is_token(#[trigger] chunk[a]) by {
        assert(chunk[a] == hs[a]);
    }
    assert forall|a: int| 0 <= a < rest.len() implies is_token(#[trigger] rest[a]) by {
        assert(rest[a] == hs[a + d]);
    }
    let line = key + seq![' '] + join_space(chunk);
    assert(entry_lines(key, hs, k) =~= seq![line] + entry_lines(key, rest, k)) by {
        let ch = chunks_of(hs, k);
        assert(ch == seq![chunk] + chunks_of(rest, k));
        assert forall|a: int| 0 <= a < ch.len() implies #[trigger] entry_lines(key, hs, k)[a]
            == (seq![line] + entry_lines(key, rest, k))[a] by {
            if a == 0 {
                assert(ch[0] == chunk);
            } else {
                assert(ch[a] == chunks_of(rest, k)[a - 1]);
            }
        }
    }
    lemma_fold_lines_app(m, seq![line], entry_lines(key, rest, k));
    assert(seq![line].drop_last() =~= Seq::<Seq<char>>::empty());
    assert(seq![line].len() == 1);
    assert(seq![line].last() == line);
    assert(fold_lines(m, seq![line].drop_last()) == m);
    assert(fold_lines(m, seq![line]) == line_update(m, line));
    lemma_line_form(key, chunk);
    let ts = split(line, ' ');
    assert(ts == seq![key] + chunk);
    assert(ts[0] == key);
    assert(ts.drop_first() =~= chunk);
    let m1 = m.insert(key, set_at(m, key).union(chunk.to_set()));
    assert(line_update(m, line) == m1);
    if rest.len() == 0 {
        assert(entry_lines(key, rest, k) =~= Seq::<Seq<char>>::empty());
        assert(fold_lines(m1, entry_lines(key, rest, k)) == m1);
        assert(chunk =~= hs);
    } else {
        lemma_fold_entry(m1, key, rest, k);
        assert(set_at(m1, key) == set_at(m, key).union(chunk.to_set()));
        lemma_to_set_concat(chunk, rest);
        assert(chunk + rest =~= hs);
        assert(m1.insert(key, set_at(m1, key).union(rest.to_set())) =~~= m.insert(
            key,
            set_at(m, key).union(hs.to_set()),
        ));
    }
}

proof fn lemma_fold_render(kv: Seq<(Seq<char>, Seq<Seq<char>>)>, k: nat)
    requires
        k >= 1,
        kv_wf(kv),
        forall|i: int| 0 <= i < kv.len() ==> is_token((#[trigger] kv[i]).0),
        forall|i: int, j: int|
            0 <= i < kv.len() && 0 <= j < kv[i].1.len() ==> is_token(#[trigger] kv[i].1[j]),
        forall|i: int| 0 <= i < kv.len() ==> (#[trigger] kv[i]).1.len() > 0,
    ensures
        fold_lines(Map::empty(), render_lines(kv, k)) == map_of(kv),
    decreases kv.len(),
{
    if kv.len() > 0 {
        let dl = kv.drop_last();
        assert(kv_wf(dl)) by {
            assert forall|i: int, j: int| 0 <= i < j < dl.len() implies dl[i].0 != dl[j].0 by {
                assert(dl[i] == kv[i] && dl[j] == kv[j]);
            }
            assert forall|i: int| 0 <= i < dl.len() implies dl[i].0.len() > 0 by {
                assert(dl[i] == kv[i]);
            }
            assert forall|i: int| 0 <= i < dl.len() implies dl[i].1.no_duplicates() by {
                assert(dl[i] == kv[i]);
            }
        }
        assert forall|i: int| 0 <= i < dl.len() implies is_token((#[trigger] dl[i]).0) by {
            assert(dl[i] == kv[i]);
        }
        assert forall|i: int, j: int|
            0 <= i < dl.len() && 0 <= j < dl[i].1.len() implies is_token(
            #[trigger] dl[i].1[j]) by {
            assert(dl[i] == kv[i]);
        }
        assert forall|i: int| 0 <= i < dl.len() implies (#[trigger] dl[i]).1.len() > 0 by {
            assert(dl[i] == kv[i]);
        }
        lemma_fold_render(dl, k);
        let key = kv.last().0;
        let hs = kv.last().1;
        assert(kv[kv.len() - 1] == kv.last());
        assert(is_token(key) && hs.len() > 0);
        assert forall|a: int| 0 <= a < hs.len() implies is_token(#[trigger] hs[a]) by {
            assert(hs[a] == kv[kv.len() - 1].1[a]);
        }
        lemma_fold_lines_app(Map::empty(), render_lines(dl, k), entry_lines(key, hs, k));
        lemma_fold_entry(map_of(dl), key, hs, k);
        lemma_map_of_contains(dl, key);
        assert(!map_of(dl).contains_key(key)) by {
            if map_of(dl).contains_key(key) {
                let i = choose|i: int| 0 <= i < dl.len() && dl[i].0 == key;
                assert(kv[i].0 == kv[kv.len() - 1].0);
            }
        }
        assert(Set::<Seq<char>>::empty().union(hs.to_set()) =~= hs.to_set());
    }
}

/// Round trip: aggregating serialized text reconstructs the mapping it was
/// rendered from, at any positive width, for any well-formed entry list
/// whose keys and hostnames are single non-empty comment-free tokens and
/// whose hostname lists are all non-empty.
pub proof fn lemma_aggregate_render(kv: Seq<(Seq<char>, Seq<Seq<char>>)>, k: nat)
    requires
        k >= 1,
        kv_wf(kv),
        forall|i: int| 0 <= i < kv.len() ==> is_token((#[trigger] kv[i]).0),
        forall|i: int, j: int|
            0 <= i < kv.len() && 0 <= j < kv[i].1.len() ==> is_token(#[trigger] kv[i].1[j]),
        forall|i: int| 0 <= i < kv.len() ==> (#[trigger] kv[i]).1.len() > 0,
    ensures
        aggregate(render(kv, k)) == map_of(kv),
{
    lemma_render_lines_good(kv, k);
    lemma_unlines_split(render_lines(kv, k));
    lemma_fold_lines_app(Map::empty(), render_lines(kv, k), seq![Seq::<char>::empty()]);
    let x = fold_lines(Map::empty(), render_lines(kv, k));
    assert(seq![Seq::<char>::empty()].drop_last() =~= Seq::<Seq<char>>::empty());
    assert(seq![Seq::<char>::empty()].len() == 1);
    assert(seq![Seq::<char>::empty()].last() == Seq::<char>::empty());
    assert(fold_lines(x, seq![Seq::<char>::empty()].drop_last()) == x);
    assert(normalize(Seq::<char>::empty()).len() == 0);
    assert(fold_lines(x, seq![Seq::<char>::empty()]) == x);
    lemma_fold_render(kv, k);
}

/// Round trip at the mapping level: the text a well-formed mapping renders
/// to aggregates back to the very same mapping, at any positive width,
/// provided every destination and hostname is a single non-empty
/// comment-free token and no hostname set is empty.
pub proof fn lemma_serialize_aggregate_round_trip(m: &HostMapping, k: nat)
    requires
        k >= 1,
        m.wf(),
        forall|key: Seq<char>| #[trigger] m@.contains_key(key) ==> is_token(key),
        forall|key: Seq<char>, h: Seq<char>|
            m@.contains_key(key) && #[trigger] m@[key].contains(h) ==> is_token(h),
        forall|key: Seq<char>| #[trigger] m@.contains_key(key) ==> exists|h: Seq<char>|
            m@[key].contains(h),
    ensures
        aggregate(render(m.kv(), k)) == m@,
{
    let kv = m.kv();
    assert forall|i: int|
        0 <= i < kv.len() implies is_token((#[trigger] kv[i]).0) && kv[i].1.len() > 0 by {
        lemma_map_of_at(kv, i);
        assert(m@.contains_key(kv[i].0));
        let h = choose|h: Seq<char>| m@[kv[i].0].contains(h);
        assert(kv[i].1.to_set().contains(h));
        assert(kv[i].1.contains(h));
    }
    assert forall|i: int, j: int|
        0 <= i < kv.len() && 0 <= j < kv[i].1.len() implies is_token(
        #[trigger] kv[i].1[j]) by {
        lemma_map_of_at(kv, i);
        assert(kv[i].1.to_set().contains(kv[i].1[j]));
        assert(m@[kv[i].0].contains(kv[i].1[j]));
    }
    lemma_aggregate_render(kv, k);
}

} // verus!
