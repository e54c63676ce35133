use vstd::prelude::*;

use crate::clustering::Clustering;
use crate::errors::CoreError;

verus! {

/// The positions below `k` of `entries` that hold the pair `(s, t)`,
/// ascending.
pub open spec fn pair_positions(entries: Seq<(usize, usize)>, s: usize, t: usize, k: nat) -> Seq<usize>
    decreases k,
{
    if k == 0 {
        Seq::empty()
    } else {
        pair_positions(entries, s, t, (k - 1) as nat) + if entries[k - 1] == (s, t) {
            seq![(k - 1) as usize]
        } else {
            Seq::<usize>::empty()
        }
    }
}

/// The entries below `k` that end at `t` from another node, as
/// `(source, position)`, ascending by position.
pub open spec fn into_target(entries: Seq<(usize, usize)>, t: usize, k: nat) -> Seq<(usize, usize)>
    decreases k,
{
    if k == 0 {
        Seq::empty()
    } else {
        into_target(entries, t, (k - 1) as nat) + if entries[k - 1].1 == t && entries[k - 1].0 != t {
            seq![(entries[k - 1].0, (k - 1) as usize)]
        } else {
            Seq::<(usize, usize)>::empty()
        }
    }
}

/// The positions of the pairs in `ps` whose source is `s`, in order.
pub open spec fn from_source(ps: Seq<(usize, usize)>, s: usize) -> Seq<usize>
    decreases ps.len(),
{
    if ps.len() == 0 {
        Seq::empty()
    } else {
        from_source(ps.drop_last(), s) + if ps.last().0 == s {
            seq![ps.last().1]
        } else {
            Seq::<usize>::empty()
        }
    }
}

/// The targets below `t` that `s` has an entry to, other than `s`,
/// ascending.
pub open spec fn targets_below(entries: Seq<(usize, usize)>, s: usize, t: nat) -> Seq<usize>
    decreases t,
{
    if t == 0 {
        Seq::empty()
    } else {
        let u = (t - 1) as usize;
        targets_below(entries, s, (t - 1) as nat) + if u != s && pair_positions(
            entries,
            s,
            u,
            entries.len(),
        ).len() > 0 {
            seq![u]
        } else {
            Seq::<usize>::empty()
        }
    }
}

proof fn lemma_from_source_of_into_target(entries: Seq<(usize, usize)>, s: usize, t: usize, k: nat)
    requires
        s != t,
        k <= entries.len(),
        entries.len() <= usize::MAX,
    ensures
        from_source(into_target(entries, t, k), s) == pair_positions(entries, s, t, k),
    decreases k,
{
    if k > 0 {
        lemma_from_source_of_into_target(entries, s, t, (k - 1) as nat);
        let prev = into_target(entries, t, (k - 1) as nat);
        let e = entries[k - 1];
        if e.1 == t && e.0 != t {
            let cur = prev.push((e.0, (k - 1) as usize));
            assert(into_target(entries, t, k) =~= cur);
            assert(cur.drop_last() =~= prev);
        } else {
            assert(into_target(entries, t, k) =~= prev);
        }
    }
}

proof fn lemma_from_source_own_target(entries: Seq<(usize, usize)>, t: usize, k: nat)
    requires
        k <= entries.len(),
    ensures
        from_source(into_target(entries, t, k), t) == Seq::<usize>::empty(),
    decreases k,
{
    if k > 0 {
        lemma_from_source_own_target(entries, t, (k - 1) as nat);
        let prev = into_target(entries, t, (k - 1) as nat);
        let e = entries[k - 1];
        if e.1 == t && e.0 != t {
            let cur = prev.push((e.0, (k - 1) as usize));
            assert(into_target(entries, t, k) =~= cur);
            assert(cur.drop_last() =~= prev);
        } else {
            assert(into_target(entries, t, k) =~= prev);
        }
    }
}

proof fn lemma_targets_below_bound(entries: Seq<(usize, usize)>, s: usize, t: nat)
    requires
        t <= usize::MAX,
    ensures
        forall|g: int|
            0 <= g < targets_below(entries, s, t).len() ==> (#[trigger] targets_below(entries, s, t)[g])
                < t,
    decreases t,
{
    if t > 0 {
        lemma_targets_below_bound(entries, s, (t - 1) as nat);
        let prev = targets_below(entries, s, (t - 1) as nat);
        let cur = targets_below(entries, s, t);
        assert forall|g: int| 0 <= g < cur.len() implies (#[trigger] cur[g]) < t by {
            if g < prev.len() {
                assert(cur[g] == prev[g]);
            } else {
                assert(cur[g] == (t - 1) as usize);
            }
        }
    }
}

proof fn lemma_into_target_sources(
    entries: Seq<(usize, usize)>,
    t: usize,
    k: nat,
    q: int,
    num_nodes: nat,
)
    requires
        k <= entries.len(),
        forall|i: int| 0 <= i < entries.len() ==> (#[trigger] entries[i]).0 < num_nodes,
        0 <= q < into_target(entries, t, k).len(),
    ensures
        into_target(entries, t, k)[q].0 < num_nodes,
    decreases k,
{
    if k > 0 {
        let prev = into_target(entries, t, (k - 1) as nat);
        if q < prev.len() {
            lemma_into_target_sources(entries, t, (k - 1) as nat, q, num_nodes);
            assert(into_target(entries, t, k)[q] == prev[q]);
        } else {
            assert(into_target(entries, t, k)[q] == (entries[k - 1].0, (k - 1) as usize));
        }
    }
}

/// Directed entries grouped by source and then by target: for each node
/// `s`, the other nodes it has entries to, ascending, the positions of
/// those entries for each, ascending, and the positions of its entries to
/// itself.
pub struct EntryGroups {
    pub targets: Vec<Vec<usize>>,
    pub positions: Vec<Vec<Vec<usize>>>,
    pub loops: Vec<Vec<usize>>,
}

impl EntryGroups {
    /// What the grouping of `entries` over `num_nodes` nodes is.
    pub open spec fn groups(&self, entries: Seq<(usize, usize)>, num_nodes: nat) -> bool {
        &&& self.targets@.len() == num_nodes
        &&& self.positions@.len() == num_nodes
        &&& self.loops@.len() == num_nodes
        &&& forall|s: int|
            0 <= s < num_nodes ==> (#[trigger] self.targets@[s])@ == targets_below(
                entries,
                s as usize,
                num_nodes,
            )
        &&& forall|s: int|
            0 <= s < num_nodes ==> (#[trigger] self.positions@[s])@.len() == self.targets@[s]@.len()
        &&& forall|s: int, g: int|
            #![trigger self.positions@[s]@[g]]
            0 <= s < num_nodes && 0 <= g < self.positions@[s]@.len() ==> self.positions@[s]@[g]@
                == pair_positions(entries, s as usize, self.targets@[s]@[g], entries.len())
        &&& forall|s: int|
            0 <= s < num_nodes ==> (#[trigger] self.loops@[s])@ == pair_positions(
                entries,
                s as usize,
                s as usize,
                entries.len(),
            )
    }
}

/// Groups the directed entries `(source, target)` by source and then by
/// target, in time linear in the number of entries and nodes.
pub fn group_entries(num_nodes: usize, entries: &Vec<(usize, usize)>) -> (r: EntryGroups)
    requires
        forall|j: int|
            0 <= j < entries@.len() ==> (#[trigger] entries@[j]).0 < num_nodes && entries@[j].1
                < num_nodes,
    ensures
        r.groups(entries@, num_nodes as nat),
{
    let ghost es = entries@;
    let ghost total = es.len();
    let num_entries = entries.len();
    let mut by_target: Vec<Vec<(usize, usize)>> = Vec::with_capacity(num_nodes);
    let mut loops: Vec<Vec<usize>> = Vec::with_capacity(num_nodes);
    let mut targets: Vec<Vec<usize>> = Vec::with_capacity(num_nodes);
    let mut positions: Vec<Vec<Vec<usize>>> = Vec::with_capacity(num_nodes);
    let mut x: usize = 0;
    while x < num_nodes
        invariant
            x <= num_nodes,
            by_target@.len() == x,
            loops@.len() == x,
            targets@.len() == x,
            positions@.len() == x,
            forall|y: int| 0 <= y < x ==> (#[trigger] by_target@[y])@ == Seq::<(usize, usize)>::empty(),
            forall|y: int| 0 <= y < x ==> (#[trigger] loops@[y])@ == Seq::<usize>::empty(),
            forall|y: int| 0 <= y < x ==> (#[trigger] targets@[y])@ == Seq::<usize>::empty(),
            forall|y: int| 0 <= y < x ==> (#[trigger] positions@[y])@ == Seq::<Vec<usize>>::empty(),
        decreases num_nodes - x,
    {
        by_target.push(Vec::new());
        loops.push(Vec::new());
        targets.push(Vec::new());
        positions.push(Vec::new());
        x += 1;
    }
    let mut j: usize = 0;
    while j < num_entries
        invariant
            es == entries@,
            num_entries == es.len(),
            forall|i: int| 0 <= i < es.len() ==> (#[trigger] es[i]).0 < num_nodes && es[i].1 < num_nodes,
            j <= num_entries,
            by_target@.len() == num_nodes,
            loops@.len() == num_nodes,
            forall|y: int|
                0 <= y < num_nodes ==> (#[trigger] by_target@[y])@ == into_target(es, y as usize, j as nat),
            forall|y: int|
                0 <= y < num_nodes ==> (#[trigger] loops@[y])@ == pair_positions(
                    es,
                    y as usize,
                    y as usize,
                    j as nat,
                ),
        decreases num_entries - j,
    {
        let (s, t) = entries[j];
        let ghost bt = by_target@;
        let ghost lp = loops@;
        if s == t {
            loops[s].push(j);
        } else {
            by_target[t].push((s, j));
        }
        proof {
            assert forall|y: int| 0 <= y < num_nodes implies (#[trigger] by_target@[y])@ == into_target(
                es,
                y as usize,
                (j + 1) as nat,
            ) by {
                if s != t && y == t {
                    assert(by_target@[y]@ =~= bt[y]@.push((s, j)));
                } else {
                    assert(by_target@[y] == bt[y]);
                }
            }
            assert forall|y: int| 0 <= y < num_nodes implies (#[trigger] loops@[y])@ == pair_positions(
                es,
                y as usize,
                y as usize,
                (j + 1) as nat,
            ) by {
                if s == t && y == s {
                    assert(loops@[y]@ =~= lp[y]@.push(j));
                } else {
                    assert(loops@[y] == lp[y]);
                }
            }
        }
        j += 1;
    }
    let mut t: usize = 0;
    while t < num_nodes
        invariant
            es == entries@,
            num_entries == es.len(),
            total == es.len(),
            forall|i: int| 0 <= i < es.len() ==> (#[trigger] es[i]).0 < num_nodes && es[i].1 < num_nodes,
            t <= num_nodes,
            by_target@.len() == num_nodes,
            forall|y: int|
                0 <= y < num_nodes ==> (#[trigger] by_target@[y])@ == into_target(es, y as usize, total),
            forall|y: int| 0 <= y < num_nodes ==> (#[trigger] by_target@[y])@.len() >= 0,
            targets@.len() == num_nodes,
            positions@.len() == num_nodes,
            forall|s: int|
                0 <= s < num_nodes ==> (#[trigger] targets@[s])@ == targets_below(es, s as usize, t as nat),
            forall|s: int| 0 <= s < num_nodes ==> (#[trigger] positions@[s])@.len() == targets@[s]@.len(),
            forall|s: int, g: int|
                #![trigger positions@[s]@[g]]
                0 <= s < num_nodes && 0 <= g < positions@[s]@.len() ==> positions@[s]@[g]@
                    == pair_positions(es, s as usize, targets@[s]@[g], total),
        decreases num_nodes - t,
    {
        let bucket = &by_target[t];
        proof {
            assert forall|q: int| 0 <= q < bucket@.len() implies (#[trigger] bucket@[q]).0 < num_nodes by {
                lemma_into_target_sources(es, t, total, q, num_nodes as nat);
            }
        }
        let mut p: usize = 0;
        while p < bucket.len()
            invariant
                es == entries@,
                num_entries == es.len(),
                total == es.len(),
                t < num_nodes,
                bucket@ == into_target(es, t, total),
                forall|q: int| 0 <= q < bucket@.len() ==> (#[trigger] bucket@[q]).0 < num_nodes,
                p <= bucket@.len(),
                targets@.len() == num_nodes,
                positions@.len() == num_nodes,
                forall|s: int|
                    0 <= s < num_nodes ==> (#[trigger] positions@[s])@.len() == targets@[s]@.len(),
                forall|s: int|
                    0 <= s < num_nodes ==> (#[trigger] targets@[s])@ == if from_source(
                        bucket@.take(p as int),
                        s as usize,
                    ).len() == 0 {
                        targets_below(es, s as usize, t as nat)
                    } else {
                        targets_below(es, s as usize, t as nat).push(t)
                    },
                forall|s: int, g: int|
                    #![trigger positions@[s]@[g]]
                    0 <= s < num_nodes && 0 <= g < positions@[s]@.len() ==> positions@[s]@[g]@ == if g
                        == targets_below(es, s as usize, t as nat).len() {
                        from_source(bucket@.take(p as int), s as usize)
                    } else {
                        pair_positions(es, s as usize, targets@[s]@[g], total)
                    },
            decreases bucket@.len() - p,
        {
            let (s, j) = bucket[p];
            let ghost tg = targets@;
            let ghost ps = positions@;
            let ghost before = from_source(bucket@.take(p as int), s);
            proof {
                lemma_targets_below_bound(es, s, t as nat);
                assert(bucket@.take(p + 1).drop_last() =~= bucket@.take(p as int));
                assert(from_source(bucket@.take(p + 1), s) == before.push(j));
            }
            let count = targets[s].len();
            if count > 0 && targets[s][count - 1] == t {
                let mut group = positions[s].pop().unwrap();
                group.push(j);
                positions[s].push(group);
            } else {
                targets[s].push(t);
                positions[s].push(vec![j]);
            }
            proof {
                let tb = targets_below(es, s, t as nat);
                if before.len() == 0 {
                    assert(targets@[s as int]@ =~= tb.push(t));
                    assert(positions@[s as int]@ =~= ps[s as int]@.push(positions@[s as int]@.last()));
                    assert(positions@[s as int]@.last()@ =~= seq![j]);
                    assert(seq![j] =~= before.push(j));
                } else {
                    assert(positions@[s as int]@ =~= ps[s as int]@.drop_last().push(
                        positions@[s as int]@.last(),
                    ));
                    assert(positions@[s as int]@.last()@ =~= ps[s as int]@.last()@.push(j));
                }
                assert forall|y: int| 0 <= y < num_nodes implies (#[trigger] targets@[y])@ == if from_source(
                    bucket@.take(p + 1),
                    y as usize,
                ).len() == 0 {
                    targets_below(es, y as usize, t as nat)
                } else {
                    targets_below(es, y as usize, t as nat).push(t)
                } by {
                    if y != s {
                        assert(targets@[y] == tg[y]);
                    }
                }
                assert forall|y: int| 0 <= y < num_nodes implies (#[trigger] positions@[y])@.len()
                    == targets@[y]@.len() by {
                    if y != s {
                        assert(targets@[y] == tg[y]);
                        assert(positions@[y] == ps[y]);
                    }
                }
                assert forall|y: int, g: int|
                    #![trigger positions@[y]@[g]]
                    0 <= y < num_nodes && 0 <= g < positions@[y]@.len() implies positions@[y]@[g]@
                    == if g == targets_below(es, y as usize, t as nat).len() {
                    from_source(bucket@.take(p + 1), y as usize)
                } else {
                    pair_positions(es, y as usize, targets@[y]@[g], total)
                } by {
                    if y != s {
                        assert(targets@[y] == tg[y]);
                        assert(positions@[y] == ps[y]);
                        assert(ps[y]@[g] == positions@[y]@[g]);
                    } else {
                        if g < tb.len() {
                            assert(positions@[y]@[g] == ps[y]@[g]);
                            assert(targets@[y]@[g] == tg[y]@[g]);
                        }
                    }
                }
            }
            p += 1;
        }
        proof {
            assert(bucket@.take(bucket@.len() as int) =~= bucket@);
            assert forall|y: int| 0 <= y < num_nodes implies (#[trigger] targets@[y])@ == targets_below(
                es,
                y as usize,
                (t + 1) as nat,
            ) by {
                if y as usize == t {
                    lemma_from_source_own_target(es, t, total);
                } else {
                    lemma_from_source_of_into_target(es, y as usize, t, total);
                }
            }
            assert forall|y: int, g: int|
                #![trigger positions@[y]@[g]]
                0 <= y < num_nodes && 0 <= g < positions@[y]@.len() implies positions@[y]@[g]@
                == pair_positions(es, y as usize, targets@[y]@[g], total) by {
                let tb = targets_below(es, y as usize, t as nat);
                if g == tb.len() {
                    if y as usize == t {
                        lemma_from_source_own_target(es, t, total);
                    } else {
                        lemma_from_source_of_into_target(es, y as usize, t, total);
                    }
                    assert(targets@[y]@[g] == t);
                }
            }
        }
        t += 1;
    }
    EntryGroups { targets, positions, loops }
}

/// Both directions of each undirected edge: entries `2i` and `2i + 1` are
/// edge `i` read forwards and backwards.
pub open spec fn mirrored(edges: Seq<(usize, usize)>) -> Seq<(usize, usize)> {
    Seq::new(
        2 * edges.len(),
        |j: int|
            if j % 2 == 0 {
                edges[j / 2]
            } else {
                (edges[j / 2].1, edges[j / 2].0)
            },
    )
}

/// The directed entries of an undirected edge list, each edge forwards and
/// then backwards.
pub fn mirror_edges(edges: &Vec<(usize, usize)>) -> (r: Vec<(usize, usize)>)
    requires
        2 * edges@.len() <= usize::MAX,
    ensures
        r@ == mirrored(edges@),
{
    let mut entries: Vec<(usize, usize)> = Vec::with_capacity(2 * edges.len());
    let mut i: usize = 0;
    while i < edges.len()
        invariant
            2 * edges@.len() <= usize::MAX,
            i <= edges@.len(),
            entries@ == mirrored(edges@.take(i as int)),
        decreases edges@.len() - i,
    {
        let (s, t) = edges[i];
        entries.push((s, t));
        entries.push((t, s));
        proof {
            assert(entries@ =~= mirrored(edges@.take(i + 1)));
        }
        i += 1;
    }
    proof {
        assert(edges@.take(edges@.len() as int) =~= edges@);
    }
    entries
}

/// A node is among the targets of `s` exactly when it is another node below
/// `t` that `s` has an entry to; the targets ascend strictly.
pub proof fn lemma_targets_below_members(entries: Seq<(usize, usize)>, s: usize, t: nat)
    requires
        t <= usize::MAX,
    ensures
        forall|u: usize|
            #[trigger] targets_below(entries, s, t).contains(u) <==> (u < t && u != s && pair_positions(
                entries,
                s,
                u,
                entries.len(),
            ).len() > 0),
        forall|a: int, b: int|
            0 <= a < b < targets_below(entries, s, t).len() ==> targets_below(entries, s, t)[a]
                < targets_below(entries, s, t)[b],
    decreases t,
{
    if t > 0 {
        lemma_targets_below_members(entries, s, (t - 1) as nat);
        lemma_targets_below_bound(entries, s, (t - 1) as nat);
        let prev = targets_below(entries, s, (t - 1) as nat);
        let cur = targets_below(entries, s, t);
        let last = (t - 1) as usize;
        assert forall|u: usize| #[trigger] cur.contains(u) <==> (u < t && u != s && pair_positions(
            entries,
            s,
            u,
            entries.len(),
        ).len() > 0) by {
            if cur.contains(u) {
                let g = choose|g: int| 0 <= g < cur.len() && cur[g] == u;
                if g < prev.len() {
                    assert(prev[g] == u);
                    assert(prev.contains(u));
                }
            }
            if u < t && u != s && pair_positions(entries, s, u, entries.len()).len() > 0 {
                if u < t - 1 {
                    assert(prev.contains(u));
                    let g = choose|g: int| 0 <= g < prev.len() && prev[g] == u;
                    assert(cur[g] == u);
                } else {
                    assert(cur[prev.len() as int] == u);
                }
            }
        }
        assert forall|a: int, b: int| 0 <= a < b < cur.len() implies cur[a] < cur[b] by {
            assert(cur[a] == prev[a]);
            if b < prev.len() {
                assert(cur[b] == prev[b]);
            } else {
                assert(cur[b] == last);
                assert(prev[a] < t - 1);
            }
        }
    }
}

proof fn lemma_mirrored_pairs(edges: Seq<(usize, usize)>, s: usize, u: usize)
    ensures
        pair_positions(mirrored(edges), s, u, mirrored(edges).len()).len() > 0 ==> pair_positions(
            mirrored(edges),
            u,
            s,
            mirrored(edges).len(),
        ).len() > 0,
{
    let m = mirrored(edges);
    if pair_positions(m, s, u, m.len()).len() > 0 {
        let j = lemma_pair_positions_witness(m, s, u, m.len());
        let k = if j % 2 == 0 {
            j + 1
        } else {
            j - 1
        };
        assert(m[k] == (u, s));
        lemma_pair_positions_nonempty(m, u, s, m.len(), k);
    }
}

proof fn lemma_pair_positions_witness(entries: Seq<(usize, usize)>, s: usize, t: usize, k: nat) -> (j: int)
    requires
        pair_positions(entries, s, t, k).len() > 0,
    ensures
        0 <= j < k,
        entries[j] == (s, t),
    decreases k,
{
    if k == 0 {
        0
    } else if entries[k - 1] == (s, t) {
        k - 1
    } else {
        lemma_pair_positions_witness(entries, s, t, (k - 1) as nat)
    }
}

proof fn lemma_pair_positions_nonempty(entries: Seq<(usize, usize)>, s: usize, t: usize, k: nat, j: int)
    requires
        0 <= j < k,
        entries[j] == (s, t),
    ensures
        pair_positions(entries, s, t, k).len() > 0,
    decreases k,
{
    if j < k - 1 {
        lemma_pair_positions_nonempty(entries, s, t, (k - 1) as nat, j);
    }
}

/// Grouping the mirrored entries of an edge list gives a symmetric
/// structure with no node among its own targets: `u` is a target of `s`
/// exactly when `s` is a target of `u`.
pub proof fn lemma_mirrored_groups_symmetric(edges: Seq<(usize, usize)>, n: nat, s: usize, u: usize)
    requires
        n <= usize::MAX,
        s < n,
        u < n,
    ensures
        !targets_below(mirrored(edges), s, n).contains(s),
        targets_below(mirrored(edges), s, n).contains(u) <==> targets_below(
            mirrored(edges),
            u,
            n,
        ).contains(s),
{
    let m = mirrored(edges);
    lemma_targets_below_members(m, s, n);
    lemma_targets_below_members(m, u, n);
    lemma_mirrored_pairs(edges, s, u);
    lemma_mirrored_pairs(edges, u, s);
}

/// Each entry with both ends replaced by their clusters in `c`.
pub open spec fn through_clusters(entries: Seq<(usize, usize)>, c: Seq<usize>) -> Seq<(usize, usize)> {
    entries.map_values(|e: (usize, usize)| (c[e.0 as int], c[e.1 as int]))
}

/// The entries between clusters that the entries between nodes make: each
/// end replaced by its cluster. `ClusterIndexingError` where an end has no
/// cluster.
pub fn cluster_entries(clustering: &Clustering, entries: &Vec<(usize, usize)>) -> (r: Result<
    Vec<(usize, usize)>,
    CoreError,
>)
    ensures
        (forall|j: int|
            0 <= j < entries@.len() ==> (#[trigger] entries@[j]).0 < clustering@.len() && entries@[j].1
                < clustering@.len()) ==> r == Ok::<Vec<(usize, usize)>, CoreError>(r->Ok_0) && r->Ok_0@
            == through_clusters(entries@, clustering@),
        !(forall|j: int|
            0 <= j < entries@.len() ==> (#[trigger] entries@[j]).0 < clustering@.len() && entries@[j].1
                < clustering@.len()) ==> r == Err::<Vec<(usize, usize)>, CoreError>(
            CoreError::ClusterIndexingError,
        ),
{
    let mut mapped: Vec<(usize, usize)> = Vec::with_capacity(entries.len());
    let mut j: usize = 0;
    while j < entries.len()
        invariant
            j <= entries@.len(),
            forall|i: int|
                0 <= i < j ==> (#[trigger] entries@[i]).0 < clustering@.len() && entries@[i].1
                    < clustering@.len(),
            mapped@ == through_clusters(entries@.take(j as int), clustering@),
        decreases entries@.len() - j,
    {
        let (s, t) = entries[j];
        let cs = match clustering.cluster_at(s) {
            Ok(c) => c,
            Err(e) => {
                return Err(e);
            },
        };
        let ct = match clustering.cluster_at(t) {
            Ok(c) => c,
            Err(e) => {
                return Err(e);
            },
        };
        mapped.push((cs, ct));
        proof {
            assert(mapped@ =~= through_clusters(entries@.take(j + 1), clustering@));
        }
        j += 1;
    }
    proof {
        assert(entries@.take(entries@.len() as int) =~= entries@);
    }
    Ok(mapped)
}

/// Through a clustering that puts every node in a cluster of its own id,
/// the entries between clusters are the entries between nodes, so an
/// aggregate network of that clustering is grouped exactly as the network.
pub proof fn lemma_identity_clustering_keeps_entries(entries: Seq<(usize, usize)>, c: Seq<usize>)
    requires
        forall|i: int| 0 <= i < c.len() ==> c[i] == i,
        forall|j: int|
            0 <= j < entries.len() ==> (#[trigger] entries[j]).0 < c.len() && entries[j].1 < c.len(),
    ensures
        through_clusters(entries, c) == entries,
{
    assert(through_clusters(entries, c) =~= entries);
}

/// The positions below `k` of the entries with both ends in `cluster` of
/// `c`, ascending.
pub open spec fn positions_within(entries: Seq<(usize, usize)>, c: Seq<usize>, cluster: usize, k: nat) -> Seq<usize>
    decreases k,
{
    if k == 0 {
        Seq::empty()
    } else {
        let e = entries[k - 1];
        positions_within(entries, c, cluster, (k - 1) as nat) + if c[e.0 as int] == cluster && c[e.1 as int]
            == cluster {
            seq![(k - 1) as usize]
        } else {
            Seq::<usize>::empty()
        }
    }
}

/// The positions of the entries that stay inside `cluster`: both ends in
/// it. `ClusterIndexingError` where an end has no cluster.
pub fn entries_within(clustering: &Clustering, cluster: usize, entries: &Vec<(usize, usize)>) -> (r:
    Result<Vec<usize>, CoreError>)
    ensures
        (forall|j: int|
            0 <= j < entries@.len() ==> (#[trigger] entries@[j]).0 < clustering@.len() && entries@[j].1
                < clustering@.len()) ==> r is Ok && r->Ok_0@ == positions_within(
            entries@,
            clustering@,
            cluster,
            entries@.len(),
        ),
        !(forall|j: int|
            0 <= j < entries@.len() ==> (#[trigger] entries@[j]).0 < clustering@.len() && entries@[j].1
                < clustering@.len()) ==> r == Err::<Vec<usize>, CoreError>(
            CoreError::ClusterIndexingError,
        ),
{
    let mut kept: Vec<usize> = Vec::new();
    let mut j: usize = 0;
    while j < entries.len()
        invariant
            j <= entries@.len(),
            forall|i: int|
                0 <= i < j ==> (#[trigger] entries@[i]).0 < clustering@.len() && entries@[i].1
                    < clustering@.len(),
            kept@ == positions_within(entries@, clustering@, cluster, j as nat),
        decreases entries@.len() - j,
    {
        let (s, t) = entries[j];
        let cs = match clustering.cluster_at(s) {
            Ok(c) => c,
            Err(e) => {
                return Err(e);
            },
        };
        let ct = match clustering.cluster_at(t) {
            Ok(c) => c,
            Err(e) => {
                return Err(e);
            },
        };
        if cs == cluster && ct == cluster {
            kept.push(j);
        }
        j += 1;
    }
    Ok(kept)
}

} // verus!
