//! An undirected graph of named nodes, kept as adjacency lists, with
//! breadth-first traversal.
use vstd::prelude::*;

verus! {

/// The names that a list of strings holds.
pub open spec fn names_of(v: Seq<String>) -> Seq<Seq<char>> {
    v.map_values(|s: String| s@)
}

/// The neighbor list of `x` in the adjacency map `m`; empty for an unknown node.
pub open spec fn nbrs(m: Map<Seq<char>, Seq<Seq<char>>>, x: Seq<char>) -> Seq<Seq<char>> {
    if m.contains_key(x) {
        m[x]
    } else {
        Seq::empty()
    }
}

/// The adjacency map after an undirected edge between `a` and `b` is added:
/// `b` is appended to the list of `a`, then `a` to the list of `b`.
pub open spec fn with_edge(m: Map<Seq<char>, Seq<Seq<char>>>, a: Seq<char>, b: Seq<char>) -> Map<
    Seq<char>,
    Seq<Seq<char>>,
> {
    let m1 = m.insert(a, nbrs(m, a).push(b));
    m1.insert(b, nbrs(m1, b).push(a))
}

/// `seen` extended by the entries of `ns` that it does not hold yet, in the
/// order of `ns`, each once.
pub open spec fn extend(seen: Seq<Seq<char>>, ns: Seq<Seq<char>>) -> Seq<Seq<char>>
    decreases ns.len(),
{
    if ns.len() == 0 {
        seen
    } else {
        let s = extend(seen, ns.drop_last());
        if s.contains(ns.last()) {
            s
        } else {
            s.push(ns.last())
        }
    }
}

/// The nodes discovered by a breadth-first traversal from `start` after the
/// first `i` nodes have been taken off the frontier. The discovered nodes in
/// discovery order form the frontier as well: node `k` is the `k`-th one
/// taken off.
pub open spec fn bfs_state(m: Map<Seq<char>, Seq<Seq<char>>>, start: Seq<char>, i: nat) -> Seq<
    Seq<char>,
>
    decreases i,
{
    if i == 0 {
        seq![start]
    } else {
        let d = bfs_state(m, start, (i - 1) as nat);
        if i - 1 < d.len() {
            extend(d, nbrs(m, d[i - 1]))
        } else {
            d
        }
    }
}

/// Extending `seen` by `ns` keeps `seen` as a prefix, adds exactly the
/// entries of `ns`, and adds no duplicate.
pub proof fn lemma_extend(seen: Seq<Seq<char>>, ns: Seq<Seq<char>>)
    ensures
        seen.len() <= extend(seen, ns).len(),
        extend(seen, ns).subrange(0, seen.len() as int) == seen,
        forall|x: Seq<char>| #[trigger] extend(seen, ns).contains(x) <==> seen.contains(x) || ns.contains(x),
        seen.no_duplicates() ==> extend(seen, ns).no_duplicates(),
    decreases ns.len(),
{
    if ns.len() > 0 {
        let p = ns.drop_last();
        lemma_extend(seen, p);
        let s = extend(seen, p);
        assert forall|x: Seq<char>| #[trigger] extend(seen, ns).contains(x) <==> seen.contains(x)
            || ns.contains(x) by {
            if p.contains(x) {
                let k = choose|k: int| 0 <= k < p.len() && p[k] == x;
                assert(ns[k] == x);
            }
            if ns.contains(x) && x != ns.last() {
                let k = choose|k: int| 0 <= k < ns.len() && ns[k] == x;
                assert(p[k] == x);
            }
            if !s.contains(ns.last()) {
                assert(s.push(ns.last()).last() == ns.last());
                if s.push(ns.last()).contains(x) && x != ns.last() {
                    let k = choose|k: int| 0 <= k < s.len() + 1 && s.push(ns.last())[k] == x;
                    assert(s[k] == x);
                }
                if s.contains(x) {
                    let k = choose|k: int| 0 <= k < s.len() && s[k] == x;
                    assert(s.push(ns.last())[k] == x);
                }
            }
        }
        assert(extend(seen, ns).subrange(0, seen.len() as int) =~= seen) by {
            assert(s.subrange(0, seen.len() as int) == seen);
            if !s.contains(ns.last()) {
                assert(s.push(ns.last()).subrange(0, seen.len() as int) =~= s.subrange(0, seen.len() as int));
            }
        }
    }
}

/// A sequence without duplicates whose entries are `x` or entries of `names`
/// is at most one longer than `names`.
proof fn lemma_distinct_bound(s: Seq<Seq<char>>, names: Seq<Seq<char>>, x: Seq<char>)
    requires
        s.no_duplicates(),
        forall|k: int| 0 <= k < s.len() ==> s[k] == x || names.contains(#[trigger] s[k]),
    ensures
        s.len() <= names.len() + 1,
{
    s.unique_seq_to_set();
    let all = names.push(x);
    all.lemma_cardinality_of_set();
    assert forall|y: Seq<char>| s.to_set().contains(y) implies all.to_set().contains(y) by {
        let k = choose|k: int| 0 <= k < s.len() && s[k] == y;
        if y == x {
            assert(all[names.len() as int] == y);
        } else {
            let c = choose|c: int| 0 <= c < names.len() && names[c] == y;
            assert(all[c] == y);
        }
    }
    vstd::set_lib::lemma_len_subset(s.to_set(), all.to_set());
}

/// Whether `x` is reached from `a` by a walk of exactly `steps` edges.
pub open spec fn reaches(m: Map<Seq<char>, Seq<Seq<char>>>, a: Seq<char>, x: Seq<char>, steps: nat) -> bool
    decreases steps,
{
    if steps == 0 {
        a == x
    } else {
        exists|y: Seq<char>| reaches(m, a, y, (steps - 1) as nat) && #[trigger] nbrs(m, y).contains(x)
    }
}

/// After an edge between `a` and `b` is added, each endpoint lists the other.
pub proof fn lemma_edge_symmetric(m: Map<Seq<char>, Seq<Seq<char>>>, a: Seq<char>, b: Seq<char>)
    ensures
        nbrs(with_edge(m, a, b), a).contains(b),
        nbrs(with_edge(m, a, b), b).contains(a),
{
    let m1 = m.insert(a, nbrs(m, a).push(b));
    let m2 = with_edge(m, a, b);
    assert(nbrs(m2, b).last() == a);
    if a != b {
        assert(nbrs(m2, a) == nbrs(m, a).push(b));
        assert(nbrs(m2, a).last() == b);
    } else {
        assert(nbrs(m2, a) == nbrs(m, a).push(b).push(a));
        assert(nbrs(m2, a)[nbrs(m, a).len() as int] == b);
    }
}

proof fn lemma_bfs_prefix(m: Map<Seq<char>, Seq<Seq<char>>>, start: Seq<char>, i: nat, j: nat)
    requires
        i <= j,
    ensures
        bfs_state(m, start, i).len() <= bfs_state(m, start, j).len(),
        bfs_state(m, start, j).subrange(0, bfs_state(m, start, i).len() as int) == bfs_state(m, start, i),
        bfs_state(m, start, j).no_duplicates(),
        bfs_state(m, start, j)[0] == start,
    decreases j,
{
    if j == 0 {
        assert(bfs_state(m, start, 0).subrange(0, 1) =~= bfs_state(m, start, 0));
        assert(seq![start].no_duplicates());
    } else {
        let d = bfs_state(m, start, (j - 1) as nat);
        if i < j {
            lemma_bfs_prefix(m, start, i, (j - 1) as nat);
        } else {
            lemma_bfs_prefix(m, start, (j - 1) as nat, (j - 1) as nat);
        }
        if j - 1 < d.len() {
            lemma_extend(d, nbrs(m, d[j - 1]));
            let e = bfs_state(m, start, j);
            assert(e[0] == e.subrange(0, d.len() as int)[0]);
            if i < j {
                let li = bfs_state(m, start, i).len() as int;
                assert(e.subrange(0, li) =~= e.subrange(0, d.len() as int).subrange(0, li));
            } else {
                assert(e.subrange(0, e.len() as int) =~= e);
            }
        } else if i == j {
            assert(d.subrange(0, d.len() as int) =~= d);
        }
    }
}

proof fn lemma_bfs_frozen(m: Map<Seq<char>, Seq<Seq<char>>>, start: Seq<char>, i: nat, j: nat)
    requires
        i <= j,
        bfs_state(m, start, i).len() <= i,
    ensures
        bfs_state(m, start, j) == bfs_state(m, start, i),
    decreases j,
{
    if i < j {
        lemma_bfs_frozen(m, start, i, (j - 1) as nat);
    }
}

/// A finished breadth-first traversal from `start`: `start` comes first, no
/// node comes twice, every neighbor of a listed node is listed, and so every
/// node reached from `start` by a walk of any length is listed.
pub proof fn lemma_bfs_complete(m: Map<Seq<char>, Seq<Seq<char>>>, start: Seq<char>, n: nat)
    requires
        bfs_state(m, start, n).len() == n,
    ensures
        bfs_state(m, start, n)[0] == start,
        bfs_state(m, start, n).no_duplicates(),
        forall|k: int, y: Seq<char>|
            0 <= k < n && #[trigger] nbrs(m, bfs_state(m, start, n)[k]).contains(y) ==> bfs_state(
                m,
                start,
                n,
            ).contains(y),
        forall|x: Seq<char>, steps: nat| #[trigger] reaches(m, start, x, steps) ==> bfs_state(m, start, n).contains(x),
{
    let r = bfs_state(m, start, n);
    if n == 0 {
        assert(bfs_state(m, start, 0).len() == 1);
    }
    lemma_bfs_prefix(m, start, n, n);
    assert forall|k: int, y: Seq<char>|
        0 <= k < n && #[trigger] nbrs(m, r[k]).contains(y) implies r.contains(y) by {
        let d = bfs_state(m, start, k as nat);
        if d.len() <= k {
            lemma_bfs_frozen(m, start, k as nat, n);
        }
        lemma_bfs_prefix(m, start, k as nat, n);
        assert(r.subrange(0, d.len() as int)[k] == d[k]);
        lemma_extend(d, nbrs(m, d[k]));
        let e = bfs_state(m, start, (k + 1) as nat);
        assert(e.contains(y));
        lemma_bfs_prefix(m, start, (k + 1) as nat, n);
        let c = choose|c: int| 0 <= c < e.len() && e[c] == y;
        assert(r.subrange(0, e.len() as int)[c] == y);
        assert(r[c] == y);
    }
    assert forall|x: Seq<char>, steps: nat| #[trigger] reaches(m, start, x, steps) implies r.contains(x) by {
        lemma_reach_listed(m, start, n, x, steps);
    }
}

proof fn lemma_reach_listed(m: Map<Seq<char>, Seq<Seq<char>>>, start: Seq<char>, n: nat, x: Seq<char>, steps: nat)
    requires
        bfs_state(m, start, n).len() == n,
        bfs_state(m, start, n)[0] == start,
        forall|k: int, y: Seq<char>|
            0 <= k < n && #[trigger] nbrs(m, bfs_state(m, start, n)[k]).contains(y) ==> bfs_state(
                m,
                start,
                n,
            ).contains(y),
        reaches(m, start, x, steps),
    ensures
        bfs_state(m, start, n).contains(x),
    decreases steps,
{
    let r = bfs_state(m, start, n);
    if steps == 0 {
        if n == 0 {
            assert(bfs_state(m, start, 0).len() == 1);
        }
        assert(r[0] == x);
    } else {
        let y = choose|y: Seq<char>| reaches(m, start, y, (steps - 1) as nat) && #[trigger] nbrs(m, y).contains(x);
        lemma_reach_listed(m, start, n, y, (steps - 1) as nat);
        let k = choose|k: int| 0 <= k < r.len() && r[k] == y;
        assert(nbrs(m, r[k]).contains(x));
    }
}

/// Facts on a finished traversal `r` of length `n`: indices below `n` are
/// below the discovered count at every earlier step, and each step's
/// discoveries are a prefix of `r`.
proof fn lemma_bfs_step_facts(m: Map<Seq<char>, Seq<Seq<char>>>, start: Seq<char>, n: nat, i: nat)
    requires
        bfs_state(m, start, n).len() == n,
        i < n,
    ensures
        i < bfs_state(m, start, i).len(),
        bfs_state(m, start, i + 1) == extend(bfs_state(m, start, i), nbrs(m, bfs_state(m, start, n)[i as int])),
        bfs_state(m, start, i + 1).len() <= n,
        bfs_state(m, start, n).subrange(0, bfs_state(m, start, i + 1).len() as int) == bfs_state(m, start, i + 1),
        bfs_state(m, start, n).subrange(0, bfs_state(m, start, i).len() as int) == bfs_state(m, start, i),
        bfs_state(m, start, n).no_duplicates(),
{
    let d = bfs_state(m, start, i);
    if d.len() <= i {
        lemma_bfs_frozen(m, start, i, n);
    }
    lemma_bfs_prefix(m, start, i, n);
    lemma_bfs_prefix(m, start, i + 1, n);
    let r = bfs_state(m, start, n);
    assert(r.subrange(0, d.len() as int)[i as int] == d[i as int]);
}

proof fn lemma_bfs_find_step(m: Map<Seq<char>, Seq<Seq<char>>>, start: Seq<char>, n: nat, j: nat, i: nat)
    requires
        bfs_state(m, start, n).len() == n,
        j < n,
        i < n,
        bfs_state(m, start, i).len() <= j,
    ensures
        exists|s: nat| i <= s < j && bfs_state(m, start, s).len() <= j < #[trigger] bfs_state(m, start, s + 1).len(),
    decreases j - i,
{
    lemma_bfs_step_facts(m, start, n, i);
    if j < bfs_state(m, start, i + 1).len() {
        assert(bfs_state(m, start, i).len() <= j < bfs_state(m, start, i + 1).len());
    } else {
        lemma_bfs_find_step(m, start, n, j, i + 1);
    }
}

/// In a finished traversal, a node adjacent to the node at index `i` sits
/// below the count discovered once that node has been taken off the frontier.
proof fn lemma_bfs_adjacent_bound(m: Map<Seq<char>, Seq<Seq<char>>>, start: Seq<char>, n: nat, i: nat, k: int)
    requires
        bfs_state(m, start, n).len() == n,
        i < n,
        0 <= k < n,
        nbrs(m, bfs_state(m, start, n)[i as int]).contains(bfs_state(m, start, n)[k]),
    ensures
        k < bfs_state(m, start, i + 1).len(),
{
    lemma_bfs_step_facts(m, start, n, i);
    let r = bfs_state(m, start, n);
    let e = bfs_state(m, start, i + 1);
    lemma_extend(bfs_state(m, start, i), nbrs(m, r[i as int]));
    assert(e.contains(r[k]));
    let c = choose|c: int| 0 <= c < e.len() && e[c] == r[k];
    assert(r.subrange(0, e.len() as int)[c] == e[c]);
    assert(r[c] == r[k]);
}

/// The breadth-first order of a finished traversal from `start`: every node
/// after `start` is adjacent to an earlier one, and the nodes come in the
/// order of their earliest-listed neighbors, so a node comes after every node
/// nearer to `start`.
pub proof fn lemma_bfs_order(m: Map<Seq<char>, Seq<Seq<char>>>, start: Seq<char>, n: nat, j: int, k: int, i: int)
    requires
        bfs_state(m, start, n).len() == n,
        1 <= j < k < n,
        0 <= i < n,
        nbrs(m, bfs_state(m, start, n)[i]).contains(bfs_state(m, start, n)[k]),
    ensures
        exists|a: int| 0 <= a < k && #[trigger] nbrs(m, bfs_state(m, start, n)[a]).contains(bfs_state(m, start, n)[k]),
        exists|a: int| 0 <= a <= i && #[trigger] nbrs(m, bfs_state(m, start, n)[a]).contains(bfs_state(m, start, n)[j]),
{
    let r = bfs_state(m, start, n);
    lemma_bfs_adjacent_bound(m, start, n, i as nat, k);
    lemma_bfs_step_facts(m, start, n, 0);
    assert(bfs_state(m, start, 0).len() == 1);
    lemma_bfs_find_step(m, start, n, k as nat, 0);
    let s = choose|s: nat| 0 <= s < k && bfs_state(m, start, s).len() <= k < #[trigger] bfs_state(m, start, s + 1).len();
    lemma_bfs_discovered_by(m, start, n, s, k);
    lemma_bfs_find_step(m, start, n, j as nat, 0);
    let t = choose|t: nat| 0 <= t < j && bfs_state(m, start, t).len() <= j < #[trigger] bfs_state(m, start, t + 1).len();
    lemma_bfs_discovered_by(m, start, n, t, j);
    if t > i {
        lemma_bfs_prefix(m, start, (i + 1) as nat, t);
    }
}

proof fn lemma_bfs_discovered_by(m: Map<Seq<char>, Seq<Seq<char>>>, start: Seq<char>, n: nat, s: nat, k: int)
    requires
        bfs_state(m, start, n).len() == n,
        s < n,
        bfs_state(m, start, s).len() <= k < bfs_state(m, start, s + 1).len(),
    ensures
        nbrs(m, bfs_state(m, start, n)[s as int]).contains(bfs_state(m, start, n)[k]),
{
    lemma_bfs_step_facts(m, start, n, s);
    let r = bfs_state(m, start, n);
    let d = bfs_state(m, start, s);
    let e = bfs_state(m, start, s + 1);
    lemma_extend(d, nbrs(m, r[s as int]));
    assert(r.subrange(0, e.len() as int)[k] == e[k]);
    assert(e.contains(r[k]));
    if d.contains(r[k]) {
        let c = choose|c: int| 0 <= c < d.len() && d[c] == r[k];
        assert(r.subrange(0, d.len() as int)[c] == d[c]);
        assert(r[c] == r[k]);
    }
}

/// An undirected graph. Each node has an ordered neighbor list; adding an
/// edge twice lists each endpoint twice.
pub struct Graph {
    nodes: Vec<String>,
    adjacency: Vec<Vec<String>>,
}

impl View for Graph {
    type V = Map<Seq<char>, Seq<Seq<char>>>;

    closed spec fn view(&self) -> Map<Seq<char>, Seq<Seq<char>>> {
        Map::new(
            |k: Seq<char>| names_of(self.nodes@).contains(k),
            |k: Seq<char>| names_of(self.adjacency@[names_of(self.nodes@).index_of(k)]@),
        )
    }
}

impl Graph {
    /// Node names are distinct, each node has one neighbor list, and every
    /// listed neighbor is a node.
    pub closed spec fn well_formed(&self) -> bool {
        &&& self.nodes@.len() == self.adjacency@.len()
        &&& names_of(self.nodes@).no_duplicates()
        &&& forall|i: int, j: int|
            0 <= i < self.adjacency@.len() && 0 <= j < self.adjacency@[i]@.len()
                ==> names_of(self.nodes@).contains(#[trigger] self.adjacency@[i]@[j]@)
    }

    /// An empty graph.
    pub fn new() -> (g: Self)
        ensures
            g.well_formed(),
            g@ == Map::<Seq<char>, Seq<Seq<char>>>::empty(),
    {
        let g = Graph { nodes: Vec::new(), adjacency: Vec::new() };
        assert(g@ =~= Map::<Seq<char>, Seq<Seq<char>>>::empty());
        g
    }

    fn find(&self, id: &String) -> (r: Option<usize>)
        requires
            self.well_formed(),
        ensures
            match r {
                Some(i) => i < self.nodes@.len() && self.nodes@[i as int]@ == id@,
                None => !names_of(self.nodes@).contains(id@),
            },
    {
        let mut i: usize = 0;
        while i < self.nodes.len()
            invariant
                i <= self.nodes@.len(),
                forall|k: int| 0 <= k < i ==> self.nodes@[k]@ != id@,
            decreases self.nodes@.len() - i,
        {
            if self.nodes[i] == *id {
                return Some(i);
            }
            i = i + 1;
        }
        assert forall|k: int| 0 <= k < names_of(self.nodes@).len() implies names_of(
            self.nodes@,
        )[k] != id@ by {}
        None
    }

    fn slot(&mut self, id: String) -> (i: usize)
        requires
            old(self).well_formed(),
        ensures
            final(self).well_formed(),
            i < final(self).nodes@.len(),
            final(self).nodes@[i as int]@ == id@,
            old(self).nodes@.len() <= final(self).nodes@.len(),
            forall|k: int| 0 <= k < old(self).nodes@.len() ==> final(self).nodes@[k] == old(self).nodes@[k],
            final(self)@ == (if old(self)@.contains_key(id@) {
                old(self)@
            } else {
                old(self)@.insert(id@, Seq::empty())
            }),
    {
        match self.find(&id) {
            Some(i) => {
                proof {
                    self.lemma_view_at(i as int);
                }
                i
            },
            None => {
                let ghost old_g = *self;
                let i = self.nodes.len();
                self.nodes.push(id);
                self.adjacency.push(Vec::new());
                proof {
                    assert(names_of(self.nodes@) =~= names_of(old_g.nodes@).push(id@));
                    assert forall|a: int, b: int|
                        0 <= a < self.adjacency@.len() && 0 <= b < self.adjacency@[a]@.len()
                            implies names_of(self.nodes@).contains(
                        #[trigger] self.adjacency@[a]@[b]@,
                    ) by {
                        assert(a < i);
                        assert(self.adjacency@[a] == old_g.adjacency@[a]);
                        let c = names_of(old_g.nodes@).index_of(self.adjacency@[a]@[b]@);
                        assert(names_of(self.nodes@)[c] == self.adjacency@[a]@[b]@);
                    }
                    assert(self.well_formed());
                    assert forall|k: Seq<char>| #[trigger] self@.contains_key(k) implies old_g@.insert(
                        id@,
                        Seq::empty(),
                    ).contains_key(k) && self@[k] == old_g@.insert(id@, Seq::empty())[k] by {
                        let c = names_of(self.nodes@).index_of(k);
                        assert(names_of(self.nodes@)[c] == k);
                        if c < i {
                            assert(names_of(old_g.nodes@)[c] == k);
                            old_g.lemma_view_at(c);
                            self.lemma_view_at(c);
                        } else {
                            self.lemma_view_at(c);
                            assert(names_of(self.adjacency@[c]@) =~= Seq::<Seq<char>>::empty());
                        }
                    }
                    assert forall|k: Seq<char>| #[trigger] old_g@.insert(id@, Seq::empty()).contains_key(k)
                        implies self@.contains_key(k) by {
                        if k != id@ {
                            let c = names_of(old_g.nodes@).index_of(k);
                            assert(names_of(self.nodes@)[c] == k);
                        } else {
                            assert(names_of(self.nodes@)[i as int] == k);
                        }
                    }
                    assert(self@ =~= old_g@.insert(id@, Seq::empty()));
                }
                i
            },
        }
    }

    fn push_neighbor(&mut self, i: usize, x: String)
        requires
            old(self).well_formed(),
            i < old(self).nodes@.len(),
            old(self)@.contains_key(x@),
        ensures
            final(self).well_formed(),
            final(self).nodes@ == old(self).nodes@,
            final(self)@ == old(self)@.insert(
                old(self).nodes@[i as int]@,
                old(self)@[old(self).nodes@[i as int]@].push(x@),
            ),
    {
        let ghost old_g = *self;
        proof {
            old_g.lemma_view_at(i as int);
        }
        self.adjacency[i].push(x);
        proof {
            assert(names_of(self.adjacency@[i as int]@) =~= names_of(old_g.adjacency@[i as int]@).push(x@));
            assert forall|a: int, b: int|
                0 <= a < self.adjacency@.len() && 0 <= b < self.adjacency@[a]@.len()
                    implies names_of(self.nodes@).contains(#[trigger] self.adjacency@[a]@[b]@) by {
                if a != i || b < old_g.adjacency@[a]@.len() {
                    assert(self.adjacency@[a]@[b] == old_g.adjacency@[a]@[b]);
                } else {
                    assert(self.adjacency@[a]@[b]@ == x@);
                }
            }
            let key = old_g.nodes@[i as int]@;
            let target = old_g@.insert(key, old_g@[key].push(x@));
            assert forall|k: Seq<char>| #[trigger] self@.contains_key(k) implies target.contains_key(k)
                && self@[k] == target[k] by {
                let c = names_of(self.nodes@).index_of(k);
                assert(names_of(self.nodes@)[c] == k);
                self.lemma_view_at(c);
                old_g.lemma_view_at(c);
                if c != i {
                    assert(names_of(self.nodes@)[i as int] == key);
                }
            }
            assert(self@ =~= target);
        }
    }

    /// Makes sure that a node named `id` exists; an existing node keeps its
    /// neighbors, a new one has none.
    pub fn add_node(&mut self, id: String)
        requires
            old(self).well_formed(),
        ensures
            final(self).well_formed(),
            final(self)@ == (if old(self)@.contains_key(id@) {
                old(self)@
            } else {
                old(self)@.insert(id@, Seq::empty())
            }),
    {
        self.slot(id);
    }

    /// Adds an undirected edge: `to` joins the neighbors of `from`, then
    /// `from` joins the neighbors of `to`. Missing endpoints are created
    /// first; repeated edges are listed again.
    pub fn add_edge(&mut self, from: String, to: String)
        requires
            old(self).well_formed(),
        ensures
            final(self).well_formed(),
            final(self)@ == with_edge(old(self)@, from@, to@),
    {
        let ghost m = self@;
        let i = self.slot(from.clone());
        let j = self.slot(to.clone());
        let ghost m2 = self@;
        proof {
            self.lemma_view_at(i as int);
            self.lemma_view_at(j as int);
        }
        self.push_neighbor(i, to);
        let ghost m3 = self@;
        proof {
            self.lemma_view_at(j as int);
        }
        self.push_neighbor(j, from);
        proof {
            let m1 = m.insert(from@, nbrs(m, from@).push(to@));
            assert(m2[from@] == nbrs(m, from@));
            assert(m3 =~= m1.insert(to@, m3[to@]));
            assert(m3[to@] == nbrs(m1, to@));
            assert(self@ =~= with_edge(m, from@, to@));
        }
    }

    /// The neighbors of `id` in the order their edges were added; empty for
    /// an unknown node.
    pub fn neighbors(&self, id: &String) -> (r: Vec<String>)
        requires
            self.well_formed(),
        ensures
            names_of(r@) == nbrs(self@, id@),
    {
        match self.find(id) {
            Some(i) => {
                proof {
                    self.lemma_view_at(i as int);
                }
                self.adjacency[i].clone()
            },
            None => Vec::new(),
        }
    }

    /// The node names in the order the nodes were created: each key of the
    /// adjacency map once.
    pub fn node_ids(&self) -> (r: Vec<String>)
        requires
            self.well_formed(),
        ensures
            names_of(r@).no_duplicates(),
            forall|k: Seq<char>| #[trigger] names_of(r@).contains(k) <==> self@.contains_key(k),
    {
        self.nodes.clone()
    }

    fn holds(list: &Vec<String>, x: &String) -> (r: bool)
        ensures
            r == names_of(list@).contains(x@),
    {
        let mut i: usize = 0;
        while i < list.len()
            invariant
                i <= list@.len(),
                forall|k: int| 0 <= k < i ==> list@[k]@ != x@,
            decreases list@.len() - i,
        {
            if list[i] == *x {
                assert(names_of(list@)[i as int] == x@);
                return true;
            }
            i = i + 1;
        }
        assert forall|k: int| 0 <= k < names_of(list@).len() implies names_of(list@)[k] != x@ by {}
        false
    }

    /// The nodes reached from `start` in breadth-first order. `start` comes
    /// first; each node taken off the frontier appends those of its neighbors
    /// not seen before, in neighbor-list order. An unknown `start` yields
    /// itself alone.
    pub fn bfs(&self, start: &String) -> (r: Vec<String>)
        requires
            self.well_formed(),
        ensures
            names_of(r@) == bfs_state(self@, start@, r@.len() as nat),
            bfs_state(self@, start@, r@.len() as nat).len() == r@.len(),
    {
        let mut order: Vec<String> = Vec::new();
        order.push(start.clone());
        let mut head: usize = 0;
        assert(names_of(order@) =~= bfs_state(self@, start@, 0));
        while head < order.len()
            invariant
                self.well_formed(),
                head <= order@.len(),
                names_of(order@) == bfs_state(self@, start@, head as nat),
                names_of(order@).no_duplicates(),
                forall|k: int|
                    0 <= k < order@.len() ==> #[trigger] names_of(order@)[k] == start@
                        || names_of(self.nodes@).contains(names_of(order@)[k]),
            decreases self.nodes@.len() + 1 - head,
        {
            proof {
                lemma_distinct_bound(names_of(order@), names_of(self.nodes@), start@);
            }
            let ghost d = names_of(order@);
            let node = order[head].clone();
            let ns = self.neighbors(&node);
            let mut j: usize = 0;
            while j < ns.len()
                invariant
                    self.well_formed(),
                    head < order@.len(),
                    head < d.len(),
                    j <= ns@.len(),
                    names_of(ns@) == nbrs(self@, d[head as int]),
                    names_of(order@) == extend(d, names_of(ns@).take(j as int)),
                    names_of(order@).no_duplicates(),
                    forall|k: int|
                        0 <= k < order@.len() ==> #[trigger] names_of(order@)[k] == start@
                            || names_of(self.nodes@).contains(names_of(order@)[k]),
                decreases ns@.len() - j,
            {
                let ghost before = names_of(order@);
                let x = &ns[j];
                let ghost t = names_of(ns@).take(j as int + 1);
                assert(t.drop_last() =~= names_of(ns@).take(j as int));
                assert(t.last() == x@);
                proof {
                    let h = d[head as int];
                    assert(names_of(ns@)[j as int] == x@);
                    if self@.contains_key(h) {
                        assert(names_of(self.nodes@).contains(h));
                        let c = names_of(self.nodes@).index_of(h);
                        assert(0 <= c < names_of(self.nodes@).len() && names_of(self.nodes@)[c] == h);
                        assert(self.nodes@[c]@ == h);
                        self.lemma_view_at(c);
                        assert(nbrs(self@, h) == names_of(self.adjacency@[c]@));
                        assert(names_of(self.adjacency@[c]@)[j as int] == x@);
                        assert(names_of(ns@).len() == ns@.len());
                        assert(names_of(self.adjacency@[c]@).len() == self.adjacency@[c]@.len());
                        assert(j < self.adjacency@[c]@.len());
                        assert(names_of(self.adjacency@[c]@)[j as int] == self.adjacency@[c]@[j as int]@);
                        assert(self.adjacency@[c]@[j as int]@ == x@);
                        assert(names_of(self.nodes@).contains(self.adjacency@[c]@[j as int]@));
                    }
                    assert(names_of(self.nodes@).contains(x@));
                }
                if !Self::holds(&order, x) {
                    order.push(x.clone());
                    assert(names_of(order@) =~= before.push(x@));
                    assert forall|k: int| 0 <= k < order@.len() implies #[trigger] names_of(order@)[k]
                        == start@ || names_of(self.nodes@).contains(names_of(order@)[k]) by {
                        if k < before.len() {
                            assert(names_of(order@)[k] == before[k]);
                        } else {
                            assert(names_of(order@)[k] == x@);
                        }
                    }
                }
                j = j + 1;
            }
            assert(names_of(ns@).take(ns@.len() as int) =~= names_of(ns@));
            head = head + 1;
        }
        proof {
            lemma_distinct_bound(names_of(order@), names_of(self.nodes@), start@);
        }
        order
    }

    proof fn lemma_view_at(&self, i: int)
        requires
            self.well_formed(),
            0 <= i < self.nodes@.len(),
        ensures
            self@.contains_key(self.nodes@[i]@),
            self@[self.nodes@[i]@] == names_of(self.adjacency@[i]@),
    {
        let ns = names_of(self.nodes@);
        assert(ns[i] == self.nodes@[i]@);
        assert(ns.contains(ns[i]));
        let j = ns.index_of(ns[i]);
        assert(ns[j] == ns[i]);
    }
}

} // verus!
