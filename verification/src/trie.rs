use vstd::map::*;
use vstd::prelude::*;
use vstd::string::StrSliceExecFns;

verus! {

/// One arena element: the outgoing edges (one per distinct character) and
/// the optional payload of the node.
pub struct TrieNode {
    /// Edge list: each entry maps one character to the index of a child
    /// node. Characters are unique within one node; order is irrelevant.
    pub children: Vec<(char, usize)>,
    /// The stored value, present exactly when some inserted key ends here.
    pub value: Option<usize>,
}

/// A trie over an append-only node arena. Node 0 is the root, created at
/// construction and never removed; child references are arena indices.
pub struct SuccinctTrie {
    /// The node arena; it only ever grows.
    pub nodes: Vec<TrieNode>,
    /// One entry per node: the length of `suffixes` when the node was
    /// created. Written by `insert`, never consulted by `search`.
    pub prefixes: Vec<usize>,
    /// A flat log of every character processed by every insertion step.
    /// Written by `insert`, never consulted by `search`.
    pub suffixes: Vec<char>,
}

/// The child index an edge list associates with character `c`, if any.
/// Edge lists are kept duplicate-free, so which end the scan starts from
/// does not matter.
pub open spec fn lookup_edges(edges: Seq<(char, usize)>, c: char) -> Option<usize>
    decreases edges.len(),
{
    if edges.len() == 0 {
        None
    } else if edges.last().0 == c {
        Some(edges.last().1)
    } else {
        lookup_edges(edges.drop_last(), c)
    }
}

/// No two entries of one edge list carry the same character.
pub open spec fn chars_unique(edges: Seq<(char, usize)>) -> bool {
    forall|j1: int, j2: int| 0 <= j1 < j2 < edges.len() ==> edges[j1].0 != edges[j2].0
}

/// Every edge points forward: a child index is strictly greater than its
/// parent's index and lies inside the arena. Nodes are appended after
/// their parent exists, so this holds by construction and rules out
/// cycles.
pub open spec fn edges_wf(nodes: Seq<TrieNode>) -> bool {
    forall|i: int, j: int|
        0 <= i < nodes.len() && 0 <= j < nodes[i].children@.len() ==> i < (
        #[trigger] nodes[i].children@[j]).1 < nodes.len()
}

/// Every node is the target of at most one edge: distinct edge entries
/// (anywhere in the arena) point at distinct children. Together with
/// `edges_wf` this makes the arena a tree rooted at node 0.
pub open spec fn parents_unique(nodes: Seq<TrieNode>) -> bool {
    forall|i1: int, j1: int, i2: int, j2: int|
        #![trigger nodes[i1].children@[j1], nodes[i2].children@[j2]]
        0 <= i1 < nodes.len() && 0 <= j1 < nodes[i1].children@.len() && 0 <= i2 < nodes.len() && 0
            <= j2 < nodes[i2].children@.len() && nodes[i1].children@[j1].1
            == nodes[i2].children@[j2].1 ==> i1 == i2 && j1 == j2
}

/// The structural invariant of the arena itself.
pub open spec fn nodes_wf(nodes: Seq<TrieNode>) -> bool {
    &&& edges_wf(nodes)
    &&& (forall|i: int| 0 <= i < nodes.len() ==> chars_unique(#[trigger] nodes[i].children@))
    &&& parents_unique(nodes)
}

/// The node reached from node `n` by following the characters of `key`
/// in order, or `None` if some character has no edge.
pub open spec fn reach_from(nodes: Seq<TrieNode>, n: int, key: Seq<char>) -> Option<int>
    decreases key.len(),
{
    if key.len() == 0 {
        Some(n)
    } else {
        match lookup_edges(nodes[n].children@, key[0]) {
            Some(k) => reach_from(nodes, k as int, key.drop_first()),
            None => None,
        }
    }
}

/// The value stored at the node that `key` reaches from node `n`, or
/// `None` if the walk falls off the tree.
pub open spec fn value_search(nodes: Seq<TrieNode>, n: int, key: Seq<char>) -> Option<usize> {
    match reach_from(nodes, n, key) {
        Some(t) => nodes[t].value,
        None => None,
    }
}

/// Reading one key out of an abstract key-to-value map: the result
/// `search` is specified against.
pub open spec fn search_result(m: Map<Seq<char>, usize>, key: Seq<char>) -> Option<usize> {
    if m.contains_key(key) {
        Some(m[key])
    } else {
        None
    }
}

/// An edge list has no entry for `c` exactly when no position carries `c`.
proof fn lemma_lookup_none_iff(edges: Seq<(char, usize)>, c: char)
    ensures
        (lookup_edges(edges, c) is None) <==> (forall|j: int|
            0 <= j < edges.len() ==> edges[j].0 != c),
    decreases edges.len(),
{
    if edges.len() > 0 {
        lemma_lookup_none_iff(edges.drop_last(), c);
        assert(forall|j: int| 0 <= j < edges.len() - 1 ==> edges.drop_last()[j] == edges[j]);
        assert(edges.last() == edges[edges.len() - 1]);
    }
}

/// In a duplicate-free edge list, the entry at any position carrying `c`
/// is the entry the lookup finds.
proof fn lemma_lookup_unique_found(edges: Seq<(char, usize)>, c: char, j: int)
    requires
        chars_unique(edges),
        0 <= j < edges.len(),
        edges[j].0 == c,
    ensures
        lookup_edges(edges, c) == Some(edges[j].1),
    decreases edges.len(),
{
    assert(edges.last() == edges[edges.len() - 1]);
    if j < edges.len() - 1 {
        assert(edges[j].0 != edges[edges.len() - 1].0);
        assert(chars_unique(edges.drop_last())) by {
            assert(forall|t: int| 0 <= t < edges.len() - 1 ==> edges.drop_last()[t] == edges[t]);
        }
        lemma_lookup_unique_found(edges.drop_last(), c, j);
    }
}

/// A successful lookup names an entry that is really in the edge list.
proof fn lemma_lookup_entry(edges: Seq<(char, usize)>, c: char)
    requires
        lookup_edges(edges, c) is Some,
    ensures
        exists|j: int|
            0 <= j < edges.len() && (#[trigger] edges[j]).0 == c && edges[j].1 == lookup_edges(
                edges,
                c,
            )->0,
    decreases edges.len(),
{
    assert(edges.last() == edges[edges.len() - 1]);
    if edges.last().0 != c {
        lemma_lookup_entry(edges.drop_last(), c);
        let j = choose|j: int|
            0 <= j < edges.drop_last().len() && (#[trigger] edges.drop_last()[j]).0 == c
                && edges.drop_last()[j].1 == lookup_edges(edges.drop_last(), c)->0;
        assert(edges.drop_last()[j] == edges[j]);
    }
}

/// In a well-formed arena, a successful lookup at node `n` yields a child
/// index strictly between `n` and the arena length.
proof fn lemma_lookup_in_range(nodes: Seq<TrieNode>, n: int, c: char)
    requires
        edges_wf(nodes),
        0 <= n < nodes.len(),
        lookup_edges(nodes[n].children@, c) is Some,
    ensures
        n < lookup_edges(nodes[n].children@, c)->0 < nodes.len(),
{
    lemma_lookup_entry(nodes[n].children@, c);
    let j = choose|j: int|
        0 <= j < nodes[n].children@.len() && (#[trigger] nodes[n].children@[j]).0 == c
            && nodes[n].children@[j].1 == lookup_edges(nodes[n].children@, c)->0;
    assert(n < nodes[n].children@[j].1 < nodes.len());
}

/// In a well-formed arena, a walk that succeeds only moves forward: it
/// ends at a node no earlier than where it started, inside the arena.
proof fn lemma_reach_valid(nodes: Seq<TrieNode>, n: int, key: Seq<char>)
    requires
        edges_wf(nodes),
        0 <= n < nodes.len(),
        reach_from(nodes, n, key) is Some,
    ensures
        n <= reach_from(nodes, n, key)->0 < nodes.len(),
    decreases key.len(),
{
    if key.len() > 0 {
        lemma_lookup_in_range(nodes, n, key[0]);
        let k = lookup_edges(nodes[n].children@, key[0])->0;
        lemma_reach_valid(nodes, k as int, key.drop_first());
    }
}

/// Walking a concatenation is walking the first part, then the second.
proof fn lemma_reach_concat(nodes: Seq<TrieNode>, n: int, a: Seq<char>, b: Seq<char>)
    ensures
        reach_from(nodes, n, a + b) == (match reach_from(nodes, n, a) {
            Some(u) => reach_from(nodes, u, b),
            None => None::<int>,
        }),
    decreases a.len(),
{
    if a.len() == 0 {
        assert(a + b =~= b);
    } else {
        assert((a + b)[0] == a[0]);
        match lookup_edges(nodes[n].children@, a[0]) {
            Some(k) => {
                assert((a + b).drop_first() =~= a.drop_first() + b);
                lemma_reach_concat(nodes, k as int, a.drop_first(), b);
            },
            None => {
                assert((a + b).len() > 0);
            },
        }
    }
}

/// A nonempty successful walk decomposes into a walk of all but the last
/// character, ending at the parent, followed by one edge step.
proof fn lemma_reach_last_step(nodes: Seq<TrieNode>, p: Seq<char>, t: int)
    requires
        edges_wf(nodes),
        nodes.len() >= 1,
        p.len() > 0,
        reach_from(nodes, 0, p) == Some(t),
    ensures
        reach_from(nodes, 0, p.drop_last()) is Some,
        ({
            let u = reach_from(nodes, 0, p.drop_last())->0;
            &&& 0 <= u < nodes.len()
            &&& u < t
            &&& lookup_edges(nodes[u].children@, p.last()) is Some
            &&& lookup_edges(nodes[u].children@, p.last())->0 as int == t
        }),
{
    assert(p =~= p.drop_last() + seq![p.last()]);
    lemma_reach_concat(nodes, 0, p.drop_last(), seq![p.last()]);
    assert(reach_from(nodes, 0, p.drop_last()) is Some);
    let u = reach_from(nodes, 0, p.drop_last())->0;
    lemma_reach_valid(nodes, 0, p.drop_last());
    assert(seq![p.last()][0] == p.last());
    assert(seq![p.last()].drop_first() =~= Seq::<char>::empty());
    match lookup_edges(nodes[u].children@, p.last()) {
        Some(k) => {
            assert(reach_from(nodes, k as int, seq![p.last()].drop_first()) == Some(k as int));
            assert(reach_from(nodes, u, seq![p.last()]) == Some(k as int));
            assert(k as int == t);
        },
        None => {
            assert(reach_from(nodes, u, seq![p.last()]) is None);
            assert(false);
        },
    }
    lemma_lookup_in_range(nodes, u, p.last());
}

/// Paths are injective: in a well-formed arena, at most one character
/// sequence leads from the root to any given node. This is what makes
/// setting one node's value affect exactly one key.
proof fn lemma_reach_unique(nodes: Seq<TrieNode>, p: Seq<char>, q: Seq<char>, t: int)
    requires
        nodes_wf(nodes),
        nodes.len() >= 1,
        reach_from(nodes, 0, p) == Some(t),
        reach_from(nodes, 0, q) == Some(t),
    ensures
        p == q,
    decreases t,
{
    lemma_reach_valid(nodes, 0, p);
    if p.len() == 0 {
        if q.len() > 0 {
            lemma_reach_last_step(nodes, q, t);
            assert(false);
        }
        assert(p =~= q);
    } else if q.len() == 0 {
        lemma_reach_last_step(nodes, p, t);
        assert(false);
    } else {
        lemma_reach_last_step(nodes, p, t);
        lemma_reach_last_step(nodes, q, t);
        let up = reach_from(nodes, 0, p.drop_last())->0;
        let uq = reach_from(nodes, 0, q.drop_last())->0;
        lemma_lookup_entry(nodes[up].children@, p.last());
        lemma_lookup_entry(nodes[uq].children@, q.last());
        let jp = choose|j: int|
            0 <= j < nodes[up].children@.len() && (#[trigger] nodes[up].children@[j]).0 == p.last()
                && nodes[up].children@[j].1 == lookup_edges(nodes[up].children@, p.last())->0;
        let jq = choose|j: int|
            0 <= j < nodes[uq].children@.len() && (#[trigger] nodes[uq].children@[j]).0 == q.last()
                && nodes[uq].children@[j].1 == lookup_edges(nodes[uq].children@, q.last())->0;
        assert(nodes[up].children@[jp].1 == nodes[uq].children@[jq].1);
        assert(up == uq && jp == jq);
        assert(p.last() == q.last());
        lemma_reach_unique(nodes, p.drop_last(), q.drop_last(), up);
        assert(p =~= p.drop_last().push(p.last()));
        assert(q =~= q.drop_last().push(q.last()));
    }
}

/// How one insertion step reshapes the arena: a fresh childless,
/// valueless node is appended and one new edge, labeled `c`, leads from
/// node `n` to it; everything else is untouched.
pub open spec fn is_extension(
    nodes0: Seq<TrieNode>,
    nodes1: Seq<TrieNode>,
    n: int,
    c: char,
) -> bool {
    &&& nodes1.len() == nodes0.len() + 1
    &&& (forall|i: int| 0 <= i < nodes0.len() && i != n ==> nodes1[i] == nodes0[i])
    &&& nodes1[n].children@.len() == nodes0[n].children@.len() + 1
    &&& (forall|j: int|
        0 <= j < nodes0[n].children@.len() ==> nodes1[n].children@[j] == nodes0[n].children@[j])
    &&& nodes1[n].children@.last().0 == c
    &&& nodes1[n].children@.last().1 as int == nodes0.len()
    &&& nodes1[n].value == nodes0[n].value
    &&& nodes1[nodes0.len() as int].children@.len() == 0
    &&& nodes1[nodes0.len() as int].value is None
}

/// Appending a fresh node and the edge to it keeps the arena
/// well-formed.
proof fn lemma_extend_wf(nodes0: Seq<TrieNode>, nodes1: Seq<TrieNode>, n: int, c: char)
    requires
        nodes_wf(nodes0),
        0 <= n < nodes0.len(),
        lookup_edges(nodes0[n].children@, c) is None,
        is_extension(nodes0, nodes1, n, c),
    ensures
        nodes_wf(nodes1),
{
    let len0 = nodes0.len() as int;
    let s = nodes0[n].children@;
    lemma_lookup_none_iff(s, c);
    assert forall|i: int, j: int|
        0 <= i < nodes1.len() && 0 <= j < nodes1[i].children@.len() implies i < (
    #[trigger] nodes1[i].children@[j]).1 < nodes1.len() by {
        if i == len0 {
        } else if i == n {
            if j < s.len() {
                assert(nodes1[n].children@[j] == s[j]);
                assert(n < s[j].1 < len0);
            } else {
                assert(nodes1[n].children@[j] == nodes1[n].children@.last());
            }
        } else {
            assert(nodes1[i] == nodes0[i]);
            assert(i < nodes0[i].children@[j].1 < len0);
        }
    }
    assert forall|i: int| 0 <= i < nodes1.len() implies chars_unique(
        #[trigger] nodes1[i].children@,
    ) by {
        if i == len0 {
        } else if i == n {
            assert forall|j1: int, j2: int|
                0 <= j1 < j2 < nodes1[n].children@.len() implies nodes1[n].children@[j1].0
                != nodes1[n].children@[j2].0 by {
                if j2 < s.len() {
                    assert(nodes1[n].children@[j1] == s[j1]);
                    assert(nodes1[n].children@[j2] == s[j2]);
                    assert(s[j1].0 != s[j2].0);
                } else {
                    assert(nodes1[n].children@[j1] == s[j1]);
                    assert(nodes1[n].children@[j2] == nodes1[n].children@.last());
                    assert(s[j1].0 != c);
                }
            }
        } else {
            assert(nodes1[i] == nodes0[i]);
            assert(chars_unique(nodes0[i].children@));
        }
    }
    assert forall|i1: int, j1: int, i2: int, j2: int|
        #![trigger nodes1[i1].children@[j1], nodes1[i2].children@[j2]]
        0 <= i1 < nodes1.len() && 0 <= j1 < nodes1[i1].children@.len() && 0 <= i2 < nodes1.len()
            && 0 <= j2 < nodes1[i2].children@.len() && nodes1[i1].children@[j1].1
            == nodes1[i2].children@[j2].1 implies i1 == i2 && j1 == j2 by {
        let fresh1 = i1 == n && j1 == s.len();
        let fresh2 = i2 == n && j2 == s.len();
        if i1 != n {
            assert(nodes1[i1] == nodes0[i1]);
        } else if j1 < s.len() {
            assert(nodes1[n].children@[j1] == s[j1]);
        } else {
            assert(nodes1[n].children@[j1] == nodes1[n].children@.last());
        }
        if i2 != n {
            assert(nodes1[i2] == nodes0[i2]);
        } else if j2 < s.len() {
            assert(nodes1[n].children@[j2] == s[j2]);
        } else {
            assert(nodes1[n].children@[j2] == nodes1[n].children@.last());
        }
        if fresh1 && fresh2 {
        } else if fresh1 {
            assert(nodes0[i2].children@[j2].1 < len0);
            assert(false);
        } else if fresh2 {
            assert(nodes0[i1].children@[j1].1 < len0);
            assert(false);
        } else {
            assert(nodes0[i1].children@[j1].1 == nodes0[i2].children@[j2].1);
        }
    }
}

/// Appending a fresh node and the edge to it changes what no lookup
/// observes: walks that used to succeed still reach the same node, and
/// every key still finds the same value (a walk diverted into the fresh
/// node finds an empty, valueless subtree).
proof fn lemma_extend(
    nodes0: Seq<TrieNode>,
    nodes1: Seq<TrieNode>,
    n: int,
    c: char,
    m: int,
    q: Seq<char>,
)
    requires
        nodes_wf(nodes0),
        0 <= n < nodes0.len(),
        lookup_edges(nodes0[n].children@, c) is None,
        is_extension(nodes0, nodes1, n, c),
        0 <= m < nodes0.len(),
    ensures
        value_search(nodes1, m, q) == value_search(nodes0, m, q),
        reach_from(nodes0, m, q) is Some ==> reach_from(nodes1, m, q) == reach_from(nodes0, m, q),
    decreases q.len(),
{
    let len0 = nodes0.len() as int;
    let s = nodes0[n].children@;
    if q.len() == 0 {
        if m != n {
            assert(nodes1[m] == nodes0[m]);
        }
    } else {
        let c0 = q[0];
        if m == n {
            assert(nodes1[n].children@.drop_last() =~= s);
            if c0 == c {
                let fresh = nodes1[n].children@.last().1;
                assert(lookup_edges(nodes1[n].children@, c0) == Some(fresh));
                assert(fresh as int == len0);
                let q1 = q.drop_first();
                assert(reach_from(nodes1, n, q) == reach_from(nodes1, len0, q1));
                if q1.len() == 0 {
                    assert(reach_from(nodes1, len0, q1) == Some(len0));
                } else {
                    assert(lookup_edges(nodes1[len0].children@, q1[0]) is None);
                    assert(reach_from(nodes1, len0, q1) is None);
                }
            } else {
                assert(lookup_edges(nodes1[n].children@, c0) == lookup_edges(s, c0));
                match lookup_edges(s, c0) {
                    Some(k) => {
                        lemma_lookup_in_range(nodes0, m, c0);
                        lemma_extend(nodes0, nodes1, n, c, k as int, q.drop_first());
                    },
                    None => {},
                }
            }
        } else {
            assert(nodes1[m] == nodes0[m]);
            match lookup_edges(nodes0[m].children@, c0) {
                Some(k) => {
                    lemma_lookup_in_range(nodes0, m, c0);
                    lemma_extend(nodes0, nodes1, n, c, k as int, q.drop_first());
                },
                None => {},
            }
        }
    }
}

/// How the final step of an insertion reshapes the arena: node `t` gets
/// value `v`; every edge, and every other node, is untouched.
pub open spec fn is_value_update(
    nodes0: Seq<TrieNode>,
    nodes1: Seq<TrieNode>,
    t: int,
    v: usize,
) -> bool {
    &&& nodes1.len() == nodes0.len()
    &&& (forall|i: int| 0 <= i < nodes0.len() && i != t ==> nodes1[i] == nodes0[i])
    &&& nodes1[t].children@ == nodes0[t].children@
    &&& nodes1[t].value == Some(v)
}

/// Overwriting one node's value moves no walk: every key still reaches
/// the same node, because no edge changed.
proof fn lemma_value_update_reach(
    nodes0: Seq<TrieNode>,
    nodes1: Seq<TrieNode>,
    t: int,
    v: usize,
    m: int,
    q: Seq<char>,
)
    requires
        edges_wf(nodes0),
        0 <= t < nodes0.len(),
        is_value_update(nodes0, nodes1, t, v),
        0 <= m < nodes0.len(),
    ensures
        reach_from(nodes1, m, q) == reach_from(nodes0, m, q),
    decreases q.len(),
{
    if q.len() > 0 {
        assert(nodes1[m].children@ == nodes0[m].children@);
        match lookup_edges(nodes0[m].children@, q[0]) {
            Some(k) => {
                lemma_lookup_in_range(nodes0, m, q[0]);
                lemma_value_update_reach(nodes0, nodes1, t, v, k as int, q.drop_first());
            },
            None => {},
        }
    }
}

/// Overwriting one node's value keeps the arena well-formed.
proof fn lemma_value_update_wf(nodes0: Seq<TrieNode>, nodes1: Seq<TrieNode>, t: int, v: usize)
    requires
        nodes_wf(nodes0),
        0 <= t < nodes0.len(),
        is_value_update(nodes0, nodes1, t, v),
    ensures
        nodes_wf(nodes1),
{
    assert forall|i: int| 0 <= i < nodes1.len() implies #[trigger] nodes1[i].children@
        == nodes0[i].children@ by {
        if i != t {
            assert(nodes1[i] == nodes0[i]);
        }
    }
    assert forall|i: int, j: int|
        0 <= i < nodes1.len() && 0 <= j < nodes1[i].children@.len() implies i < (
    #[trigger] nodes1[i].children@[j]).1 < nodes1.len() by {
        assert(nodes1[i].children@ == nodes0[i].children@);
        assert(i < nodes0[i].children@[j].1 < nodes0.len());
    }
    assert forall|i: int| 0 <= i < nodes1.len() implies chars_unique(
        #[trigger] nodes1[i].children@,
    ) by {
        assert(nodes1[i].children@ == nodes0[i].children@);
        assert(chars_unique(nodes0[i].children@));
    }
    assert forall|i1: int, j1: int, i2: int, j2: int|
        #![trigger nodes1[i1].children@[j1], nodes1[i2].children@[j2]]
        0 <= i1 < nodes1.len() && 0 <= j1 < nodes1[i1].children@.len() && 0 <= i2 < nodes1.len()
            && 0 <= j2 < nodes1[i2].children@.len() && nodes1[i1].children@[j1].1
            == nodes1[i2].children@[j2].1 implies i1 == i2 && j1 == j2 by {
        assert(nodes1[i1].children@ == nodes0[i1].children@);
        assert(nodes1[i2].children@ == nodes0[i2].children@);
        assert(nodes0[i1].children@[j1].1 == nodes0[i2].children@[j2].1);
    }
}

/// Scan an edge list for the entry labeled `c`.
fn find_edge(edges: &Vec<(char, usize)>, c: char) -> (r: Option<usize>)
    requires
        chars_unique(edges@),
    ensures
        r == lookup_edges(edges@, c),
{
    let mut j: usize = 0;
    while j < edges.len()
        invariant
            chars_unique(edges@),
            j <= edges@.len(),
            forall|t: int| 0 <= t < j ==> edges@[t].0 != c,
        decreases edges@.len() - j,
    {
        if edges[j].0 == c {
            proof {
                lemma_lookup_unique_found(edges@, c, j as int);
            }
            return Some(edges[j].1);
        }
        j = j + 1;
    }
    proof {
        lemma_lookup_none_iff(edges@, c);
    }
    None
}

impl SuccinctTrie {
    /// Well-formedness: the root exists, the arena is a tree with
    /// forward-pointing duplicate-free edges, and the per-node creation
    /// log has one entry per node.
    pub open spec fn wf(self) -> bool {
        &&& self.nodes@.len() >= 1
        &&& nodes_wf(self.nodes@)
        &&& self.prefixes@.len() == self.nodes@.len()
        &&& (forall|i: int|
            0 <= i < self.prefixes@.len() ==> #[trigger] self.prefixes@[i]
                <= self.suffixes@.len())
    }

    /// What a lookup of `key` observes on this trie.
    pub open spec fn spec_search(self, key: Seq<char>) -> Option<usize> {
        value_search(self.nodes@, 0, key)
    }

    /// The abstract content of the trie: the partial map from keys to
    /// stored values that lookups observe.
    pub open spec fn model(self) -> Map<Seq<char>, usize> {
        Map::new(
            |k: Seq<char>| self.spec_search(k) is Some,
            |k: Seq<char>| self.spec_search(k)->0,
        )
    }

    /// An empty trie: only the root, which has no children and no value,
    /// an empty character log, and the root's creation offset.
    pub fn new() -> (r: Self)
        ensures
            r.wf(),
            forall|q: Seq<char>| r.spec_search(q) == None::<usize>,
            r.model() == Map::<Seq<char>, usize>::empty(),
            r.nodes@.len() == 1,
            r.suffixes@ == Seq::<char>::empty(),
            r.prefixes@ == seq![0usize],
    {
        let mut nodes: Vec<TrieNode> = Vec::new();
        nodes.push(TrieNode { children: Vec::new(), value: None });
        let mut prefixes: Vec<usize> = Vec::new();
        prefixes.push(0);
        let r = SuccinctTrie { nodes, prefixes, suffixes: Vec::new() };
        proof {
            assert forall|q: Seq<char>| r.spec_search(q) == None::<usize> by {
                if q.len() != 0 {
                    assert(lookup_edges(r.nodes@[0].children@, q[0]) is None);
                }
            }
            assert(r.model() =~= Map::<Seq<char>, usize>::empty());
            assert(r.prefixes@ =~= seq![0usize]);
        }
        r
    }

    /// Walk the key from the root, creating a fresh node and edge for
    /// each character that has none, then set the reached node's value
    /// to `value`, overwriting any prior value. Every processed
    /// character is appended to the character log, and every created
    /// node records the log length of its creation moment. Accepts any
    /// key and any value; the arena only grows. The model gains exactly
    /// the binding `key@ -> value`: no other key's observable value
    /// moves.
    pub fn insert(&mut self, key: &str, value: usize)
        requires
            old(self).wf(),
        ensures
            final(self).wf(),
            forall|q: Seq<char>|
                final(self).spec_search(q) == (if q == key@ {
                    Some(value)
                } else {
                    old(self).spec_search(q)
                }),
            final(self).model() == old(self).model().insert(key@, value),
            final(self).suffixes@ == old(self).suffixes@ + key@,
            final(self).nodes@.len() >= old(self).nodes@.len(),
            old(self).prefixes@.is_prefix_of(final(self).prefixes@),
    {
        let klen = key.unicode_len();
        let mut i: usize = 0;
        let mut node_id: usize = 0;
        proof {
            assert(key@.take(0) =~= Seq::<char>::empty());
            assert(old(self).suffixes@ + key@.take(0) =~= old(self).suffixes@);
        }
        while i < klen
            invariant
                self.wf(),
                klen == key@.len(),
                i <= klen,
                node_id < self.nodes@.len(),
                reach_from(self.nodes@, 0, key@.take(i as int)) == Some(node_id as int),
                forall|q: Seq<char>|
                    value_search(self.nodes@, 0, q) == old(self).spec_search(q),
                self.suffixes@ == old(self).suffixes@ + key@.take(i as int),
                self.nodes@.len() >= old(self).nodes@.len(),
                old(self).prefixes@.is_prefix_of(self.prefixes@),
            decreases klen - i,
        {
            let c = key.get_char(i);
            let next_id: usize;
            match find_edge(&self.nodes[node_id].children, c) {
                Some(k) => {
                    proof {
                        lemma_lookup_in_range(self.nodes@, node_id as int, c);
                    }
                    next_id = k;
                },
                None => {
                    let ghost nodes0 = self.nodes@;
                    let new_id = self.nodes.len();
                    self.nodes.push(TrieNode { children: Vec::new(), value: None });
                    self.prefixes.push(self.suffixes.len());
                    let node = &mut self.nodes[node_id];
                    node.children.push((c, new_id));
                    proof {
                        let nodes1 = self.nodes@;
                        assert(is_extension(nodes0, nodes1, node_id as int, c));
                        lemma_extend_wf(nodes0, nodes1, node_id as int, c);
                        assert forall|q: Seq<char>|
                            value_search(nodes1, 0, q) == old(self).spec_search(q) by {
                            lemma_extend(nodes0, nodes1, node_id as int, c, 0, q);
                        }
                        lemma_extend(nodes0, nodes1, node_id as int, c, 0, key@.take(i as int));
                        assert(nodes1[node_id as int].children@.drop_last() =~= nodes0[node_id
                            as int].children@);
                        assert(lookup_edges(nodes1[node_id as int].children@, c) == Some(new_id));
                        assert(old(self).prefixes@ =~= self.prefixes@.subrange(
                            0,
                            old(self).prefixes@.len() as int,
                        ));
                    }
                    next_id = new_id;
                },
            }
            self.suffixes.push(c);
            proof {
                assert(lookup_edges(self.nodes@[node_id as int].children@, c) == Some(next_id));
                lemma_reach_concat(self.nodes@, 0, key@.take(i as int), seq![c]);
                assert(seq![c][0] == c);
                assert(seq![c].drop_first() =~= Seq::<char>::empty());
                assert(reach_from(self.nodes@, next_id as int, seq![c].drop_first()) == Some(
                    next_id as int,
                ));
                assert(key@.take(i as int) + seq![c] =~= key@.take(i as int + 1));
                assert(reach_from(self.nodes@, 0, key@.take(i as int + 1)) == Some(
                    next_id as int,
                ));
                assert(self.suffixes@ =~= old(self).suffixes@ + key@.take(i as int + 1));
            }
            node_id = next_id;
            i = i + 1;
        }
        proof {
            assert(key@.take(klen as int) =~= key@);
        }
        let ghost pre_nodes = self.nodes@;
        let ghost t = node_id as int;
        let node = &mut self.nodes[node_id];
        node.value = Some(value);
        proof {
            let cur = self.nodes@;
            assert(is_value_update(pre_nodes, cur, t, value));
            lemma_value_update_wf(pre_nodes, cur, t, value);
            assert forall|q: Seq<char>|
                value_search(cur, 0, q) == (if q == key@ {
                    Some(value)
                } else {
                    old(self).spec_search(q)
                }) by {
                lemma_value_update_reach(pre_nodes, cur, t, value, 0, q);
                if q == key@ {
                    assert(reach_from(cur, 0, q) == Some(t));
                } else {
                    match reach_from(pre_nodes, 0, q) {
                        Some(u) => {
                            lemma_reach_valid(pre_nodes, 0, q);
                            if u == t {
                                lemma_reach_unique(pre_nodes, q, key@, t);
                                assert(false);
                            }
                            assert(cur[u].value == pre_nodes[u].value);
                        },
                        None => {},
                    }
                }
            }
            assert_maps_equal!(self.model(), old(self).model().insert(key@, value), q => {});
        }
    }

    /// Walk the key from the root and return the value at the node the
    /// whole key reaches; return `None` as soon as a character has no
    /// edge. Read-only: no field is mutated.
    pub fn search(&self, key: &str) -> (r: Option<usize>)
        requires
            self.wf(),
        ensures
            r == self.spec_search(key@),
            r == search_result(self.model(), key@),
    {
        let klen = key.unicode_len();
        let mut i: usize = 0;
        let mut node_id: usize = 0;
        proof {
            assert(key@.skip(0) =~= key@);
        }
        while i < klen
            invariant
                self.wf(),
                klen == key@.len(),
                i <= klen,
                node_id < self.nodes@.len(),
                reach_from(self.nodes@, node_id as int, key@.skip(i as int)) == reach_from(
                    self.nodes@,
                    0,
                    key@,
                ),
            decreases klen - i,
        {
            let c = key.get_char(i);
            let ghost rest = key@.skip(i as int);
            proof {
                assert(rest[0] == key@[i as int]);
                assert(rest.drop_first() =~= key@.skip(i as int + 1));
            }
            match find_edge(&self.nodes[node_id].children, c) {
                Some(k) => {
                    proof {
                        lemma_lookup_in_range(self.nodes@, node_id as int, c);
                    }
                    node_id = k;
                },
                None => {
                    return None;
                },
            }
            i = i + 1;
        }
        proof {
            assert(key@.skip(klen as int) =~= Seq::<char>::empty());
        }
        self.nodes[node_id].value
    }
}

/// A worked example: three keys go in, each is found with its value, a
/// key never inserted is absent, and a later insertion is found too.
/// Every check is a proved assertion, discharged from the contracts of
/// `new`, `insert` and `search` alone.
pub fn test_succinct_trie() {
    let mut trie = SuccinctTrie::new();

    trie.insert("apple", 0);
    trie.insert("banana", 1);
    trie.insert("cherry", 2);

    proof {
        reveal_strlit("apple");
        reveal_strlit("banana");
        reveal_strlit("cherry");
        reveal_strlit("durian");
        assert("apple"@ != "banana"@);
        assert("apple"@ != "cherry"@);
        assert("banana"@ != "cherry"@) by {
            assert("banana"@[0] != "cherry"@[0]);
        }
        assert("durian"@ != "apple"@);
        assert("durian"@ != "banana"@) by {
            assert("durian"@[0] != "banana"@[0]);
        }
        assert("durian"@ != "cherry"@) by {
            assert("durian"@[0] != "cherry"@[0]);
        }
    }

    let r_apple = trie.search("apple");
    assert(r_apple == Some(0usize));
    let r_banana = trie.search("banana");
    assert(r_banana == Some(1usize));
    let r_cherry = trie.search("cherry");
    assert(r_cherry == Some(2usize));
    let r_durian = trie.search("durian");
    assert(r_durian == None::<usize>);

    trie.insert("cranberry", 3);

    proof {
        reveal_strlit("cranberry");
        assert("cranberry"@ != "apple"@);
        assert("cranberry"@ != "banana"@);
        assert("cranberry"@ != "cherry"@);
    }

    let r_cranberry = trie.search("cranberry");
    assert(r_cranberry == Some(3usize));
}

} // verus!
