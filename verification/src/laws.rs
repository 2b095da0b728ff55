use vstd::prelude::*;

use crate::trie::search_result;
use crate::trie::SuccinctTrie;
use vstd::map::*;

verus! {

/// Insert-then-search: after `insert(k, v)` — whose contract says the
/// new model is the old one with `k` bound to `v` — a search for `k`
/// observes `v`.
pub proof fn lemma_insert_then_search(pre: SuccinctTrie, post: SuccinctTrie, k: Seq<char>, v: usize)
    requires
        post.model() == pre.model().insert(k, v),
    ensures
        search_result(post.model(), k) == Some(v),
{
}

/// Overwrite: after `insert(k, v1)` then `insert(k, v2)`, a search for
/// `k` observes `v2`; when the two values differ it never observes `v1`.
pub proof fn lemma_overwrite(
    pre: SuccinctTrie,
    mid: SuccinctTrie,
    post: SuccinctTrie,
    k: Seq<char>,
    v1: usize,
    v2: usize,
)
    requires
        mid.model() == pre.model().insert(k, v1),
        post.model() == mid.model().insert(k, v2),
    ensures
        search_result(post.model(), k) == Some(v2),
        v1 != v2 ==> search_result(post.model(), k) != Some(v1),
{
}

/// Inserting `k` moves no other key: every key other than `k` is
/// observed exactly as before the insertion.
pub proof fn lemma_insert_frame(
    pre: SuccinctTrie,
    post: SuccinctTrie,
    k: Seq<char>,
    v: usize,
    q: Seq<char>,
)
    requires
        post.model() == pre.model().insert(k, v),
        q != k,
    ensures
        search_result(post.model(), q) == search_result(pre.model(), q),
{
}

/// Prefix non-leakage: inserting `k` puts no value on a strict prefix
/// `p` of `k` that never itself carried one — searching `p` still
/// observes nothing.
pub proof fn lemma_prefix_non_leakage(
    pre: SuccinctTrie,
    post: SuccinctTrie,
    k: Seq<char>,
    v: usize,
    p: Seq<char>,
)
    requires
        post.model() == pre.model().insert(k, v),
        p.len() < k.len(),
        p == k.take(p.len() as int),
        search_result(pre.model(), p) == None::<usize>,
    ensures
        search_result(post.model(), p) == None::<usize>,
{
    assert(p != k);
}

/// The abstract effect of a sequence of `insert` calls, applied in order
/// to the model `m`: each entry `(k, v)` of `entries` updates the map at
/// `k`. By the contract of `SuccinctTrie::insert`, running the calls of
/// `entries` on a trie whose model is `m` leaves a trie whose model is
/// `run_inserts(m, entries)`.
pub open spec fn run_inserts(
    m: Map<Seq<char>, usize>,
    entries: Seq<(Seq<char>, usize)>,
) -> Map<Seq<char>, usize>
    decreases entries.len(),
{
    if entries.len() == 0 {
        m
    } else {
        run_inserts(m.insert(entries[0].0, entries[0].1), entries.drop_first())
    }
}

/// The value of the last entry of `entries` whose key is `k`, if any.
pub open spec fn last_value_of(entries: Seq<(Seq<char>, usize)>, k: Seq<char>) -> Option<usize>
    decreases entries.len(),
{
    if entries.len() == 0 {
        None
    } else if entries.last().0 == k {
        Some(entries.last().1)
    } else {
        last_value_of(entries.drop_last(), k)
    }
}

/// Peeling `last_value_of` from the front instead of the back: the first
/// entry only matters when no later entry carries the same key.
proof fn lemma_last_value_front(entries: Seq<(Seq<char>, usize)>, k: Seq<char>)
    requires
        entries.len() > 0,
    ensures
        last_value_of(entries, k) == (match last_value_of(entries.drop_first(), k) {
            Some(v) => Some(v),
            None => if entries[0].0 == k {
                Some(entries[0].1)
            } else {
                None
            },
        }),
    decreases entries.len(),
{
    if entries.len() == 1 {
        assert(entries.drop_first() =~= Seq::<(Seq<char>, usize)>::empty());
        assert(entries.last() == entries[0]);
    } else {
        assert(entries.drop_first().last() == entries.last());
        if entries.last().0 != k {
            assert(entries.drop_first().drop_last() =~= entries.drop_last().drop_first());
            assert(entries.drop_last()[0] == entries[0]);
            lemma_last_value_front(entries.drop_last(), k);
        }
    }
}

/// After any sequence of insertions, what a search observes at key `k`
/// is decided by the last insertion of `k` alone; keys never inserted
/// keep whatever the starting map `m` said of them. This is the heart of
/// order independence: the observable mapping depends only on each key's
/// last inserted value.
pub proof fn lemma_run_inserts_characterizes(
    m: Map<Seq<char>, usize>,
    entries: Seq<(Seq<char>, usize)>,
    k: Seq<char>,
)
    ensures
        search_result(run_inserts(m, entries), k) == (match last_value_of(entries, k) {
            Some(v) => Some(v),
            None => search_result(m, k),
        }),
    decreases entries.len(),
{
    if entries.len() > 0 {
        lemma_run_inserts_characterizes(m.insert(entries[0].0, entries[0].1), entries.drop_first(), k);
        lemma_last_value_front(entries, k);
    }
}

/// Order independence: two insertion sequences that agree on each key's
/// last inserted value leave models under which every search observes
/// the same thing, whatever the insertion order was.
pub proof fn lemma_order_independence(
    entries1: Seq<(Seq<char>, usize)>,
    entries2: Seq<(Seq<char>, usize)>,
)
    requires
        forall|k: Seq<char>| last_value_of(entries1, k) == last_value_of(entries2, k),
    ensures
        run_inserts(Map::<Seq<char>, usize>::empty(), entries1) == run_inserts(
            Map::<Seq<char>, usize>::empty(),
            entries2,
        ),
{
    let m1 = run_inserts(Map::<Seq<char>, usize>::empty(), entries1);
    let m2 = run_inserts(Map::<Seq<char>, usize>::empty(), entries2);
    assert_maps_equal!(m1, m2, k => {
        lemma_run_inserts_characterizes(Map::<Seq<char>, usize>::empty(), entries1, k);
        lemma_run_inserts_characterizes(Map::<Seq<char>, usize>::empty(), entries2, k);
    });
}

/// Absence: a key that no insertion ever carried is observed as absent
/// after the whole sequence runs on an empty trie.
pub proof fn lemma_absence(entries: Seq<(Seq<char>, usize)>, k: Seq<char>)
    requires
        last_value_of(entries, k) is None,
    ensures
        search_result(run_inserts(Map::<Seq<char>, usize>::empty(), entries), k)
            == None::<usize>,
{
    lemma_run_inserts_characterizes(Map::<Seq<char>, usize>::empty(), entries, k);
}

/// Empty-key behavior: searching the empty key observes no value unless
/// the empty key was inserted, in which case it observes the most
/// recently inserted value for it.
pub proof fn lemma_empty_key(entries: Seq<(Seq<char>, usize)>)
    ensures
        search_result(run_inserts(Map::<Seq<char>, usize>::empty(), entries), Seq::<char>::empty())
            == last_value_of(entries, Seq::<char>::empty()),
{
    lemma_run_inserts_characterizes(
        Map::<Seq<char>, usize>::empty(),
        entries,
        Seq::<char>::empty(),
    );
}

} // verus!
