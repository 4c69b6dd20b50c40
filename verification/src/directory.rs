//! The directory of subscribed and serving clients, organised by topic.
//!
//! The directory is a tree of topic fragments. Each node, addressed by the path
//! of fragments that leads to it, may have an owner (the client that serves the
//! topic) and a set of subscribed clients. Nodes are created on the way down by
//! `subscribe` and `claim` and are never removed, so the set of node paths is
//! closed under taking prefixes.
use vstd::prelude::*;
use crate::err::{BusError, BusResult};
use crate::topic::{
    TopicPath,
    strings_view,
    is_wildcard,
    is_valid_fragment,
    join_topic,
    join_topic_exec,
    lemma_join_injective,
};
use crate::matching::{
    lemma_matches_itself,
    lemma_matches_word_topic,
    is_word_topic,
    pattern_matches,
    subscription_matches,
    subscription_matches_exec,
    is_wildcard_exec,
    is_double_wildcard_exec,
};

verus! {

/// What the directory holds at one topic path.
pub struct NodeView {
    pub owner: Option<u32>,
    pub subscribers: Set<u32>,
}

/// A node that was created on the way to another and holds nothing yet.
pub open spec fn empty_node() -> NodeView {
    NodeView { owner: None, subscribers: Set::empty() }
}

/// The directory after creating, where missing, the nodes for the first
/// `n` non-empty prefixes of `t`.
pub open spec fn add_prefixes(m: Map<TopicPath, NodeView>, t: TopicPath, n: nat) -> Map<
    TopicPath,
    NodeView,
>
    decreases n,
{
    if n == 0 {
        m
    } else {
        let m1 = add_prefixes(m, t, (n - 1) as nat);
        if m1.dom().contains(t.take(n as int)) {
            m1
        } else {
            m1.insert(t.take(n as int), empty_node())
        }
    }
}

/// The number of fragments of `t` before its first wildcard.
pub open spec fn leading_words(t: TopicPath) -> nat
    decreases t.len(),
{
    if t.len() == 0 {
        0
    } else if is_wildcard(t[0]) {
        0
    } else {
        1 + leading_words(t.drop_first())
    }
}

pub open spec fn has_wildcard(t: TopicPath) -> bool {
    exists|i: int| 0 <= i < t.len() && is_wildcard(#[trigger] t[i])
}

/// Every prefix of a stored path is stored.
pub open spec fn prefix_closed(m: Map<TopicPath, NodeView>) -> bool {
    forall|p: TopicPath, k: int|
        m.dom().contains(p) && 0 <= k <= p.len() ==> #[trigger] m.dom().contains(#[trigger] p.take(k))
}

/// Unclaiming `t` fails when the walk down the tree meets a wildcard fragment
/// before it meets a missing node.
pub open spec fn unclaim_blocked(m: Map<TopicPath, NodeView>, t: TopicPath) -> bool {
    exists|i: int|
        0 <= i < t.len() && is_wildcard(#[trigger] t[i]) && forall|j: int|
            0 <= j < i ==> m.dom().contains(#[trigger] t.take(j + 1))
}

/// The clients subscribed on some topic that the published topic `t` reaches.
pub open spec fn matching_subscribers(m: Map<TopicPath, NodeView>, t: TopicPath) -> Set<u32> {
    Set::new(
        |c: u32|
            exists|p: TopicPath|
                #![trigger m[p].subscribers.contains(c)]
                m.dom().contains(p) && m[p].subscribers.contains(c) && subscription_matches(p, t),
    )
}

/// The stored paths whose only subscriber is `client`.
pub open spec fn sole_subscriber_paths(m: Map<TopicPath, NodeView>, client: u32) -> Set<TopicPath> {
    Set::new(|p: TopicPath| m.dom().contains(p) && m[p].subscribers == set![client])
}

/// The topics, fragments joined with `/`, whose only subscriber is `client`.
pub open spec fn sole_subscriber_topics(m: Map<TopicPath, NodeView>, client: u32) -> Set<Seq<char>> {
    sole_subscriber_paths(m, client).map(|p: TopicPath| join_topic(p))
}

/// Every stored path is made of valid fragments, as the paths of parsed topics are.
pub open spec fn valid_paths(m: Map<TopicPath, NodeView>) -> bool {
    forall|p: TopicPath, i: int|
        #![trigger m.dom().contains(p), p[i]]
        m.dom().contains(p) && 0 <= i < p.len() ==> is_valid_fragment(p[i])
}

/// A node after `client` has left the bus.
pub open spec fn without_client(n: NodeView, client: u32) -> NodeView {
    NodeView {
        owner: if n.owner == Some(client) {
            None
        } else {
            n.owner
        },
        subscribers: n.subscribers.remove(client),
    }
}

/// The directory after `subscribe(client, t)`.
pub open spec fn after_subscribe(m: Map<TopicPath, NodeView>, client: u32, t: TopicPath) -> Map<
    TopicPath,
    NodeView,
> {
    let m1 = add_prefixes(m, t, t.len());
    m1.insert(t, NodeView { owner: m1[t].owner, subscribers: m1[t].subscribers.insert(client) })
}

/// The directory after `unsubscribe(client, t)`.
pub open spec fn after_unsubscribe(m: Map<TopicPath, NodeView>, client: u32, t: TopicPath) -> Map<
    TopicPath,
    NodeView,
> {
    if m.dom().contains(t) {
        m.insert(t, NodeView { owner: m[t].owner, subscribers: m[t].subscribers.remove(client) })
    } else {
        m
    }
}

/// The directory, and the result, after `claim(client, t)`.
pub open spec fn after_claim(m: Map<TopicPath, NodeView>, client: u32, t: TopicPath) -> (Map<
    TopicPath,
    NodeView,
>, BusResult<()>) {
    let w = leading_words(t);
    let m1 = add_prefixes(m, t, t.len());
    if w < t.len() {
        (add_prefixes(m, t, w), Err(BusError::ClaimWildcardNotSupported))
    } else if m1[t].owner is Some && m1[t].owner != Some(client) {
        (m1, Err(BusError::TopicAlreadyClaimed))
    } else {
        (m1.insert(t, NodeView { owner: Some(client), subscribers: m1[t].subscribers }), Ok(()))
    }
}

/// The directory after `unclaim(client, t)`.
pub open spec fn after_unclaim(m: Map<TopicPath, NodeView>, client: u32, t: TopicPath) -> Map<
    TopicPath,
    NodeView,
> {
    if !unclaim_blocked(m, t) && m.dom().contains(t) && m[t].owner == Some(client) {
        m.insert(t, NodeView { owner: None, subscribers: m[t].subscribers })
    } else {
        m
    }
}

/// What `get_owner(t)` returns.
pub open spec fn owner_of(m: Map<TopicPath, NodeView>, t: TopicPath) -> Option<u32> {
    if !has_wildcard(t) && m.dom().contains(t) {
        m[t].owner
    } else {
        None
    }
}

/// The directory after `drop_client(client)`.
pub open spec fn after_drop_client(m: Map<TopicPath, NodeView>, client: u32) -> Map<
    TopicPath,
    NodeView,
> {
    m.map_values(|n: NodeView| without_client(n, client))
}

struct DirNode {
    path: Vec<String>,
    owner: Option<u32>,
    subscribers: Vec<u32>,
}

/// The subscription and ownership directory.
pub struct Directory {
    nodes: Vec<DirNode>,
}

spec fn node_path(ns: Seq<DirNode>, i: int) -> TopicPath {
    strings_view(ns[i].path@)
}

spec fn node_view(n: DirNode) -> NodeView {
    NodeView { owner: n.owner, subscribers: n.subscribers@.to_set() }
}

spec fn has_path(ns: Seq<DirNode>, p: TopicPath) -> bool {
    exists|i: int| 0 <= i < ns.len() && #[trigger] node_path(ns, i) == p
}

spec fn index_of_path(ns: Seq<DirNode>, p: TopicPath) -> int {
    choose|i: int| 0 <= i < ns.len() && #[trigger] node_path(ns, i) == p
}

spec fn nodes_map(ns: Seq<DirNode>) -> Map<TopicPath, NodeView> {
    Map::new(|p: TopicPath| has_path(ns, p), |p: TopicPath| node_view(ns[index_of_path(ns, p)]))
}

spec fn distinct_paths(ns: Seq<DirNode>) -> bool {
    forall|i: int, j: int|
        0 <= i < ns.len() && 0 <= j < ns.len() && i != j ==> node_path(ns, i) != node_path(ns, j)
}

proof fn lemma_view_at(ns: Seq<DirNode>, i: int)
    requires
        distinct_paths(ns),
        0 <= i < ns.len(),
    ensures
        nodes_map(ns).dom().contains(node_path(ns, i)),
        nodes_map(ns)[node_path(ns, i)] == node_view(ns[i]),
{
    let p = node_path(ns, i);
    assert(has_path(ns, p));
    let j = index_of_path(ns, p);
    assert(node_path(ns, j) == p);
}

proof fn lemma_push(ns: Seq<DirNode>, n: DirNode)
    requires
        distinct_paths(ns),
        !has_path(ns, strings_view(n.path@)),
    ensures
        distinct_paths(ns.push(n)),
        nodes_map(ns.push(n)) == nodes_map(ns).insert(strings_view(n.path@), node_view(n)),
{
    let ns2 = ns.push(n);
    let p = strings_view(n.path@);
    assert forall|i: int| 0 <= i < ns.len() implies #[trigger] node_path(ns2, i) == node_path(ns, i) by {
    }
    assert(node_path(ns2, ns.len() as int) == p);
    assert forall|i: int, j: int|
        0 <= i < ns2.len() && 0 <= j < ns2.len() && i != j implies node_path(ns2, i) != node_path(
        ns2,
        j,
    ) by {
        if i < ns.len() && j < ns.len() {
        } else if i < ns.len() {
            assert(node_path(ns, i) != p);
        } else {
            assert(node_path(ns, j) != p);
        }
    }
    let m1 = nodes_map(ns2);
    let m2 = nodes_map(ns).insert(p, node_view(n));
    assert forall|q: TopicPath| m1.dom().contains(q) <==> m2.dom().contains(q) by {
        if m1.dom().contains(q) {
            let i = index_of_path(ns2, q);
            if i < ns.len() {
                assert(node_path(ns, i) == q);
                assert(has_path(ns, q));
            }
        }
        if m2.dom().contains(q) {
            if q == p {
                assert(node_path(ns2, ns.len() as int) == q);
            } else {
                let i = index_of_path(ns, q);
                assert(node_path(ns2, i) == q);
            }
        }
    }
    assert forall|q: TopicPath| m1.dom().contains(q) implies m1[q] == m2[q] by {
        let i = index_of_path(ns2, q);
        lemma_view_at(ns2, i);
        if i < ns.len() {
            lemma_view_at(ns, i);
        }
    }
    assert(m1 =~= m2);
}

proof fn lemma_update(ns: Seq<DirNode>, i: int, n: DirNode)
    requires
        distinct_paths(ns),
        0 <= i < ns.len(),
        strings_view(n.path@) == node_path(ns, i),
    ensures
        distinct_paths(ns.update(i, n)),
        nodes_map(ns.update(i, n)) == nodes_map(ns).insert(node_path(ns, i), node_view(n)),
{
    let ns2 = ns.update(i, n);
    let p = node_path(ns, i);
    assert forall|j: int| 0 <= j < ns.len() implies #[trigger] node_path(ns2, j) == node_path(ns, j) by {
    }
    let m1 = nodes_map(ns2);
    let m2 = nodes_map(ns).insert(p, node_view(n));
    assert forall|q: TopicPath| m1.dom().contains(q) <==> m2.dom().contains(q) by {
        if m1.dom().contains(q) {
            let j = index_of_path(ns2, q);
            assert(node_path(ns, j) == q);
        }
        if m2.dom().contains(q) {
            if q == p {
                assert(node_path(ns2, i) == q);
            } else {
                let j = index_of_path(ns, q);
                assert(node_path(ns2, j) == q);
            }
        }
    }
    assert forall|q: TopicPath| m1.dom().contains(q) implies m1[q] == m2[q] by {
        let j = index_of_path(ns2, q);
        lemma_view_at(ns2, j);
        if j != i {
            lemma_view_at(ns, j);
        }
    }
    assert(m1 =~= m2);
}

proof fn lemma_no_dup_remove(s: Seq<u32>, j: int)
    requires
        s.no_duplicates(),
        0 <= j < s.len(),
    ensures
        s.remove(j).no_duplicates(),
        s.remove(j).to_set() == s.to_set().remove(s[j]),
{
    let r = s.remove(j);
    assert forall|a: int, b: int| 0 <= a < r.len() && 0 <= b < r.len() && a != b implies r[a] != r[b] by {
        let a2 = if a < j { a } else { a + 1 };
        let b2 = if b < j { b } else { b + 1 };
        assert(r[a] == s[a2]);
        assert(r[b] == s[b2]);
    }
    assert forall|x: u32| r.to_set().contains(x) <==> s.to_set().remove(s[j]).contains(x) by {
        if r.to_set().contains(x) {
            let k = choose|k: int| 0 <= k < r.len() && r[k] == x;
            let k2 = if k < j { k } else { k + 1 };
            assert(s[k2] == x);
        }
        if s.to_set().remove(s[j]).contains(x) {
            let k = choose|k: int| 0 <= k < s.len() && s[k] == x;
            assert(k != j);
            let k2 = if k < j { k } else { k - 1 };
            assert(r[k2] == x);
        }
    }
    assert(r.to_set() =~= s.to_set().remove(s[j]));
}

impl View for Directory {
    type V = Map<TopicPath, NodeView>;

    closed spec fn view(&self) -> Map<TopicPath, NodeView> {
        nodes_map(self.nodes@)
    }
}

fn paths_equal(a: &[String], b: &[String]) -> (r: bool)
    ensures
        r == (strings_view(a@) == strings_view(b@)),
{
    if a.len() != b.len() {
        assert(strings_view(a@).len() != strings_view(b@).len());
        return false;
    }
    let mut i: usize = 0;
    while i < a.len()
        invariant
            a@.len() == b@.len(),
            i <= a@.len(),
            forall|j: int| 0 <= j < i ==> a@[j]@ == b@[j]@,
        decreases a@.len() - i,
    {
        if a[i] != b[i] {
            assert(strings_view(a@)[i as int] != strings_view(b@)[i as int]);
            return false;
        }
        i = i + 1;
    }
    assert(strings_view(a@) =~= strings_view(b@));
    true
}

fn clone_strings(v: &[String]) -> (r: Vec<String>)
    ensures
        r@ == v@,
{
    let mut r: Vec<String> = Vec::new();
    let mut i: usize = 0;
    while i < v.len()
        invariant
            i <= v@.len(),
            r@ == v@.subrange(0, i as int),
        decreases v@.len() - i,
    {
        r.push(v[i].clone());
        i = i + 1;
        assert(r@ =~= v@.subrange(0, i as int));
    }
    assert(r@ =~= v@);
    r
}

fn vec_contains(v: &Vec<u32>, x: u32) -> (r: Option<usize>)
    ensures
        r matches Some(j) ==> j < v@.len() && v@[j as int] == x,
        r is None ==> !v@.contains(x),
{
    let mut i: usize = 0;
    while i < v.len()
        invariant
            i <= v@.len(),
            forall|j: int| 0 <= j < i ==> v@[j] != x,
        decreases v@.len() - i,
    {
        if v[i] == x {
            return Some(i);
        }
        i = i + 1;
    }
    None
}

impl Directory {
    /// The directory's internal consistency: the root node is first, node paths
    /// are distinct, no client is listed twice at a node, and stored paths are
    /// closed under prefixes.
    pub closed spec fn wf(self) -> bool {
        &&& self.nodes@.len() > 0
        &&& self.nodes@[0].path@.len() == 0
        &&& distinct_paths(self.nodes@)
        &&& forall|i: int|
            0 <= i < self.nodes@.len() ==> (#[trigger] self.nodes@[i]).subscribers@.no_duplicates()
        &&& prefix_closed(nodes_map(self.nodes@))
    }

    /// An empty directory: only the root node, with no owner and no subscribers.
    pub fn new() -> (d: Directory)
        ensures
            d.wf(),
            d@ == map![Seq::<Seq<char>>::empty() => empty_node()],
    {
        let root = DirNode { path: Vec::new(), owner: None, subscribers: Vec::new() };
        let mut nodes: Vec<DirNode> = Vec::new();
        nodes.push(root);
        let d = Directory { nodes };
        proof {
            let ns = d.nodes@;
            assert(node_path(ns, 0) =~= Seq::<Seq<char>>::empty());
            lemma_view_at(ns, 0);
            assert(root.subscribers@.to_set() =~= Set::<u32>::empty());
            let m = nodes_map(ns);
            assert forall|q: TopicPath| m.dom().contains(q) <==> q == Seq::<Seq<char>>::empty() by {
                if m.dom().contains(q) {
                    let i = index_of_path(ns, q);
                    assert(i == 0);
                }
            }
            assert(m =~= map![Seq::<Seq<char>>::empty() => empty_node()]);
            assert forall|p: TopicPath, k: int|
                m.dom().contains(p) && 0 <= k <= p.len() implies #[trigger] m.dom().contains(
                #[trigger] p.take(k),
            ) by {
                assert(p.take(k) =~= Seq::<Seq<char>>::empty());
            }
        }
        d
    }

    fn find(&self, path: &[String]) -> (r: Option<usize>)
        requires
            self.wf(),
        ensures
            r matches Some(i) ==> i < self.nodes@.len() && node_path(self.nodes@, i as int)
                == strings_view(path@),
            r is None ==> !has_path(self.nodes@, strings_view(path@)),
            r is Some <==> self@.dom().contains(strings_view(path@)),
    {
        let mut i: usize = 0;
        while i < self.nodes.len()
            invariant
                i <= self.nodes@.len(),
                forall|j: int| 0 <= j < i ==> node_path(self.nodes@, j) != strings_view(path@),
            decreases self.nodes@.len() - i,
        {
            if paths_equal(self.nodes[i].path.as_slice(), path) {
                assert(node_path(self.nodes@, i as int) == strings_view(path@));
                assert(has_path(self.nodes@, strings_view(path@)));
                return Some(i);
            }
            i = i + 1;
        }
        None
    }

    /// Creates, where missing, the nodes for the first `n` non-empty prefixes
    /// of `topic`; returns the index of the node for the prefix of length `n`.
    fn ensure_prefixes(&mut self, topic: &[String], n: usize) -> (r: usize)
        requires
            old(self).wf(),
            n <= topic@.len(),
        ensures
            final(self).wf(),
            final(self)@ == add_prefixes(old(self)@, strings_view(topic@), n as nat),
            r < final(self).nodes@.len(),
            node_path(final(self).nodes@, r as int) == strings_view(topic@).take(n as int),
    {
        let ghost t = strings_view(topic@);
        let mut prefix: Vec<String> = Vec::new();
        let mut idx: usize = 0;
        let mut k: usize = 0;
        assert(node_path(self.nodes@, 0) =~= t.take(0));
        while k < n
            invariant
                n <= topic@.len(),
                t == strings_view(topic@),
                k <= n,
                self.wf(),
                self@ == add_prefixes(old(self)@, t, k as nat),
                strings_view(prefix@) == t.take(k as int),
                idx < self.nodes@.len(),
                node_path(self.nodes@, idx as int) == t.take(k as int),
            decreases n - k,
        {
            let ghost prev = self@;
            let ghost prev_nodes = self.nodes@;
            let ghost old_prefix = prefix@;
            let frag = topic[k].clone();
            assert(frag == topic@[k as int]);
            prefix.push(frag);
            assert(strings_view(prefix@) =~= strings_view(old_prefix).push(frag@));
            assert(t.take(k + 1) =~= t.take(k as int).push(t[k as int]));
            assert(strings_view(prefix@) =~= t.take(k + 1));
            k = k + 1;
            match self.find(prefix.as_slice()) {
                Some(i) => {
                    idx = i;
                },
                None => {
                    let node = DirNode {
                        path: clone_strings(prefix.as_slice()),
                        owner: None,
                        subscribers: Vec::new(),
                    };
                    proof {
                        lemma_push(prev_nodes, node);
                        assert(node.subscribers@.to_set() =~= Set::<u32>::empty());
                        assert(node_view(node) == empty_node());
                    }
                    self.nodes.push(node);
                    idx = self.nodes.len() - 1;
                    proof {
                        let m = self@;
                        let p = t.take(k as int);
                        assert(m == prev.insert(p, empty_node()));
                        assert forall|q: TopicPath, j: int|
                            m.dom().contains(q) && 0 <= j <= q.len() implies #[trigger] m.dom().contains(
                            #[trigger] q.take(j),
                        ) by {
                            if q == p {
                                if j == q.len() {
                                    assert(q.take(j) =~= q);
                                } else {
                                    let parent = t.take(k - 1);
                                    assert(prev.dom().contains(parent)) by {
                                        lemma_view_at(prev_nodes, 0);
                                        if k - 1 == 0 {
                                            assert(parent =~= node_path(prev_nodes, 0));
                                        } else {
                                            lemma_add_prefixes_contains(old(self)@, t, (k - 1) as nat);
                                        }
                                    }
                                    assert(q.take(j) =~= parent.take(j));
                                    assert(prev.dom().contains(parent.take(j)));
                                }
                            } else {
                                assert(prev.dom().contains(q));
                                assert(prev.dom().contains(q.take(j)));
                            }
                        }
                        assert(self.nodes@[0] == prev_nodes[0]);
                        assert forall|i: int| 0 <= i < self.nodes@.len() implies (
                        #[trigger] self.nodes@[i]).subscribers@.no_duplicates() by {
                            if i < prev_nodes.len() {
                                assert(self.nodes@[i] == prev_nodes[i]);
                            }
                        }
                    }
                },
            }
        }
        idx
    }

    /// Subscribes `client` to `topic`: afterwards `get_subscribers` returns it
    /// for the topics that reach `topic`.
    pub fn subscribe(&mut self, client: u32, topic: &[String])
        requires
            old(self).wf(),
        ensures
            final(self).wf(),
            final(self)@ == after_subscribe(old(self)@, client, strings_view(topic@)),
    {
        let idx = self.ensure_prefixes(topic, topic.len());
        let ghost m1 = self@;
        let ghost ns = self.nodes@;
        proof {
            lemma_view_at(ns, idx as int);
            assert(strings_view(topic@).take(topic@.len() as int) =~= strings_view(topic@));
        }
        if vec_contains(&self.nodes[idx].subscribers, client).is_none() {
            self.nodes[idx].subscribers.push(client);
            proof {
                let old_subs = ns[idx as int].subscribers@;
                let new_subs = old_subs.push(client);
                old_subs.lemma_push_to_set_commute(client);
                lemma_update(ns, idx as int, self.nodes@[idx as int]);
                assert(self.nodes@ == ns.update(idx as int, self.nodes@[idx as int]));
                assert forall|i: int| 0 <= i < self.nodes@.len() implies (
                #[trigger] self.nodes@[i]).subscribers@.no_duplicates() by {
                    if i != idx {
                        assert(self.nodes@[i] == ns[i]);
                    }
                }
                assert(self@.dom() =~= m1.dom());
            }
        } else {
            proof {
                let subs = ns[idx as int].subscribers@.to_set();
                assert(subs.insert(client) =~= subs);
                assert(m1.insert(strings_view(topic@), m1[strings_view(topic@)]) =~= m1);
            }
        }
    }
}

proof fn lemma_add_prefixes_contains(m: Map<TopicPath, NodeView>, t: TopicPath, n: nat)
    requires
        n <= t.len(),
        n >= 1,
    ensures
        add_prefixes(m, t, n).dom().contains(t.take(n as int)),
    decreases n,
{
}


proof fn lemma_leading_words(t: TopicPath, k: int)
    requires
        0 <= k <= t.len(),
        forall|j: int| 0 <= j < k ==> !is_wildcard(#[trigger] t[j]),
        k == t.len() || is_wildcard(t[k]),
    ensures
        leading_words(t) == k,
    decreases t.len(),
{
    if t.len() > 0 && k > 0 {
        let r = t.drop_first();
        assert forall|j: int| 0 <= j < k - 1 implies !is_wildcard(#[trigger] r[j]) by {
            assert(r[j] == t[j + 1]);
        }
        lemma_leading_words(r, k - 1);
    }
}

fn is_any_wildcard(s: &String) -> (b: bool)
    ensures
        b == is_wildcard(s@),
{
    is_wildcard_exec(s) || is_double_wildcard_exec(s)
}

fn first_wildcard(topic: &[String]) -> (w: usize)
    ensures
        w == leading_words(strings_view(topic@)),
        w <= topic@.len(),
{
    let ghost t = strings_view(topic@);
    let mut i: usize = 0;
    while i < topic.len()
        invariant
            t == strings_view(topic@),
            i <= topic@.len(),
            forall|j: int| 0 <= j < i ==> !is_wildcard(#[trigger] t[j]),
        decreases topic@.len() - i,
    {
        if is_any_wildcard(&topic[i]) {
            proof {
                lemma_leading_words(t, i as int);
            }
            return i;
        }
        i = i + 1;
    }
    proof {
        lemma_leading_words(t, i as int);
    }
    i
}

/// The paths, in the directory's own order, at which `client` is the only
/// subscriber among the first `i` nodes.
spec fn emptied_upto(ns: Seq<DirNode>, client: u32, i: int) -> Seq<TopicPath>
    decreases i,
{
    if i <= 0 {
        Seq::empty()
    } else {
        let prev = emptied_upto(ns, client, i - 1);
        if node_view(ns[i - 1]).subscribers == set![client] {
            prev.push(node_path(ns, i - 1))
        } else {
            prev
        }
    }
}

proof fn lemma_emptied_upto(ns: Seq<DirNode>, client: u32, i: int)
    requires
        distinct_paths(ns),
        0 <= i <= ns.len(),
    ensures
        emptied_upto(ns, client, i).no_duplicates(),
        forall|p: TopicPath|
            #[trigger] emptied_upto(ns, client, i).contains(p) <==> exists|j: int|
                0 <= j < i && node_path(ns, j) == p && node_view(ns[j]).subscribers == set![client],
    decreases i,
{
    if i > 0 {
        lemma_emptied_upto(ns, client, i - 1);
        let prev = emptied_upto(ns, client, i - 1);
        let cur = emptied_upto(ns, client, i);
        if node_view(ns[i - 1]).subscribers == set![client] {
            let p = node_path(ns, i - 1);
            assert(!prev.contains(p)) by {
                if prev.contains(p) {
                    let j = choose|j: int|
                        0 <= j < i - 1 && node_path(ns, j) == p && node_view(ns[j]).subscribers
                            == set![client];
                    assert(node_path(ns, j) != node_path(ns, i - 1));
                }
            }
            assert forall|q: TopicPath| #[trigger] cur.contains(q) <==> exists|j: int|
                0 <= j < i && node_path(ns, j) == q && node_view(ns[j]).subscribers == set![
                    client,
                ] by {
                if cur.contains(q) {
                    let k = choose|k: int| 0 <= k < cur.len() && cur[k] == q;
                    if k < prev.len() {
                        assert(prev.contains(q));
                    } else {
                        assert(q == p);
                    }
                }
                if exists|j: int|
                    0 <= j < i && node_path(ns, j) == q && node_view(ns[j]).subscribers == set![
                        client,
                    ] {
                    let j = choose|j: int|
                        0 <= j < i && node_path(ns, j) == q && node_view(ns[j]).subscribers
                            == set![client];
                    if j < i - 1 {
                        assert(prev.contains(q));
                        let k = choose|k: int| 0 <= k < prev.len() && prev[k] == q;
                        assert(cur[k] == q);
                    } else {
                        assert(cur[prev.len() as int] == q);
                    }
                }
            }
        } else {
            assert forall|q: TopicPath| #[trigger] cur.contains(q) <==> exists|j: int|
                0 <= j < i && node_path(ns, j) == q && node_view(ns[j]).subscribers == set![
                    client,
                ] by {
                if exists|j: int|
                    0 <= j < i && node_path(ns, j) == q && node_view(ns[j]).subscribers == set![
                        client,
                    ] {
                    let j = choose|j: int|
                        0 <= j < i && node_path(ns, j) == q && node_view(ns[j]).subscribers
                            == set![client];
                    assert(j != i - 1);
                    assert(prev.contains(q));
                }
            }
        }
    }
}

spec fn collected(ns: Seq<DirNode>, t: TopicPath, i: int) -> Set<u32> {
    Set::new(
        |c: u32|
            exists|j: int|
                0 <= j < i && subscription_matches(node_path(ns, j), t) && (
                #[trigger] ns[j].subscribers@).contains(c),
    )
}

impl Directory {
    /// The paths at which `client` is the only subscriber, in the order in
    /// which `drop_client` reports them (the order is not otherwise meaningful).
    closed spec fn emptied_paths(self, client: u32) -> Seq<TopicPath> {
        emptied_upto(self.nodes@, client, self.nodes@.len() as int)
    }

    /// `emptied_paths` lists, each once, exactly the stored paths whose only
    /// subscriber is `client`.
    proof fn lemma_emptied_paths(self, client: u32)
        requires
            self.wf(),
        ensures
            self.emptied_paths(client).no_duplicates(),
            forall|p: TopicPath|
                #[trigger] self.emptied_paths(client).contains(p) <==> (self@.dom().contains(p)
                    && self@[p].subscribers == set![client]),
    {
        let ns = self.nodes@;
        lemma_emptied_upto(ns, client, ns.len() as int);
        assert forall|p: TopicPath|
            #[trigger] self.emptied_paths(client).contains(p) <==> (self@.dom().contains(p)
                && self@[p].subscribers == set![client]) by {
            if self.emptied_paths(client).contains(p) {
                let j = choose|j: int|
                    0 <= j < ns.len() && node_path(ns, j) == p && node_view(ns[j]).subscribers
                        == set![client];
                lemma_view_at(ns, j);
            }
            if self@.dom().contains(p) && self@[p].subscribers == set![client] {
                let j = index_of_path(ns, p);
                lemma_view_at(ns, j);
            }
        }
    }

    /// What `drop_client` reports, read over the view: each path whose only
    /// subscriber is `client`, joined, once; distinct strings for valid paths.
    proof fn lemma_reported_topics(self, client: u32, r: Seq<Seq<char>>)
        requires
            self.wf(),
            r == self.emptied_paths(client).map_values(|p: TopicPath| join_topic(p)),
        ensures
            r.to_set() == sole_subscriber_topics(self@, client),
            r.len() == sole_subscriber_paths(self@, client).len(),
            valid_paths(self@) ==> r.no_duplicates(),
    {
        let e = self.emptied_paths(client);
        let s = sole_subscriber_paths(self@, client);
        self.lemma_emptied_paths(client);
        assert(e.to_set() =~= s);
        e.unique_seq_to_set();
        assert forall|x: Seq<char>| r.to_set().contains(x) <==> sole_subscriber_topics(self@, client).contains(x) by {
            if r.to_set().contains(x) {
                let i = choose|i: int| 0 <= i < r.len() && r[i] == x;
                assert(e.contains(e[i]));
                assert(s.contains(e[i]) && x == join_topic(e[i]));
            }
            if sole_subscriber_topics(self@, client).contains(x) {
                let p = choose|p: TopicPath| s.contains(p) && x == join_topic(p);
                assert(e.contains(p));
                let i = choose|i: int| 0 <= i < e.len() && e[i] == p;
                assert(r[i] == x);
            }
        }
        assert(r.to_set() =~= sole_subscriber_topics(self@, client));
        if valid_paths(self@) {
            assert forall|i: int, j: int| 0 <= i < r.len() && 0 <= j < r.len() && i != j implies r[i] != r[j] by {
                assert(e.contains(e[i]));
                assert(e.contains(e[j]));
                let pi = e[i];
                let pj = e[j];
                assert(self@.dom().contains(pi));
                assert(self@.dom().contains(pj));
                assert forall|k: int| 0 <= k < pi.len() implies is_valid_fragment(#[trigger] pi[k]) by {
                    assert(self@.dom().contains(pi));
                }
                assert forall|k: int| 0 <= k < pj.len() implies is_valid_fragment(#[trigger] pj[k]) by {
                    assert(self@.dom().contains(pj));
                }
                if r[i] == r[j] {
                    lemma_join_injective(pi, pj);
                }
            }
        }
    }

    /// Makes `client` the owner of `topic`. Fails if the topic holds a wildcard
    /// or is already owned by another client. The nodes on the way to the topic
    /// (up to the first wildcard) are created either way.
    pub fn claim(&mut self, client: u32, topic: &[String]) -> (r: BusResult<()>)
        requires
            old(self).wf(),
        ensures
            final(self).wf(),
            (final(self)@, r) == after_claim(old(self)@, client, strings_view(topic@)),
    {
        let w = first_wildcard(topic);
        let idx = self.ensure_prefixes(topic, w);
        if w < topic.len() {
            return Err(BusError::ClaimWildcardNotSupported);
        }
        let ghost m1 = self@;
        let ghost ns = self.nodes@;
        proof {
            lemma_view_at(ns, idx as int);
            assert(strings_view(topic@).take(topic@.len() as int) =~= strings_view(topic@));
        }
        match self.nodes[idx].owner {
            Some(owner) => {
                if owner != client {
                    return Err(BusError::TopicAlreadyClaimed);
                }
                proof {
                    assert(m1.insert(
                        strings_view(topic@),
                        NodeView {
                            owner: Some(client),
                            subscribers: m1[strings_view(topic@)].subscribers,
                        },
                    ) =~= m1);
                }
                Ok(())
            },
            None => {
                self.nodes[idx].owner = Some(client);
                proof {
                    lemma_update(ns, idx as int, self.nodes@[idx as int]);
                    assert(self.nodes@ == ns.update(idx as int, self.nodes@[idx as int]));
                    assert forall|i: int| 0 <= i < self.nodes@.len() implies (
                    #[trigger] self.nodes@[i]).subscribers@.no_duplicates() by {
                        if i != idx {
                            assert(self.nodes@[i] == ns[i]);
                        }
                    }
                    assert(self@.dom() =~= m1.dom());
                }
                Ok(())
            },
        }
    }

    /// Gives up `client`'s ownership of `topic`. Fails, changing nothing, when
    /// the walk down to the topic meets a wildcard fragment before a missing
    /// node; otherwise succeeds, and clears the owner if it was `client`.
    pub fn unclaim(&mut self, client: u32, topic: &[String]) -> (r: BusResult<()>)
        requires
            old(self).wf(),
        ensures
            final(self).wf(),
            r is Err <==> unclaim_blocked(old(self)@, strings_view(topic@)),
            r matches Err(e) ==> e == BusError::ClaimWildcardNotSupported,
            final(self)@ == after_unclaim(old(self)@, client, strings_view(topic@)),
    {
        let ghost t = strings_view(topic@);
        let ghost m = self@;
        let mut prefix: Vec<String> = Vec::new();
        let mut k: usize = 0;
        while k < topic.len()
            invariant
                t == strings_view(topic@),
                m == self@,
                self.wf(),
                k <= topic@.len(),
                strings_view(prefix@) == t.take(k as int),
                forall|j: int| 0 <= j < k ==> !is_wildcard(#[trigger] t[j]),
                forall|j: int| 0 <= j < k ==> m.dom().contains(#[trigger] t.take(j + 1)),
            decreases topic@.len() - k,
        {
            if is_any_wildcard(&topic[k]) {
                assert(unclaim_blocked(m, t)) by {
                    assert(is_wildcard(t[k as int]));
                }
                return Err(BusError::ClaimWildcardNotSupported);
            }
            let ghost old_prefix = prefix@;
            let frag = topic[k].clone();
            assert(frag == topic@[k as int]);
            prefix.push(frag);
            assert(strings_view(prefix@) =~= strings_view(old_prefix).push(frag@));
            assert(t.take(k + 1) =~= t.take(k as int).push(t[k as int]));
            if self.find(prefix.as_slice()).is_none() {
                proof {
                    assert(!m.dom().contains(t.take(k + 1)));
                    assert(!unclaim_blocked(m, t)) by {
                        if unclaim_blocked(m, t) {
                            let i = choose|i: int|
                                0 <= i < t.len() && is_wildcard(#[trigger] t[i]) && forall|j: int|
                                    0 <= j < i ==> m.dom().contains(#[trigger] t.take(j + 1));
                            assert(i > k);
                            assert(m.dom().contains(t.take(k + 1)));
                        }
                    }
                    assert(!m.dom().contains(t)) by {
                        if m.dom().contains(t) {
                            assert(t.take(k + 1) == t.take(k + 1));
                            assert(m.dom().contains(t.take(k + 1)));
                        }
                    }
                }
                return Ok(());
            }
            k = k + 1;
        }
        proof {
            assert(!unclaim_blocked(m, t)) by {
                if unclaim_blocked(m, t) {
                    let i = choose|i: int|
                        0 <= i < t.len() && is_wildcard(#[trigger] t[i]) && forall|j: int|
                            0 <= j < i ==> m.dom().contains(#[trigger] t.take(j + 1));
                    assert(!is_wildcard(t[i]));
                }
            }
            assert(t.take(topic@.len() as int) =~= t);
        }
        let idx = match self.find(topic) {
            Some(i) => i,
            None => {
                proof {
                    if topic@.len() == 0 {
                        lemma_view_at(self.nodes@, 0);
                        assert(node_path(self.nodes@, 0) =~= t);
                    } else {
                        assert(m.dom().contains(t.take((topic@.len() - 1) + 1)));
                    }
                }
                return Ok(());
            },
        };
        let ghost ns = self.nodes@;
        proof {
            lemma_view_at(ns, idx as int);
        }
        if self.nodes[idx].owner == Some(client) {
            self.nodes[idx].owner = None;
            proof {
                lemma_update(ns, idx as int, self.nodes@[idx as int]);
                assert(self.nodes@ == ns.update(idx as int, self.nodes@[idx as int]));
                assert forall|i: int| 0 <= i < self.nodes@.len() implies (
                #[trigger] self.nodes@[i]).subscribers@.no_duplicates() by {
                    if i != idx {
                        assert(self.nodes@[i] == ns[i]);
                    }
                }
                assert(self@.dom() =~= m.dom());
            }
        }
        Ok(())
    }

    /// The owner of `topic`, if it has one. Topics with a wildcard have none.
    pub fn get_owner(&self, topic: &[String]) -> (r: Option<u32>)
        requires
            self.wf(),
        ensures
            r == owner_of(self@, strings_view(topic@)),
    {
        let ghost t = strings_view(topic@);
        let w = first_wildcard(topic);
        if w < topic.len() {
            assert(has_wildcard(t)) by {
                lemma_first_wildcard_is_wildcard(t);
            }
            return None;
        }
        assert(!has_wildcard(t)) by {
            lemma_no_leading_wildcard(t);
        }
        match self.find(topic) {
            Some(i) => {
                proof {
                    lemma_view_at(self.nodes@, i as int);
                }
                self.nodes[i].owner
            },
            None => None,
        }
    }

    /// Removes `client` from the subscribers of `topic`.
    pub fn unsubscribe(&mut self, client: u32, topic: &[String]) -> (r: BusResult<()>)
        requires
            old(self).wf(),
        ensures
            final(self).wf(),
            r is Ok,
            final(self)@ == after_unsubscribe(old(self)@, client, strings_view(topic@)),
    {
        let ghost t = strings_view(topic@);
        let ghost m = self@;
        let idx = match self.find(topic) {
            Some(i) => i,
            None => {
                return Ok(());
            },
        };
        let ghost ns = self.nodes@;
        proof {
            lemma_view_at(ns, idx as int);
        }
        match vec_contains(&self.nodes[idx].subscribers, client) {
            Some(j) => {
                let ghost old_subs = ns[idx as int].subscribers@;
                proof {
                    lemma_no_dup_remove(old_subs, j as int);
                }
                self.nodes[idx].subscribers.remove(j);
                proof {
                    lemma_update(ns, idx as int, self.nodes@[idx as int]);
                    assert(self.nodes@ == ns.update(idx as int, self.nodes@[idx as int]));
                    assert forall|i: int| 0 <= i < self.nodes@.len() implies (
                    #[trigger] self.nodes@[i]).subscribers@.no_duplicates() by {
                        if i != idx {
                            assert(self.nodes@[i] == ns[i]);
                        }
                    }
                    assert(self@.dom() =~= m.dom());
                }
            },
            None => {
                proof {
                    let subs = ns[idx as int].subscribers@.to_set();
                    assert(subs.remove(client) =~= subs);
                    assert(m.insert(t, NodeView { owner: m[t].owner, subscribers: m[t].subscribers.remove(client) }) =~= m);
                }
            },
        }
        Ok(())
    }

    /// The clients subscribed on topics that `topic` reaches, each once, in no
    /// particular order.
    pub fn get_subscribers(&self, topic: &[String]) -> (r: Vec<u32>)
        requires
            self.wf(),
        ensures
            r@.no_duplicates(),
            r@.to_set() == matching_subscribers(self@, strings_view(topic@)),
    {
        let ghost t = strings_view(topic@);
        let ghost ns = self.nodes@;
        let mut result: Vec<u32> = Vec::new();
        let mut i: usize = 0;
        assert(result@.to_set() =~= collected(ns, t, 0));
        while i < self.nodes.len()
            invariant
                ns == self.nodes@,
                t == strings_view(topic@),
                i <= ns.len(),
                result@.no_duplicates(),
                result@.to_set() == collected(ns, t, i as int),
            decreases ns.len() - i,
        {
            if subscription_matches_exec(self.nodes[i].path.as_slice(), topic) {
                let subs = &self.nodes[i].subscribers;
                let mut q: usize = 0;
                while q < subs.len()
                    invariant
                        ns == self.nodes@,
                        t == strings_view(topic@),
                        i < ns.len(),
                        *subs == ns[i as int].subscribers,
                        subscription_matches(node_path(ns, i as int), t),
                        q <= subs@.len(),
                        result@.no_duplicates(),
                        result@.to_set() == collected(ns, t, i as int).union(
                            subs@.subrange(0, q as int).to_set(),
                        ),
                    decreases subs@.len() - q,
                {
                    let c = subs[q];
                    let ghost before = result@;
                    if vec_contains(&result, c).is_none() {
                        result.push(c);
                        proof {
                            before.lemma_push_to_set_commute(c);
                            assert forall|a: int, b: int|
                                0 <= a < result@.len() && 0 <= b < result@.len() && a != b implies result@[a]
                                != result@[b] by {
                                if a < before.len() && b < before.len() {
                                } else if a < before.len() {
                                    assert(before.contains(before[a]));
                                } else {
                                    assert(before.contains(before[b]));
                                }
                            }
                        }
                    } else {
                        assert(before.to_set().insert(c) =~= before.to_set());
                    }
                    proof {
                        subs@.subrange(0, q as int).lemma_push_to_set_commute(c);
                        assert(subs@.subrange(0, q + 1) =~= subs@.subrange(0, q as int).push(c));
                        assert(result@.to_set() =~= collected(ns, t, i as int).union(
                            subs@.subrange(0, q + 1).to_set(),
                        ));
                    }
                    q = q + 1;
                }
                proof {
                    assert(subs@.subrange(0, subs@.len() as int) =~= subs@);
                    assert forall|c: u32| collected(ns, t, i + 1).contains(c) <==> collected(
                        ns,
                        t,
                        i as int,
                    ).union(subs@.to_set()).contains(c) by {
                        if collected(ns, t, i + 1).contains(c) {
                            let j = choose|j: int|
                                0 <= j < i + 1 && subscription_matches(node_path(ns, j), t) && (
                                #[trigger] ns[j].subscribers@).contains(c);
                            if j < i {
                                assert(collected(ns, t, i as int).contains(c));
                            }
                        }
                        if subs@.to_set().contains(c) {
                            assert(ns[i as int].subscribers@.contains(c));
                        }
                    }
                    assert(result@.to_set() =~= collected(ns, t, i + 1));
                }
            } else {
                proof {
                    assert forall|c: u32| collected(ns, t, i + 1).contains(c) <==> collected(
                        ns,
                        t,
                        i as int,
                    ).contains(c) by {
                        if collected(ns, t, i + 1).contains(c) {
                            let j = choose|j: int|
                                0 <= j < i + 1 && subscription_matches(node_path(ns, j), t) && (
                                #[trigger] ns[j].subscribers@).contains(c);
                            assert(j != i);
                        }
                    }
                    assert(result@.to_set() =~= collected(ns, t, i + 1));
                }
            }
            i = i + 1;
        }
        proof {
            let m = self@;
            assert forall|c: u32| collected(ns, t, ns.len() as int).contains(c)
                <==> matching_subscribers(m, t).contains(c) by {
                if collected(ns, t, ns.len() as int).contains(c) {
                    let j = choose|j: int|
                        0 <= j < ns.len() && subscription_matches(node_path(ns, j), t) && (
                        #[trigger] ns[j].subscribers@).contains(c);
                    lemma_view_at(ns, j);
                    assert(m[node_path(ns, j)].subscribers.contains(c));
                }
                if matching_subscribers(m, t).contains(c) {
                    let p = choose|p: TopicPath|
                        #![trigger m[p].subscribers.contains(c)]
                        m.dom().contains(p) && m[p].subscribers.contains(c) && subscription_matches(
                            p,
                            t,
                        );
                    let j = index_of_path(ns, p);
                    lemma_view_at(ns, j);
                    assert(ns[j].subscribers@.to_set().contains(c));
                }
            }
            assert(result@.to_set() =~= matching_subscribers(m, t));
        }
        result
    }

    /// Removes `client` from every node: as owner and as subscriber. Returns the
    /// topics (fragments joined with `/`) that had `client` as their only subscriber.
    pub fn drop_client(&mut self, client: u32) -> (r: Vec<String>)
        requires
            old(self).wf(),
        ensures
            final(self).wf(),
            final(self)@ == after_drop_client(old(self)@, client),
            strings_view(r@).to_set() == sole_subscriber_topics(old(self)@, client),
            r@.len() == sole_subscriber_paths(old(self)@, client).len(),
            valid_paths(old(self)@) ==> strings_view(r@).no_duplicates(),
    {
        let ghost ns = self.nodes@;
        let ghost m = self@;
        let mut results: Vec<String> = Vec::new();
        let mut i: usize = 0;
        assert(strings_view(results@) =~= emptied_upto(ns, client, 0).map_values(
            |p: TopicPath| join_topic(p),
        ));
        while i < self.nodes.len()
            invariant
                self.nodes@.len() == ns.len(),
                i <= ns.len(),
                forall|j: int| 0 <= j < ns.len() ==> node_path(self.nodes@, j) == node_path(ns, j),
                forall|j: int|
                    0 <= j < ns.len() ==> (#[trigger] self.nodes@[j]).subscribers@.no_duplicates(),
                forall|j: int|
                    0 <= j < i ==> node_view(#[trigger] self.nodes@[j]) == without_client(
                        node_view(ns[j]),
                        client,
                    ),
                forall|j: int| i <= j < ns.len() ==> #[trigger] self.nodes@[j] == ns[j],
                forall|j: int| 0 <= j < ns.len() ==> (#[trigger] ns[j]).subscribers@.no_duplicates(),
                strings_view(results@) == emptied_upto(ns, client, i as int).map_values(
                    |p: TopicPath| join_topic(p),
                ),
            decreases ns.len() - i,
        {
            let ghost before = self.nodes@;
            let ghost old_node = ns[i as int];
            if self.nodes[i].owner == Some(client) {
                self.nodes[i].owner = None;
            }
            let ghost mid = self.nodes@;
            assert(node_path(mid, i as int) == node_path(ns, i as int));
            match vec_contains(&self.nodes[i].subscribers, client) {
                Some(j) => {
                    proof {
                        lemma_no_dup_remove(old_node.subscribers@, j as int);
                    }
                    self.nodes[i].subscribers.remove(j);
                    if self.nodes[i].subscribers.len() == 0 {
                        proof {
                            assert(old_node.subscribers@.to_set().remove(client) =~= Set::<u32>::empty());
                            assert(old_node.subscribers@.to_set() =~= set![client]) by {
                                assert(old_node.subscribers@.to_set().contains(client));
                            }
                            assert(node_path(self.nodes@, i as int) == node_path(ns, i as int));
                        }
                        let joined = join_topic_exec(self.nodes[i].path.as_slice());
                        let ghost prev_results = results@;
                        results.push(joined);
                        proof {
                            assert(strings_view(results@) =~= strings_view(prev_results).push(joined@));
                        }
                    } else {
                        proof {
                            assert(old_node.subscribers@.to_set() != set![client]) by {
                                let rest = old_node.subscribers@.remove(j as int);
                                assert(rest.len() > 0);
                                assert(rest.to_set().contains(rest[0]));
                                assert(rest[0] != client);
                                assert(old_node.subscribers@.to_set().contains(rest[0]));
                            }
                        }
                    }
                },
                None => {
                    proof {
                        let subs = old_node.subscribers@.to_set();
                        assert(subs.remove(client) =~= subs);
                        assert(subs != set![client]) by {
                            assert(set![client].contains(client));
                        }
                    }
                },
            }
            proof {
                assert(node_path(self.nodes@, i as int) == node_path(ns, i as int));
                assert forall|j: int| 0 <= j < ns.len() implies node_path(self.nodes@, j) == node_path(ns, j) by {
                    if j != i {
                        assert(self.nodes@[j] == before[j]);
                    }
                }
                assert forall|j: int| 0 <= j < ns.len() implies (#[trigger] self.nodes@[j]).subscribers@.no_duplicates() by {
                    if j != i {
                        assert(self.nodes@[j] == before[j]);
                    }
                }
                assert forall|j: int| 0 <= j < i + 1 implies node_view(#[trigger] self.nodes@[j]) == without_client(node_view(ns[j]), client) by {
                    if j != i {
                        assert(self.nodes@[j] == before[j]);
                    } else {
                        assert(node_view(self.nodes@[j]).subscribers =~= without_client(node_view(ns[j]), client).subscribers);
                    }
                }
                assert forall|j: int| i + 1 <= j < ns.len() implies #[trigger] self.nodes@[j] == ns[j] by {
                    assert(self.nodes@[j] == before[j]);
                }
                assert(emptied_upto(ns, client, i + 1).map_values(|p: TopicPath| join_topic(p)) =~= (if node_view(ns[i as int]).subscribers == set![client] {
                    emptied_upto(ns, client, i as int).map_values(|p: TopicPath| join_topic(p)).push(join_topic(node_path(ns, i as int)))
                } else {
                    emptied_upto(ns, client, i as int).map_values(|p: TopicPath| join_topic(p))
                }));
            }
            i = i + 1;
        }
        proof {
            let ns2 = self.nodes@;
            assert(distinct_paths(ns2)) by {
                assert forall|a: int, b: int| 0 <= a < ns2.len() && 0 <= b < ns2.len() && a != b implies node_path(ns2, a) != node_path(ns2, b) by {
                    assert(node_path(ns2, a) == node_path(ns, a));
                    assert(node_path(ns2, b) == node_path(ns, b));
                }
            }
            let m2 = self@;
            let expected = m.map_values(|n: NodeView| without_client(n, client));
            assert forall|q: TopicPath| m2.dom().contains(q) <==> m.dom().contains(q) by {
                if m2.dom().contains(q) {
                    let j = index_of_path(ns2, q);
                    assert(node_path(ns, j) == q);
                }
                if m.dom().contains(q) {
                    let j = index_of_path(ns, q);
                    assert(node_path(ns2, j) == q);
                }
            }
            assert forall|q: TopicPath| m2.dom().contains(q) implies m2[q] == expected[q] by {
                let j = index_of_path(ns2, q);
                lemma_view_at(ns2, j);
                lemma_view_at(ns, j);
            }
            assert(m2 =~= expected);
            assert(self.nodes@[0] == ns2[0]);
            assert(node_path(ns2, 0) == node_path(ns, 0));
            assert(ns2[0].path@.len() == strings_view(ns2[0].path@).len());
            assert(ns2[0].path@.len() == 0);
            assert(m2.dom() =~= m.dom());
            assert(prefix_closed(m2));
            assert(forall|j: int| 0 <= j < ns2.len() ==> (#[trigger] ns2[j]).subscribers@.no_duplicates());
            assert(strings_view(results@) == old(self).emptied_paths(client).map_values(
                |p: TopicPath| join_topic(p),
            ));
            old(self).lemma_reported_topics(client, strings_view(results@));
        }
        results
    }
}

proof fn lemma_first_wildcard_is_wildcard(t: TopicPath)
    requires
        leading_words(t) < t.len(),
    ensures
        is_wildcard(t[leading_words(t) as int]),
    decreases t.len(),
{
    if t.len() > 0 && !is_wildcard(t[0]) {
        lemma_first_wildcard_is_wildcard(t.drop_first());
    }
}

proof fn lemma_no_leading_wildcard(t: TopicPath)
    requires
        leading_words(t) == t.len(),
    ensures
        !has_wildcard(t),
    decreases t.len(),
{
    if t.len() > 0 {
        lemma_no_leading_wildcard(t.drop_first());
        assert forall|i: int| 0 <= i < t.len() implies !is_wildcard(#[trigger] t[i]) by {
            if i > 0 {
                assert(t[i] == t.drop_first()[i - 1]);
            }
        }
    }
}

proof fn lemma_add_prefixes_props(m: Map<TopicPath, NodeView>, t: TopicPath, n: nat)
    requires
        n <= t.len(),
    ensures
        forall|k: int| 1 <= k <= n ==> add_prefixes(m, t, n).dom().contains(#[trigger] t.take(k)),
        forall|p: TopicPath|
            #[trigger] m.dom().contains(p) ==> add_prefixes(m, t, n).dom().contains(p)
                && add_prefixes(m, t, n)[p] == m[p],
        forall|p: TopicPath|
            #[trigger] add_prefixes(m, t, n).dom().contains(p) && !m.dom().contains(p)
                ==> add_prefixes(m, t, n)[p] == empty_node(),
    decreases n,
{
    if n > 0 {
        lemma_add_prefixes_props(m, t, (n - 1) as nat);
    }
}

proof fn lemma_no_wildcard_leading_words(t: TopicPath)
    requires
        !has_wildcard(t),
    ensures
        leading_words(t) == t.len(),
{
    lemma_leading_words(t, t.len() as int);
}

proof fn lemma_wildcard_leading_words(t: TopicPath)
    requires
        has_wildcard(t),
    ensures
        leading_words(t) < t.len(),
{
    if leading_words(t) == t.len() {
        lemma_no_leading_wildcard(t);
    }
    lemma_leading_words_bound(t);
}

proof fn lemma_leading_words_bound(t: TopicPath)
    ensures
        leading_words(t) <= t.len(),
    decreases t.len(),
{
    if t.len() > 0 {
        lemma_leading_words_bound(t.drop_first());
    }
}

impl Directory {
    /// A consistent directory always holds the root node, and its paths are
    /// closed under prefixes.
    pub proof fn lemma_wf_view(self)
        requires
            self.wf(),
        ensures
            self@.dom().contains(Seq::<Seq<char>>::empty()),
            prefix_closed(self@),
    {
        lemma_view_at(self.nodes@, 0);
        assert(node_path(self.nodes@, 0) =~= Seq::<Seq<char>>::empty());
    }
}

proof fn lemma_add_prefixes_valid(m: Map<TopicPath, NodeView>, t: TopicPath, n: nat)
    requires
        valid_paths(m),
        n <= t.len(),
        forall|i: int| 0 <= i < t.len() ==> is_valid_fragment(#[trigger] t[i]),
    ensures
        valid_paths(add_prefixes(m, t, n)),
    decreases n,
{
    if n > 0 {
        lemma_add_prefixes_valid(m, t, (n - 1) as nat);
        let m1 = add_prefixes(m, t, (n - 1) as nat);
        let m2 = add_prefixes(m, t, n);
        let q = t.take(n as int);
        assert forall|p: TopicPath, i: int|
            #![trigger m2.dom().contains(p), p[i]]
            m2.dom().contains(p) && 0 <= i < p.len() implies is_valid_fragment(p[i]) by {
            if p == q {
                assert(p[i] == t[i]);
            } else {
                assert(m1.dom().contains(p));
            }
        }
    }
}

/// Directories built from topics of valid fragments hold only such paths:
/// every operation keeps `valid_paths`.
pub proof fn lemma_valid_paths_kept(m: Map<TopicPath, NodeView>, client: u32, t: TopicPath)
    requires
        valid_paths(m),
        forall|i: int| 0 <= i < t.len() ==> is_valid_fragment(#[trigger] t[i]),
    ensures
        valid_paths(after_subscribe(m, client, t)),
        valid_paths(after_unsubscribe(m, client, t)),
        valid_paths(after_claim(m, client, t).0),
        valid_paths(after_unclaim(m, client, t)),
        valid_paths(after_drop_client(m, client)),
{
    lemma_leading_words_bound(t);
    lemma_add_prefixes_valid(m, t, t.len());
    lemma_add_prefixes_valid(m, t, leading_words(t));
    let m1 = add_prefixes(m, t, t.len());
    assert(t.take(t.len() as int) =~= t);
    let ms = after_subscribe(m, client, t);
    assert forall|p: TopicPath, i: int|
        #![trigger ms.dom().contains(p), p[i]]
        ms.dom().contains(p) && 0 <= i < p.len() implies is_valid_fragment(p[i]) by {
        if p != t {
            assert(m1.dom().contains(p));
        }
    }
    let mc = after_claim(m, client, t).0;
    assert forall|p: TopicPath, i: int|
        #![trigger mc.dom().contains(p), p[i]]
        mc.dom().contains(p) && 0 <= i < p.len() implies is_valid_fragment(p[i]) by {
        if p != t && leading_words(t) == t.len() {
            assert(m1.dom().contains(p));
        }
    }
    let md = after_drop_client(m, client);
    assert forall|p: TopicPath, i: int|
        #![trigger md.dom().contains(p), p[i]]
        md.dom().contains(p) && 0 <= i < p.len() implies is_valid_fragment(p[i]) by {
        assert(m.dom().contains(p));
    }
}

/// After `subscribe(client, t)`, a publication on `t` reaches `client`.
pub proof fn lemma_subscribe_then_matching(m: Map<TopicPath, NodeView>, client: u32, t: TopicPath)
    ensures
        matching_subscribers(after_subscribe(m, client, t), t).contains(client),
{
    let m2 = after_subscribe(m, client, t);
    lemma_matches_itself(t);
    assert(m2.dom().contains(t));
    assert(m2[t].subscribers.contains(client));
}

/// `unsubscribe` undoes `subscribe`: unsubscribing a client that was not
/// subscribed at `t` right after subscribing it leaves the directory as the
/// subscription's walk down the tree left it.
pub proof fn lemma_unsubscribe_undoes_subscribe(
    m: Map<TopicPath, NodeView>,
    client: u32,
    t: TopicPath,
)
    requires
        m.dom().contains(Seq::<Seq<char>>::empty()),
        !(m.dom().contains(t) && m[t].subscribers.contains(client)),
    ensures
        after_unsubscribe(after_subscribe(m, client, t), client, t) == add_prefixes(m, t, t.len()),
        !after_unsubscribe(after_subscribe(m, client, t), client, t)[t].subscribers.contains(client),
{
    let m1 = add_prefixes(m, t, t.len());
    lemma_add_prefixes_props(m, t, t.len());
    if t.len() == 0 {
        assert(t =~= Seq::<Seq<char>>::empty());
    } else {
        assert(t.take(t.len() as int) =~= t);
    }
    assert(m1.dom().contains(t));
    assert(!m1[t].subscribers.contains(client));
    let m2 = after_subscribe(m, client, t);
    assert(m2[t].subscribers.remove(client) =~= m1[t].subscribers);
    assert(after_unsubscribe(m2, client, t) =~= m1);
}

/// Claiming a topic without wildcards that no other client owns succeeds and
/// makes `client` its owner.
pub proof fn lemma_claim_owns(m: Map<TopicPath, NodeView>, client: u32, t: TopicPath)
    requires
        m.dom().contains(Seq::<Seq<char>>::empty()),
        !has_wildcard(t),
        owner_of(m, t) is None || owner_of(m, t) == Some(client),
    ensures
        after_claim(m, client, t).1 is Ok,
        owner_of(after_claim(m, client, t).0, t) == Some(client),
{
    lemma_no_wildcard_leading_words(t);
    lemma_add_prefixes_props(m, t, t.len());
    if t.len() == 0 {
        assert(t =~= Seq::<Seq<char>>::empty());
    } else {
        assert(t.take(t.len() as int) =~= t);
    }
}

/// At most one client owns a topic: claiming a topic owned by another client
/// fails and leaves the owner as it was.
pub proof fn lemma_claim_exclusive(m: Map<TopicPath, NodeView>, client: u32, other: u32, t: TopicPath)
    requires
        owner_of(m, t) == Some(other),
        other != client,
    ensures
        after_claim(m, client, t).1 == Err::<(), BusError>(BusError::TopicAlreadyClaimed),
        owner_of(after_claim(m, client, t).0, t) == Some(other),
{
    lemma_no_wildcard_leading_words(t);
    lemma_add_prefixes_props(m, t, t.len());
}

/// Topics with a wildcard cannot be claimed, and have no owner.
pub proof fn lemma_claim_wildcard(m: Map<TopicPath, NodeView>, client: u32, t: TopicPath)
    requires
        has_wildcard(t),
    ensures
        after_claim(m, client, t).1 == Err::<(), BusError>(BusError::ClaimWildcardNotSupported),
        owner_of(after_claim(m, client, t).0, t) is None,
{
    lemma_wildcard_leading_words(t);
}

/// `unclaim` undoes a successful `claim`: the topic has no owner afterwards.
pub proof fn lemma_unclaim_undoes_claim(m: Map<TopicPath, NodeView>, client: u32, t: TopicPath)
    requires
        m.dom().contains(Seq::<Seq<char>>::empty()),
        !has_wildcard(t),
        after_claim(m, client, t).1 is Ok,
    ensures
        owner_of(after_unclaim(after_claim(m, client, t).0, client, t), t) is None,
{
    lemma_no_wildcard_leading_words(t);
    lemma_add_prefixes_props(m, t, t.len());
    if t.len() == 0 {
        assert(t =~= Seq::<Seq<char>>::empty());
    } else {
        assert(t.take(t.len() as int) =~= t);
    }
    let m2 = after_claim(m, client, t).0;
    assert(!unclaim_blocked(m2, t)) by {
        if unclaim_blocked(m2, t) {
            let i = choose|i: int|
                0 <= i < t.len() && is_wildcard(#[trigger] t[i]) && forall|j: int|
                    0 <= j < i ==> m2.dom().contains(#[trigger] t.take(j + 1));
            assert(has_wildcard(t));
        }
    }
}

/// After `drop_client(client)`, the client owns nothing, is subscribed
/// nowhere, and no publication reaches it.
pub proof fn lemma_drop_client_forgets(m: Map<TopicPath, NodeView>, client: u32, t: TopicPath)
    ensures
        forall|p: TopicPath|
            #[trigger] after_drop_client(m, client).dom().contains(p) ==> after_drop_client(
                m,
                client,
            )[p].owner != Some(client) && !after_drop_client(m, client)[p].subscribers.contains(
                client,
            ),
        !matching_subscribers(after_drop_client(m, client), t).contains(client),
{
}

/// Subscribing does not change who serves any topic.
pub proof fn lemma_subscribe_keeps_owners(m: Map<TopicPath, NodeView>, client: u32, t: TopicPath, u: TopicPath)
    requires
        m.dom().contains(Seq::<Seq<char>>::empty()),
    ensures
        owner_of(after_subscribe(m, client, t), u) == owner_of(m, u),
{
    lemma_add_prefixes_props(m, t, t.len());
    let m1 = add_prefixes(m, t, t.len());
    let m2 = after_subscribe(m, client, t);
    if m2.dom().contains(u) && !m.dom().contains(u) {
        if u != t {
            assert(m1.dom().contains(u));
        } else if t.len() == 0 {
            assert(t =~= Seq::<Seq<char>>::empty());
        } else {
            assert(t.take(t.len() as int) =~= t);
        }
        assert(m1[u] == empty_node());
    }
}

/// Claiming does not change who receives what is published.
pub proof fn lemma_claim_keeps_subscribers(m: Map<TopicPath, NodeView>, client: u32, t: TopicPath, u: TopicPath)
    requires
        m.dom().contains(Seq::<Seq<char>>::empty()),
    ensures
        matching_subscribers(after_claim(m, client, t).0, u) == matching_subscribers(m, u),
{
    lemma_leading_words_bound(t);
    lemma_add_prefixes_props(m, t, t.len());
    lemma_add_prefixes_props(m, t, leading_words(t));
    if t.len() == 0 {
        assert(t =~= Seq::<Seq<char>>::empty());
    } else {
        assert(t.take(t.len() as int) =~= t);
    }
    let m2 = after_claim(m, client, t).0;
    assert forall|c: u32| matching_subscribers(m2, u).contains(c) <==> matching_subscribers(m, u).contains(c) by {
        if matching_subscribers(m2, u).contains(c) {
            let p = choose|p: TopicPath|
                #![trigger m2[p].subscribers.contains(c)]
                m2.dom().contains(p) && m2[p].subscribers.contains(c) && subscription_matches(p, u);
            if !m.dom().contains(p) {
                assert(m2[p].subscribers =~= Set::<u32>::empty());
            }
            assert(m[p].subscribers.contains(c));
        }
        if matching_subscribers(m, u).contains(c) {
            let p = choose|p: TopicPath|
                #![trigger m[p].subscribers.contains(c)]
                m.dom().contains(p) && m[p].subscribers.contains(c) && subscription_matches(p, u);
            assert(m2.dom().contains(p));
            assert(m2[p].subscribers.contains(c));
        }
    }
    assert(matching_subscribers(m2, u) =~= matching_subscribers(m, u));
}

/// A call that changes who is subscribed where.
pub enum SubscriptionOp {
    Subscribe(u32, TopicPath),
    Unsubscribe(u32, TopicPath),
    DropClient(u32),
}

/// The directory after one such call.
pub open spec fn apply_op(m: Map<TopicPath, NodeView>, op: SubscriptionOp) -> Map<TopicPath, NodeView> {
    match op {
        SubscriptionOp::Subscribe(c, t) => after_subscribe(m, c, t),
        SubscriptionOp::Unsubscribe(c, t) => after_unsubscribe(m, c, t),
        SubscriptionOp::DropClient(c) => after_drop_client(m, c),
    }
}

/// The directory after the calls `ops`, in order, on `m`.
pub open spec fn apply_ops(m: Map<TopicPath, NodeView>, ops: Seq<SubscriptionOp>) -> Map<
    TopicPath,
    NodeView,
>
    decreases ops.len(),
{
    if ops.len() == 0 {
        m
    } else {
        apply_op(apply_ops(m, ops.drop_last()), ops.last())
    }
}

/// Whether the history `ops` leaves `client` subscribed at exactly `s`: some
/// `subscribe(client, s)` not undone by a later `unsubscribe(client, s)` or
/// `drop_client(client)`.
pub open spec fn subscribed_after(ops: Seq<SubscriptionOp>, client: u32, s: TopicPath) -> bool
    decreases ops.len(),
{
    if ops.len() == 0 {
        false
    } else {
        let before = subscribed_after(ops.drop_last(), client, s);
        match ops.last() {
            SubscriptionOp::Subscribe(c, t) => (c == client && t == s) || before,
            SubscriptionOp::Unsubscribe(c, t) => !(c == client && t == s) && before,
            SubscriptionOp::DropClient(c) => c != client && before,
        }
    }
}

/// `client` is subscribed at exactly the stored path `s`.
pub open spec fn subscribed_at(m: Map<TopicPath, NodeView>, client: u32, s: TopicPath) -> bool {
    m.dom().contains(s) && m[s].subscribers.contains(client)
}

proof fn lemma_op_subscribed(m: Map<TopicPath, NodeView>, op: SubscriptionOp, client: u32, s: TopicPath)
    requires
        m.dom().contains(Seq::<Seq<char>>::empty()),
    ensures
        apply_op(m, op).dom().contains(Seq::<Seq<char>>::empty()),
        subscribed_at(apply_op(m, op), client, s) <==> match op {
            SubscriptionOp::Subscribe(c, t) => (c == client && t == s) || subscribed_at(m, client, s),
            SubscriptionOp::Unsubscribe(c, t) => !(c == client && t == s) && subscribed_at(m, client, s),
            SubscriptionOp::DropClient(c) => c != client && subscribed_at(m, client, s),
        },
{
    match op {
        SubscriptionOp::Subscribe(c, t) => {
            lemma_add_prefixes_props(m, t, t.len());
            let m1 = add_prefixes(m, t, t.len());
            if t.len() == 0 {
                assert(t =~= Seq::<Seq<char>>::empty());
            } else {
                assert(t.take(t.len() as int) =~= t);
            }
            assert(m1.dom().contains(t));
            if s != t && m1.dom().contains(s) && !m.dom().contains(s) {
                assert(m1[s] == empty_node());
            }
            if s == t && !m.dom().contains(s) {
                assert(m1[s] == empty_node());
            }
        },
        SubscriptionOp::Unsubscribe(c, t) => {},
        SubscriptionOp::DropClient(c) => {},
    }
}

/// Who is subscribed where follows the history: after the calls `ops` on a new
/// directory, `client` is subscribed at exactly `s` when some
/// `subscribe(client, s)` in `ops` was not undone by a later
/// `unsubscribe(client, s)` or `drop_client(client)`.
pub proof fn lemma_subscriptions_follow_history(ops: Seq<SubscriptionOp>, client: u32, s: TopicPath)
    ensures
        apply_ops(map![Seq::<Seq<char>>::empty() => empty_node()], ops).dom().contains(
            Seq::<Seq<char>>::empty(),
        ),
        subscribed_at(apply_ops(map![Seq::<Seq<char>>::empty() => empty_node()], ops), client, s)
            <==> subscribed_after(ops, client, s),
    decreases ops.len(),
{
    let m0 = map![Seq::<Seq<char>>::empty() => empty_node()];
    if ops.len() == 0 {
        assert(!empty_node().subscribers.contains(client));
    } else {
        lemma_subscriptions_follow_history(ops.drop_last(), client, s);
        lemma_op_subscribed(apply_ops(m0, ops.drop_last()), ops.last(), client, s);
    }
}

/// What a publication on a topic of words reaches after the calls `ops` on a
/// new directory: exactly the clients left subscribed, by the history, at a
/// topic whose pattern matches it fragment by fragment (a word the same word,
/// `*` one fragment, `**` any number).
pub proof fn lemma_get_subscribers_by_history(ops: Seq<SubscriptionOp>, client: u32, t: TopicPath)
    requires
        is_word_topic(t),
    ensures
        matching_subscribers(apply_ops(map![Seq::<Seq<char>>::empty() => empty_node()], ops), t).contains(
            client,
        ) <==> exists|s: TopicPath|
            #![trigger subscribed_after(ops, client, s)]
            subscribed_after(ops, client, s) && pattern_matches(s, t),
{
    let m = apply_ops(map![Seq::<Seq<char>>::empty() => empty_node()], ops);
    if matching_subscribers(m, t).contains(client) {
        let p = choose|p: TopicPath|
            #![trigger m[p].subscribers.contains(client)]
            m.dom().contains(p) && m[p].subscribers.contains(client) && subscription_matches(p, t);
        lemma_subscriptions_follow_history(ops, client, p);
        lemma_matches_word_topic(p, t);
        assert(subscribed_after(ops, client, p) && pattern_matches(p, t));
    }
    if exists|s: TopicPath|
        #![trigger subscribed_after(ops, client, s)]
        subscribed_after(ops, client, s) && pattern_matches(s, t) {
        let s = choose|s: TopicPath|
            #![trigger subscribed_after(ops, client, s)]
            subscribed_after(ops, client, s) && pattern_matches(s, t);
        lemma_subscriptions_follow_history(ops, client, s);
        lemma_matches_word_topic(s, t);
        assert(m[s].subscribers.contains(client));
    }
}

/// Only the owner can give a topic up: unclaiming by any other client leaves
/// the owner of every topic as it was.
pub proof fn lemma_unclaim_by_other_keeps_owner(
    m: Map<TopicPath, NodeView>,
    client: u32,
    t: TopicPath,
    u: TopicPath,
)
    requires
        owner_of(m, t) != Some(client),
    ensures
        owner_of(after_unclaim(m, client, t), u) == owner_of(m, u),
{
    if !has_wildcard(t) && m.dom().contains(t) {
        assert(m[t].owner != Some(client));
    }
}

/// Unclaiming a topic changes no other topic's owner, and leaves the topic
/// itself without the unclaiming client as its owner.
pub proof fn lemma_unclaim_touches_only_its_topic(
    m: Map<TopicPath, NodeView>,
    client: u32,
    t: TopicPath,
    u: TopicPath,
)
    requires
        u != t,
    ensures
        owner_of(after_unclaim(m, client, t), u) == owner_of(m, u),
        owner_of(after_unclaim(m, client, t), t) != Some(client) || unclaim_blocked(m, t),
{
}

} // verus!
