//! A character trie over keys. Every node keeps the ordered posting list of
//! the ids stored under any key that passes through it (prefix lookups) and
//! of the ids stored under the key that ends at it (exact lookups).

use crate::postings::{push_unique, sorted_unique};
use std::collections::BTreeMap;
use vstd::prelude::*;

verus! {

broadcast use {vstd::std_specs::btree::group_btree_axioms, vstd::laws_cmp::group_laws_cmp};

/// Node reached from node `n` by following the characters of `p`.
pub open spec fn walk(children: Seq<Map<u32, usize>>, n: int, p: Seq<char>) -> Option<int>
    decreases p.len(),
{
    if p.len() == 0 {
        Some(n)
    } else if 0 <= n < children.len() && children[n].contains_key(p[0] as u32) {
        walk(children, children[n][p[0] as u32] as int, p.drop_first())
    } else {
        None
    }
}

/// Ids stored under some key that starts with `p`.
pub open spec fn has_prefix_entry(entries: Set<(Seq<char>, usize)>, p: Seq<char>, x: usize) -> bool {
    exists|k: Seq<char>| entries.contains((k, x)) && #[trigger] p.is_prefix_of(k)
}

/// Trie with posting lists on its nodes.
pub struct PrefixTrie {
    children: Vec<BTreeMap<u32, usize>>,
    postings: Vec<Vec<usize>>,
    terminal: Vec<Vec<usize>>,
    /// The (key, id) pairs inserted so far.
    entries: Ghost<Set<(Seq<char>, usize)>>,
    /// The key prefix that leads to each node.
    paths: Ghost<Seq<Seq<char>>>,
}

impl PrefixTrie {
    pub closed spec fn child_maps(self) -> Seq<Map<u32, usize>> {
        self.children@.map_values(|m: BTreeMap<u32, usize>| m@)
    }

    /// The (key, id) pairs stored.
    pub closed spec fn contents(self) -> Set<(Seq<char>, usize)> {
        self.entries@
    }

    /// Sizes agree, and each edge leads to the node whose path extends
    /// its parent's by the edge's character.
    pub closed spec fn shape(self) -> bool {
        let n = self.children.len();
        let paths = self.paths@;
        let ch = self.child_maps();
        &&& n >= 1
        &&& self.postings.len() == n
        &&& self.terminal.len() == n
        &&& paths.len() == n
        &&& paths[0] == Seq::<char>::empty()
        &&& forall|i: int, c: char|
            0 <= i < n && #[trigger] ch[i].contains_key(c as u32) ==> {
                &&& (ch[i][c as u32] as int) < n
                &&& paths[ch[i][c as u32] as int] == paths[i].push(c)
            }
        &&& forall|i: int| 0 <= i < n ==> walk(ch, 0, #[trigger] paths[i]) == Some(i)
    }

    /// Exact postings hold the ids stored under the node's path.
    pub closed spec fn terminal_ok(self) -> bool {
        let n = self.children.len();
        &&& forall|i: int| 0 <= i < n ==> sorted_unique(#[trigger] self.terminal@[i]@)
        &&& forall|i: int, x: usize|
            0 <= i < n ==> (#[trigger] self.terminal@[i]@.contains(x)
                <==> self.entries@.contains((self.paths@[i], x)))
    }

    /// Prefix postings hold the ids stored under keys through the node.
    pub closed spec fn postings_ok(self) -> bool {
        let n = self.children.len();
        &&& forall|i: int| 0 <= i < n ==> sorted_unique(#[trigger] self.postings@[i]@)
        &&& forall|i: int, x: usize|
            0 <= i < n ==> (#[trigger] self.postings@[i]@.contains(x) <==> has_prefix_entry(
                self.entries@,
                self.paths@[i],
                x,
            ))
    }

    /// Every prefix of a stored key leads to a node.
    pub closed spec fn reach_ok(self) -> bool {
        forall|k: Seq<char>, x: usize, j: int|
            #![trigger self.entries@.contains((k, x)), walk(self.child_maps(), 0, k.take(j))]
            self.entries@.contains((k, x)) && 0 <= j <= k.len() ==> walk(
                self.child_maps(),
                0,
                k.take(j),
            ) is Some
    }

    /// The structure invariant.
    pub closed spec fn wf(self) -> bool {
        &&& self.shape()
        &&& self.terminal_ok()
        &&& self.postings_ok()
        &&& self.reach_ok()
    }

    proof fn lemma_child(self, i: int, c: char)
        requires
            self.shape(),
            0 <= i < self.children.len(),
            self.child_maps()[i].contains_key(c as u32),
        ensures
            (self.child_maps()[i][c as u32] as int) < self.children.len(),
            self.paths@[self.child_maps()[i][c as u32] as int] == self.paths@[i].push(c),
    {
    }

    proof fn lemma_walk_path(self, n: int, p: Seq<char>)
        requires
            self.wf(),
            0 <= n < self.children.len(),
        ensures
            walk(self.child_maps(), n, p) matches Some(m) ==> 0 <= m < self.children.len()
                && self.paths@[m] == self.paths@[n] + p,
        decreases p.len(),
    {
        let ch = self.child_maps();
        if p.len() == 0 {
            assert(self.paths@[n] + p =~= self.paths@[n]);
        } else if ch[n].contains_key(p[0] as u32) {
            let m = ch[n][p[0] as u32] as int;
            self.lemma_child(n, p[0]);
            self.lemma_walk_path(m, p.drop_first());
            assert(self.paths@[n].push(p[0]) + p.drop_first() =~= self.paths@[n] + p);
        }
    }

    pub fn new() -> (t: PrefixTrie)
        ensures
            t.wf(),
            t.contents() == Set::<(Seq<char>, usize)>::empty(),
    {
        let mut children: Vec<BTreeMap<u32, usize>> = Vec::new();
        children.push(BTreeMap::new());
        let mut postings: Vec<Vec<usize>> = Vec::new();
        postings.push(Vec::new());
        let mut terminal: Vec<Vec<usize>> = Vec::new();
        terminal.push(Vec::new());
        let ghost root_paths: Seq<Seq<char>> = seq![Seq::<char>::empty()];
        let t = PrefixTrie {
            children,
            postings,
            terminal,
            entries: Ghost(Set::empty()),
            paths: Ghost(root_paths),
        };
        proof {
            assert(t.child_maps()[0] == Map::<u32, usize>::empty());
            assert(walk(t.child_maps(), 0, t.paths@[0]) == Some(0int));
        }
        t
    }

    /// Prefix postings while `key` is being inserted with `id`: the nodes
    /// on the first `i` characters of the key already hold `id`.
    closed spec fn partial_postings(self, key: Seq<char>, i: int, id: usize) -> bool {
        let n = self.children.len();
        &&& forall|j: int| 0 <= j < n ==> sorted_unique(#[trigger] self.postings@[j]@)
        &&& forall|j: int, x: usize|
            0 <= j < n ==> (#[trigger] self.postings@[j]@.contains(x) <==> (has_prefix_entry(
                self.entries@,
                self.paths@[j],
                x,
            ) || (x == id && self.paths@[j].is_prefix_of(key) && self.paths@[j].len() <= i)))
    }

    /// Nodes are determined by their paths.
    proof fn lemma_path_unique(self, a: int, b: int)
        requires
            self.shape(),
            0 <= a < self.children.len(),
            0 <= b < self.children.len(),
            self.paths@[a] == self.paths@[b],
        ensures
            a == b,
    {
        assert(walk(self.child_maps(), 0, self.paths@[a]) == Some(a));
        assert(walk(self.child_maps(), 0, self.paths@[b]) == Some(b));
    }

    /// Stores `event_id` under `key`. Ids must arrive in non-decreasing order.
    pub fn insert(&mut self, key: &[char], event_id: usize)
        requires
            old(self).wf(),
            forall|k: Seq<char>, x: usize| old(self).contents().contains((k, x)) ==> x <= event_id,
        ensures
            final(self).wf(),
            final(self).contents() == old(self).contents().insert((key@, event_id)),
    {
        let ghost entries0 = self.entries@;
        let mut node: usize = 0;
        proof {
            assert forall|k: Seq<char>, x: usize| entries0.contains((k, x)) implies x <= event_id by {
                assert(old(self).contents().contains((k, x)));
            }
            assert forall|j: int, x: usize| 0 <= j < self.children.len() && #[trigger] self.postings@[j]@.contains(x) implies x <= event_id by {
                let k = choose|k: Seq<char>| self.entries@.contains((k, x)) && #[trigger] self.paths@[j].is_prefix_of(k);
                assert(entries0.contains((k, x)));
            }
        }
        let ghost before0 = self.postings@;
        push_unique(&mut self.postings[0], event_id);
        proof {
            let p0 = before0[0]@;
            if p0.len() > 0 && p0.last() != event_id {
                assert(p0.contains(p0.last()));
            }
            assert(key@.take(0) =~= Seq::<char>::empty());
            assert forall|j: int, x: usize|
                0 <= j < self.children.len() implies (#[trigger] self.postings@[j]@.contains(x) <==> (
                has_prefix_entry(self.entries@, self.paths@[j], x) || (x == event_id
                    && self.paths@[j].is_prefix_of(key@) && self.paths@[j].len() <= 0))) by {
                assert(before0[j]@.contains(x) <==> has_prefix_entry(entries0, self.paths@[j], x));
                if j == 0 {
                    assert(Seq::<char>::empty().is_prefix_of(key@));
                } else {
                    assert(self.postings@[j] == before0[j]);
                }
                if j != 0 && self.paths@[j].len() == 0 {
                    assert(self.paths@[j] =~= self.paths@[0]);
                    self.lemma_path_unique(j, 0);
                }
            }
        }
        let mut i: usize = 0;
        while i < key.len()
            invariant
                i <= key.len(),
                self.shape(),
                self.terminal_ok(),
                self.reach_ok(),
                self.partial_postings(key@, i as int, event_id),
                self.entries@ == entries0,
                forall|k: Seq<char>, x: usize| entries0.contains((k, x)) ==> x <= event_id,
                node < self.children.len(),
                self.paths@[node as int] == key@.take(i as int),
            decreases key.len() - i,
        {
            let c = key[i];
            let k: u32 = c as u32;
            let ghost ch0 = self.child_maps();
            let ghost n0 = self.children.len() as int;
            assert(ch0[node as int] == self.children@[node as int]@);
            assert(key@.take(i as int).push(c) =~= key@.take(i + 1));
            let found: Option<usize> = match self.children[node].get(&k) {
                Some(m) => Some(*m),
                None => None,
            };
            let next: usize = match found {
                Some(m) => {
                    proof {
                        self.lemma_child(node as int, c);
                    }
                    m
                },
                None => {
                    let fresh = self.children.len();
                    proof {
                        lemma_walk_push(ch0, 0, key@.take(i as int), c);
                        assert(walk(ch0, 0, key@.take(i + 1)) is None);
                        assert forall|kk: Seq<char>, x: usize|
                            entries0.contains((kk, x)) implies !key@.take(i + 1).is_prefix_of(kk) by {
                            if key@.take(i + 1).is_prefix_of(kk) {
                                assert(kk.take(i + 1) =~= key@.take(i + 1));
                                assert(walk(ch0, 0, kk.take(i + 1)) is Some);
                            }
                        }
                    }
                    let ghost before_p = self.postings@;
                    let ghost before_tm = self.terminal@;
                    let ghost paths0 = self.paths@;
                    self.children[node].insert(k, fresh);
                    self.children.push(BTreeMap::new());
                    self.postings.push(Vec::new());
                    self.terminal.push(Vec::new());
                    proof {
                        self.paths@ = self.paths@.push(key@.take(i + 1));
                        let ch1 = self.child_maps();
                        assert(ch1.len() == n0 + 1);
                        assert forall|a: int, kk: u32|
                            0 <= a < ch0.len() && #[trigger] ch0[a].contains_key(kk) implies ch1[a].contains_key(kk)
                                && ch1[a][kk] == ch0[a][kk] by {
                            if a == node as int {
                                assert(ch1[a] == ch0[a].insert(k, fresh));
                            } else {
                                assert(ch1[a] == ch0[a]);
                            }
                        }
                        assert(ch1[fresh as int] == Map::<u32, usize>::empty());
                        assert forall|a: int| 0 <= a < ch1.len() implies walk(ch1, 0, #[trigger] self.paths@[a]) == Some(a) by {
                            if a < n0 {
                                lemma_walk_grow(ch0, ch1, 0, self.paths@[a]);
                            } else {
                                lemma_walk_grow(ch0, ch1, 0, key@.take(i as int));
                                lemma_walk_push(ch1, 0, key@.take(i as int), c);
                            }
                        }
                        assert forall|a: int, cc: char|
                            0 <= a < ch1.len() && #[trigger] ch1[a].contains_key(cc as u32) implies {
                                &&& (ch1[a][cc as u32] as int) < ch1.len()
                                &&& self.paths@[ch1[a][cc as u32] as int] == self.paths@[a].push(cc)
                            } by {
                            if a == node as int && cc as u32 == k {
                                lemma_char_key_injective(cc, c);
                            } else if a < n0 {
                                assert(ch0[a].contains_key(cc as u32));
                            }
                        }
                        assert forall|kk: Seq<char>, x: usize, j: int|
                            #![trigger self.entries@.contains((kk, x)), walk(self.child_maps(), 0, kk.take(j))]
                            self.entries@.contains((kk, x)) && 0 <= j <= kk.len() implies walk(self.child_maps(), 0, kk.take(j)) is Some by {
                            lemma_walk_grow(ch0, ch1, 0, kk.take(j));
                        }
                        assert forall|j: int| 0 <= j < ch1.len() implies sorted_unique(#[trigger] self.postings@[j]@) by {
                            if j < n0 {
                                assert(self.postings@[j] == before_p[j]);
                            }
                        }
                        assert forall|j: int| 0 <= j < ch1.len() implies sorted_unique(#[trigger] self.terminal@[j]@) by {
                            if j < n0 {
                                assert(self.terminal@[j] == before_tm[j]);
                            }
                        }
                        assert forall|j: int, x: usize|
                            0 <= j < ch1.len() implies (#[trigger] self.postings@[j]@.contains(x) <==> (
                            has_prefix_entry(self.entries@, self.paths@[j], x) || (x == event_id
                                && self.paths@[j].is_prefix_of(key@) && self.paths@[j].len() <= i))) by {
                            if j < n0 {
                                assert(self.postings@[j] == before_p[j]);
                                assert(self.paths@[j] == paths0[j]);
                                assert(before_p[j]@.contains(x) <==> (
                                    has_prefix_entry(entries0, paths0[j], x) || (x == event_id
                                    && paths0[j].is_prefix_of(key@) && paths0[j].len() <= i)));
                            } else {
                                assert(self.postings@[j]@ =~= Seq::<usize>::empty());
                                if has_prefix_entry(self.entries@, self.paths@[j], x) {
                                    let kk = choose|kk: Seq<char>| self.entries@.contains((kk, x)) && #[trigger] self.paths@[j].is_prefix_of(kk);
                                    assert(entries0.contains((kk, x)));
                                }
                            }
                        }
                        assert forall|j: int, x: usize|
                            0 <= j < ch1.len() implies (#[trigger] self.terminal@[j]@.contains(x)
                                <==> self.entries@.contains((self.paths@[j], x))) by {
                            if j < n0 {
                                assert(self.terminal@[j] == before_tm[j]);
                                assert(self.paths@[j] == paths0[j]);
                                assert(before_tm[j]@.contains(x) <==> entries0.contains((paths0[j], x)));
                            } else {
                                assert(self.terminal@[j]@ =~= Seq::<usize>::empty());
                                if entries0.contains((self.paths@[j], x)) {
                                    assert(key@.take(i + 1).is_prefix_of(self.paths@[j]));
                                }
                            }
                        }
                    }
                    fresh
                },
            };
            proof {
                assert(self.paths@[next as int] == key@.take(i + 1));
                assert forall|j: int, x: usize|
                    0 <= j < self.children.len() && #[trigger] self.postings@[j]@.contains(x) implies x <= event_id by {
                    if has_prefix_entry(self.entries@, self.paths@[j], x) {
                        let kk = choose|kk: Seq<char>| self.entries@.contains((kk, x)) && #[trigger] self.paths@[j].is_prefix_of(kk);
                        assert(entries0.contains((kk, x)));
                    }
                }
            }
            let ghost before = self.postings@;
            push_unique(&mut self.postings[next], event_id);
            proof {
                assert forall|j: int, x: usize|
                    0 <= j < self.children.len() implies (#[trigger] self.postings@[j]@.contains(x) <==> (
                    has_prefix_entry(self.entries@, self.paths@[j], x) || (x == event_id
                        && self.paths@[j].is_prefix_of(key@) && self.paths@[j].len() <= i + 1))) by {
                    assert(before[j]@.contains(x) <==> (
                        has_prefix_entry(self.entries@, self.paths@[j], x) || (x == event_id
                        && self.paths@[j].is_prefix_of(key@) && self.paths@[j].len() <= i)));
                    if j != next as int {
                        assert(self.postings@[j] == before[j]);
                        if self.paths@[j].is_prefix_of(key@) && self.paths@[j].len() == i + 1 {
                            assert(self.paths@[j] =~= key@.take(i + 1));
                            self.lemma_path_unique(j, next as int);
                        }
                    } else {
                        assert(key@.take(i + 1).is_prefix_of(key@));
                    }
                }
                assert forall|j: int| 0 <= j < self.children.len() implies sorted_unique(#[trigger] self.postings@[j]@) by {
                    if j == next as int {
                        let old_p = before[j]@;
                        if old_p.len() > 0 && old_p.last() != event_id {
                            assert(old_p.contains(old_p.last()));
                            assert(old_p.last() <= event_id);
                        }
                    }
                }
            }
            node = next;
            i += 1;
        }
        proof {
            assert(key@.take(key.len() as int) =~= key@);
            assert forall|x: usize| #[trigger] self.terminal@[node as int]@.contains(x) implies x <= event_id by {
            }
        }
        let ghost before_t = self.terminal@;
        push_unique(&mut self.terminal[node], event_id);
        proof {
            self.entries@ = entries0.insert((key@, event_id));
            assert forall|j: int, x: usize|
                0 <= j < self.children.len() implies (#[trigger] self.terminal@[j]@.contains(x)
                    <==> self.entries@.contains((self.paths@[j], x))) by {
                if j != node as int {
                    assert(self.terminal@[j] == before_t[j]);
                    if self.paths@[j] == key@ {
                        self.lemma_path_unique(j, node as int);
                    }
                }
            }
            assert forall|j: int| 0 <= j < self.children.len() implies sorted_unique(#[trigger] self.terminal@[j]@) by {
                if j == node as int {
                    let old_t = before_t[j]@;
                    if old_t.len() > 0 && old_t.last() != event_id {
                        assert(old_t.contains(old_t.last()));
                    }
                }
            }
            assert(walk(self.child_maps(), 0, key@) == Some(node as int));
            assert forall|kk: Seq<char>, x: usize, j: int|
                #![trigger self.entries@.contains((kk, x)), walk(self.child_maps(), 0, kk.take(j))]
                self.entries@.contains((kk, x)) && 0 <= j <= kk.len() implies walk(self.child_maps(), 0, kk.take(j)) is Some by {
                if kk == key@ && x == event_id {
                    lemma_walk_concat(self.child_maps(), 0, key@.take(j), key@.skip(j));
                    assert(key@.take(j) + key@.skip(j) =~= key@);
                } else {
                    assert(entries0.contains((kk, x)));
                }
            }
            assert forall|j: int, x: usize|
                0 <= j < self.children.len() implies (#[trigger] self.postings@[j]@.contains(x) <==> has_prefix_entry(
                    self.entries@,
                    self.paths@[j],
                    x,
                )) by {
                if x == event_id && self.paths@[j].is_prefix_of(key@) {
                    assert(self.entries@.contains((key@, event_id)));
                }
                if has_prefix_entry(self.entries@, self.paths@[j], x) {
                    let kk = choose|kk: Seq<char>| self.entries@.contains((kk, x)) && #[trigger] self.paths@[j].is_prefix_of(kk);
                    if kk != key@ || x != event_id {
                        assert(entries0.contains((kk, x)));
                    }
                }
            }
        }
    }

    /// Ids stored under keys that start with `prefix`, in increasing order.
    pub fn find(&self, prefix: &[char]) -> (r: Vec<usize>)
        requires
            self.wf(),
        ensures
            sorted_unique(r@),
            forall|x: usize| r@.contains(x) <==> has_prefix_entry(self.contents(), prefix@, x),
    {
        match self.locate(prefix) {
            None => {
                let r: Vec<usize> = Vec::new();
                proof {
                    assert forall|x: usize| !has_prefix_entry(self.contents(), prefix@, x) by {
                        if has_prefix_entry(self.contents(), prefix@, x) {
                            let k = choose|k: Seq<char>|
                                self.entries@.contains((k, x)) && #[trigger] prefix@.is_prefix_of(k);
                            assert(k.take(prefix@.len() as int) =~= prefix@);
                            assert(walk(self.child_maps(), 0, k.take(prefix@.len() as int)) is Some);
                        }
                    }
                }
                r
            },
            Some(n) => {
                let r = copy_ids(&self.postings[n]);
                r
            },
        }
    }

    /// Ids stored under exactly `key`, in increasing order.
    pub fn find_exact(&self, key: &[char]) -> (r: Vec<usize>)
        requires
            self.wf(),
        ensures
            sorted_unique(r@),
            forall|x: usize| r@.contains(x) <==> self.contents().contains((key@, x)),
    {
        match self.locate(key) {
            None => {
                let r: Vec<usize> = Vec::new();
                proof {
                    assert forall|x: usize| !self.contents().contains((key@, x)) by {
                        if self.contents().contains((key@, x)) {
                            assert(key@.take(key@.len() as int) =~= key@);
                            assert(walk(self.child_maps(), 0, key@.take(key@.len() as int)) is Some);
                        }
                    }
                }
                r
            },
            Some(n) => copy_ids(&self.terminal[n]),
        }
    }

    /// The node that `p` leads to, if any.
    fn locate(&self, p: &[char]) -> (r: Option<usize>)
        requires
            self.wf(),
        ensures
            match r {
                Some(n) => n < self.children.len() && self.paths@[n as int] == p@,
                None => walk(self.child_maps(), 0, p@) is None,
            },
    {
        let ghost ch = self.child_maps();
        let mut node: usize = 0;
        let mut i: usize = 0;
        assert(p@.skip(0) =~= p@);
        while i < p.len()
            invariant
                self.wf(),
                ch == self.child_maps(),
                i <= p.len(),
                node < self.children.len(),
                self.paths@[node as int] == p@.take(i as int),
                walk(ch, 0, p@) == walk(ch, node as int, p@.skip(i as int)),
            decreases p.len() - i,
        {
            let key: u32 = p[i] as u32;
            assert(p@.skip(i as int)[0] == p[i as int]);
            assert(ch[node as int] == self.children@[node as int]@);
            match self.children[node].get(&key) {
                None => {
                    return None;
                },
                Some(next) => {
                    proof {
                        self.lemma_child(node as int, p[i as int]);
                    }
                    assert(p@.skip(i as int).drop_first() =~= p@.skip(i + 1));
                    assert(p@.take(i as int).push(p[i as int]) =~= p@.take(i + 1));
                    node = *next;
                },
            }
            i += 1;
        }
        assert(p@.take(p.len() as int) =~= p@);
        Some(node)
    }
}

/// Distinct characters have distinct keys.
proof fn lemma_char_key_injective(a: char, b: char)
    requires
        a as u32 == b as u32,
    ensures
        a == b,
{
    assert(a as int == b as int);
}

/// Following `p` then `q` is following `p + q`.
proof fn lemma_walk_concat(ch: Seq<Map<u32, usize>>, n: int, p: Seq<char>, q: Seq<char>)
    ensures
        walk(ch, n, p + q) == match walk(ch, n, p) {
            Some(m) => walk(ch, m, q),
            None => None,
        },
    decreases p.len(),
{
    if p.len() == 0 {
        assert(p + q =~= q);
    } else {
        assert((p + q)[0] == p[0]);
        assert((p + q).drop_first() =~= p.drop_first() + q);
        if 0 <= n < ch.len() && ch[n].contains_key(p[0] as u32) {
            lemma_walk_concat(ch, ch[n][p[0] as u32] as int, p.drop_first(), q);
        }
    }
}

/// One more step of a walk.
proof fn lemma_walk_push(ch: Seq<Map<u32, usize>>, n: int, p: Seq<char>, c: char)
    ensures
        walk(ch, n, p.push(c)) == match walk(ch, n, p) {
            Some(m) => if 0 <= m < ch.len() && ch[m].contains_key(c as u32) {
                Some(ch[m][c as u32] as int)
            } else {
                None
            },
            None => None,
        },
{
    lemma_walk_concat(ch, n, p, seq![c]);
    assert(p + seq![c] =~= p.push(c));
    match walk(ch, n, p) {
        Some(m) => {
            assert(seq![c].drop_first() =~= Seq::<char>::empty());
            assert(seq![c][0] == c);
            if 0 <= m < ch.len() && ch[m].contains_key(c as u32) {
                assert(walk(ch, ch[m][c as u32] as int, Seq::<char>::empty()) == Some(
                    ch[m][c as u32] as int,
                ));
            }
        },
        None => {},
    }
}

/// Adding nodes and edges keeps every existing walk.
proof fn lemma_walk_grow(ch: Seq<Map<u32, usize>>, ch2: Seq<Map<u32, usize>>, n: int, p: Seq<char>)
    requires
        ch.len() <= ch2.len(),
        forall|i: int, k: u32|
            0 <= i < ch.len() && #[trigger] ch[i].contains_key(k) ==> ch2[i].contains_key(k)
                && ch2[i][k] == ch[i][k],
    ensures
        walk(ch, n, p) matches Some(m) ==> walk(ch2, n, p) == Some(m),
    decreases p.len(),
{
    if p.len() > 0 && 0 <= n < ch.len() && ch[n].contains_key(p[0] as u32) {
        lemma_walk_grow(ch, ch2, ch[n][p[0] as u32] as int, p.drop_first());
    }
}

fn copy_ids(v: &Vec<usize>) -> (r: Vec<usize>)
    ensures
        r@ == v@,
{
    let mut r: Vec<usize> = Vec::new();
    let mut i: usize = 0;
    while i < v.len()
        invariant
            i <= v.len(),
            r@ == v@.take(i as int),
        decreases v.len() - i,
    {
        r.push(v[i]);
        assert(r@ =~= v@.take(i + 1));
        i += 1;
    }
    assert(v@.take(v.len() as int) =~= v@);
    r
}

} // verus!
