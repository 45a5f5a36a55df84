use vstd::prelude::*;
use std::collections::HashMap;
use crate::labels::{label_set, labels_distinct, tag_list_ok, tags_view, insert_label, merge_labels, list_has};

verus! {

/// Visibility of a node. `Private` is inherited by the whole subtree.
#[derive(Clone, Copy, Debug, PartialEq, Eq, Structural)]
pub enum Permission {
    Public,
    Private,
}

/// Why an operation on the tree was declined; the tree is then unchanged.
#[derive(Clone, Copy, Debug, PartialEq, Eq, Structural)]
pub enum TreeError {
    /// A node with this key already exists.
    DuplicateKey,
    /// A key names no node.
    MissingNode,
    /// A node cannot be its own parent.
    SelfParent,
    /// The child already has a parent; use `move_subtree` instead.
    AlreadyParented,
    /// The move or link would put a node beneath itself.
    CycleDetected,
}

/// One node: its key, visibility, direct children and optional tag list.
#[derive(Debug)]
pub struct TreeNode {
    pub id: u32,
    pub permission: Permission,
    pub children: Vec<u32>,
    pub tags: Option<Vec<String>>,
}

/// The forest: nodes by key and the parent of every node that has one.
pub struct Tree {
    pub nodes: HashMap<u32, TreeNode>,
    pub parent_map: HashMap<u32, u32>,
    /// Depth-like measure: every child ranks above its parent.
    pub rank: Ghost<Map<u32, nat>>,
    /// Strict upper bound on every rank.
    pub bound: Ghost<nat>,
}

/// `a` lies on the parent chain of `v`, following links only while the rank drops.
pub open spec fn ancestor_in(par: Map<u32, u32>, rank: Map<u32, nat>, a: u32, v: u32) -> bool
    decreases rank[v],
{
    if par.contains_key(v) && rank[par[v]] < rank[v] {
        par[v] == a || ancestor_in(par, rank, a, par[v])
    } else {
        false
    }
}

/// Every node that `n` holds private was private in `o`, or has a private parent in `n`;
/// no private node of `o` is public in `n`.
pub open spec fn vis_follows(o: &Tree, n: &Tree, k: u32) -> bool {
    &&& o.perm_of(k) == Permission::Private ==> n.perm_of(k) == Permission::Private
    &&& n.perm_of(k) == Permission::Private && o.perm_of(k) == Permission::Public ==> n.has_parent(k)
        && n.perm_of(n.parent_of(k)) == Permission::Private
}

/// The tags of `k` in `n` are those it had in `o`, and some of those of its parent in `n`.
pub open spec fn tags_follow(o: &Tree, n: &Tree, k: u32) -> bool {
    &&& o.tags_of(k).subset_of(n.tags_of(k))
    &&& n.tags_of(k).subset_of(o.tags_of(k).union(n.inherited(k)))
}

/// Adds every label of `src` to an optional tag list, creating it when absent.
fn absorb_labels(dst: &mut Option<Vec<String>>, src: &Vec<String>)
    requires
        src@.len() > 0,
    ensures
        tags_view(*final(dst)) == tags_view(*old(dst)).union(label_set(src@)),
        final(dst).is_some(),
        tag_list_ok(*old(dst)) ==> tag_list_ok(*final(dst)),
{
    match dst {
        Some(list) => {
            merge_labels(list, src);
        },
        None => {
            let mut fresh: Vec<String> = Vec::new();
            assert(labels_distinct(fresh@));
            merge_labels(&mut fresh, src);
            assert(label_set(Seq::<String>::empty()) =~= Set::<Seq<char>>::empty());
            assert(Set::<Seq<char>>::empty().union(label_set(src@)) =~= label_set(src@));
            *dst = Some(fresh);
        },
    }
}

/// The child list of `k` once `x` leaves its old parent's list, keeping the order
/// of the others, and is appended to the list of `y`.
pub open spec fn children_after(o: &Tree, x: u32, y: u32, k: u32) -> Seq<u32> {
    let kept = if o.has_parent(x) && k == o.parent_of(x) {
        o.children_of(k).remove(o.children_of(k).index_of(x))
    } else {
        o.children_of(k)
    };
    if k == y {
        kept.push(x)
    } else {
        kept
    }
}

/// `n` is `o` with `x` placed under `y` and the attributes of every node re-derived
/// from its new ancestors.
pub open spec fn relinked(o: &Tree, n: &Tree, x: u32, y: u32) -> bool {
    &&& n.nodes@.dom() == o.nodes@.dom()
    &&& forall|k: u32| #[trigger] o.has_node(k) ==> n.children_of(k) == children_after(o, x, y, k)
    &&& n.parent_map@ == o.parent_map@.insert(x, y)
    &&& forall|k: u32| #[trigger] o.has_node(k) ==> vis_follows(o, n, k) && tags_follow(o, n, k)
}

/// Cutting one parent link adds no ancestor.
pub proof fn lemma_ancestor_after_cut(par: Map<u32, u32>, rank: Map<u32, nat>, x: u32, a: u32, v: u32)
    requires
        ancestor_in(par.remove(x), rank, a, v),
    ensures
        ancestor_in(par, rank, a, v),
    decreases rank[v],
{
    let cut = par.remove(x);
    if cut[v] != a {
        lemma_ancestor_after_cut(par, rank, x, a, cut[v]);
    }
}

/// An ancestor ranks below each of its descendants.
pub proof fn lemma_ancestor_rank(par: Map<u32, u32>, rank: Map<u32, nat>, a: u32, v: u32)
    requires
        ancestor_in(par, rank, a, v),
    ensures
        rank[a] < rank[v],
    decreases rank[v],
{
    if par[v] != a {
        lemma_ancestor_rank(par, rank, a, par[v]);
    }
}

/// What lies above an ancestor of `k` lies above `k`.
pub proof fn lemma_ancestor_trans(par: Map<u32, u32>, rank: Map<u32, nat>, a: u32, b: u32, k: u32)
    requires
        ancestor_in(par, rank, a, b),
        ancestor_in(par, rank, b, k),
    ensures
        ancestor_in(par, rank, a, k),
    decreases rank[k],
{
    if par[k] != b {
        lemma_ancestor_trans(par, rank, a, b, par[k]);
    }
}

impl TreeNode {
    /// Whether the node carries the tag `tag`.
    pub fn has_tag(&self, tag: &str) -> (r: bool)
        ensures
            r == tags_view(self.tags).contains(tag@),
    {
        match &self.tags {
            Some(list) => {
                let t = tag.to_owned();
                list_has(list, &t)
            },
            None => false,
        }
    }
}

impl Tree {
    pub open spec fn has_node(&self, k: u32) -> bool {
        self.nodes@.contains_key(k)
    }

    pub open spec fn has_parent(&self, k: u32) -> bool {
        self.parent_map@.contains_key(k)
    }

    pub open spec fn parent_of(&self, k: u32) -> u32 {
        self.parent_map@[k]
    }

    pub open spec fn perm_of(&self, k: u32) -> Permission {
        self.nodes@[k].permission
    }

    pub open spec fn tags_of(&self, k: u32) -> Set<Seq<char>> {
        tags_view(self.nodes@[k].tags)
    }

    pub open spec fn children_of(&self, k: u32) -> Seq<u32> {
        self.nodes@[k].children@
    }

    /// The tags that `k` receives from its parent; a root receives none.
    pub open spec fn inherited(&self, k: u32) -> Set<Seq<char>> {
        if self.has_parent(k) {
            self.tags_of(self.parent_of(k))
        } else {
            Set::empty()
        }
    }

    /// Keys, child lists and the parent map agree with each other.
    pub open spec fn linked(&self) -> bool {
        &&& forall|k: u32| #[trigger] self.has_node(k) ==> self.nodes@[k].id == k
        &&& forall|k: u32| #[trigger] self.has_node(k) ==> self.children_of(k).no_duplicates()
        &&& forall|c: u32| #[trigger] self.has_parent(c) ==> self.has_node(c)
            && self.has_node(self.parent_of(c)) && self.children_of(self.parent_of(c)).contains(c)
        &&& forall|p: u32, i: int| #[trigger] self.has_node(p) && 0 <= i < self.children_of(p).len()
            ==> self.has_parent(#[trigger] self.children_of(p)[i]) && self.parent_of(self.children_of(p)[i]) == p
        &&& forall|k: u32| #[trigger] self.has_node(k)
            ==> tag_list_ok(self.nodes@[k].tags)
    }

    /// A private parent has a private child.
    pub open spec fn vis_edge_ok(&self, c: u32) -> bool {
        self.perm_of(self.parent_of(c)) == Permission::Private ==> self.perm_of(c) == Permission::Private
    }

    /// A child holds every tag of its parent.
    pub open spec fn tag_edge_ok(&self, c: u32) -> bool {
        self.tags_of(self.parent_of(c)).subset_of(self.tags_of(c))
    }

    /// Both attributes agree along every parent link.
    pub open spec fn coherent(&self) -> bool {
        forall|c: u32| #[trigger] self.has_parent(c) ==> self.vis_edge_ok(c) && self.tag_edge_ok(c)
    }

    /// Following parent links always ends: ranks rise strictly from parent to child.
    pub closed spec fn acyclic(&self) -> bool {
        &&& self.bound@ > 0
        &&& forall|k: u32| #[trigger] self.has_node(k) ==> self.rank@.contains_key(k) && self.rank@[k] < self.bound@
        &&& forall|c: u32| #[trigger] self.has_parent(c) ==> self.rank@[self.parent_of(c)] < self.rank@[c]
    }

    pub open spec fn wf(&self) -> bool {
        self.linked() && self.coherent() && self.acyclic()
    }

    /// `a` lies on the parent chain of `v` (strictly above it).
    pub closed spec fn is_ancestor(&self, a: u32, v: u32) -> bool {
        ancestor_in(self.parent_map@, self.rank@, a, v)
    }

    /// Same keys, child lists, parent links and ranks; only attributes may differ.
    pub open spec fn same_frame(&self, o: &Tree) -> bool {
        &&& self.nodes@.dom() == o.nodes@.dom()
        &&& self.parent_map@ == o.parent_map@
        &&& self.rank@ == o.rank@
        &&& self.bound@ == o.bound@
        &&& forall|k: u32| #[trigger] o.has_node(k) ==> self.nodes@[k].id == o.nodes@[k].id
            && self.children_of(k) == o.children_of(k)
    }

    proof fn lemma_frame_keeps_shape(&self, o: &Tree)
        requires
            o.linked(),
            o.acyclic(),
            self.same_frame(o),
            forall|k: u32| #[trigger] self.has_node(k)
                ==> tag_list_ok(self.nodes@[k].tags),
        ensures
            self.linked(),
            self.acyclic(),
    {
        assert forall|k: u32| #[trigger] self.has_node(k) implies self.nodes@[k].id == k
            && self.children_of(k).no_duplicates() by {
            assert(o.has_node(k));
        }
        assert forall|c: u32| #[trigger] self.has_parent(c) implies self.has_node(c)
            && self.has_node(self.parent_of(c)) && self.children_of(self.parent_of(c)).contains(c) by {
            assert(o.has_parent(c));
            assert(o.has_node(o.parent_of(c)));
        }
        assert forall|p: u32, i: int| #[trigger] self.has_node(p) && 0 <= i < self.children_of(p).len()
            implies self.has_parent(#[trigger] self.children_of(p)[i]) && self.parent_of(self.children_of(p)[i]) == p by {
            assert(o.has_node(p));
            assert(o.children_of(p)[i] == self.children_of(p)[i]);
        }
        assert forall|k: u32| #[trigger] self.has_node(k) implies self.rank@.contains_key(k) && self.rank@[k] < self.bound@ by {
            assert(o.has_node(k));
        }
        assert forall|c: u32| #[trigger] self.has_parent(c) implies self.rank@[self.parent_of(c)] < self.rank@[c] by {
            assert(o.has_parent(c));
        }
    }

    proof fn lemma_frame_trans(&self, b: &Tree, a: &Tree)
        requires
            self.same_frame(b),
            b.same_frame(a),
        ensures
            self.same_frame(a),
    {
        assert forall|k: u32| #[trigger] a.has_node(k) implies self.nodes@[k].id == a.nodes@[k].id
            && self.children_of(k) == a.children_of(k) by {
            assert(b.has_node(k));
        }
    }

    /// Replaces the visibility of node `v`, leaving everything else as it was.
    fn set_permission(&mut self, v: u32, permission: Permission)
        requires
            old(self).has_node(v),
        ensures
            final(self).same_frame(old(self)),
            final(self).perm_of(v) == permission,
            final(self).nodes@[v].tags == old(self).nodes@[v].tags,
            forall|k: u32| k != v && #[trigger] old(self).has_node(k) ==> final(self).nodes@[k] == old(self).nodes@[k],
    {
        let mut node = self.nodes.remove(&v).unwrap();
        node.permission = permission;
        self.nodes.insert(v, node);
        assert(self.nodes@.dom() =~= old(self).nodes@.dom());
    }

    /// Pushes privacy down from the parent of `v` through the subtree of `v`,
    /// stopping at nodes that are already private.
    fn update_permission(&mut self, v: u32, Ghost(pending): Ghost<Set<u32>>)
        requires
            old(self).linked(),
            old(self).acyclic(),
            old(self).has_node(v),
            forall|c: u32| #[trigger] pending.contains(c) ==> c != v && !old(self).is_ancestor(v, c),
            forall|c: u32| #[trigger] old(self).has_parent(c) && c != v && !pending.contains(c)
                ==> old(self).vis_edge_ok(c),
        ensures
            final(self).linked(),
            final(self).acyclic(),
            final(self).same_frame(old(self)),
            forall|k: u32| #[trigger] old(self).has_node(k) ==> final(self).nodes@[k].tags == old(self).nodes@[k].tags,
            forall|c: u32| #[trigger] final(self).has_parent(c) && !pending.contains(c) ==> final(self).vis_edge_ok(c),
            forall|k: u32| #[trigger] old(self).has_node(k) ==> vis_follows(old(self), final(self), k),
            forall|c: u32| #[trigger] final(self).has_parent(c) && (c == v || old(self).is_ancestor(v, c))
                ==> final(self).vis_edge_ok(c),
            forall|k: u32| #[trigger] old(self).has_node(k) && k != v && !old(self).is_ancestor(v, k)
                ==> final(self).nodes@[k] == old(self).nodes@[k],
            old(self).perm_of(v) == Permission::Private ==> *final(self) == *old(self),
        decreases old(self).bound@ - old(self).rank@[v],
    {
        let ghost first = *self;
        if self.nodes.get(&v).unwrap().permission == Permission::Private {
            assert forall|c: u32| #[trigger] self.has_parent(c) && (c == v || first.is_ancestor(v, c))
                implies self.vis_edge_ok(c) by {
                if c != v {
                    assert(!pending.contains(c));
                }
            }
            return;
        }
        match self.parent_map.get(&v) {
            Some(pr) => {
                let p = *pr;
                assert(self.has_parent(v));
                if self.nodes.get(&p).unwrap().permission == Permission::Private {
                    self.set_permission(v, Permission::Private);
                }
            },
            None => {},
        }
        proof {
            assert forall|k: u32| #[trigger] self.has_node(k)
                implies tag_list_ok(self.nodes@[k].tags) by {
                assert(first.has_node(k));
            }
            self.lemma_frame_keeps_shape(&first);
        }
        let kids = self.nodes.get(&v).unwrap().children.clone();
        assert(kids@ == self.children_of(v));
        assert forall|c: u32| #[trigger] self.has_parent(c) && !pending.contains(c)
            && !kids@.subrange(0, kids@.len() as int).contains(c) implies self.vis_edge_ok(c) by {
            assert(kids@.subrange(0, kids@.len() as int) == kids@);
            if c != v {
                assert(first.has_parent(c));
                if self.parent_of(c) == v {
                    assert(self.children_of(v).contains(c));
                }
            }
        }
        assert forall|k: u32| #[trigger] first.has_node(k) implies vis_follows(&first, self, k) by {}
        let mut i: usize = 0;
        while i < kids.len()
            invariant
                i <= kids@.len(),
                self.linked(),
                self.acyclic(),
                self.same_frame(&first),
                first.rank@ == old(self).rank@,
                first.bound@ == old(self).bound@,
                self.has_node(v),
                kids@ == self.children_of(v),
                forall|c: u32| #[trigger] pending.contains(c) ==> c != v && !first.is_ancestor(v, c),
                forall|k: u32| #[trigger] first.has_node(k) && k != v && !first.is_ancestor(v, k)
                    ==> self.nodes@[k] == first.nodes@[k],
                forall|k: u32| #[trigger] first.has_node(k) ==> self.nodes@[k].tags == first.nodes@[k].tags,
                forall|c: u32| #[trigger] self.has_parent(c) && !pending.contains(c)
                    && !kids@.subrange(i as int, kids@.len() as int).contains(c) ==> self.vis_edge_ok(c),
                forall|k: u32| #[trigger] first.has_node(k) ==> vis_follows(&first, self, k),
            decreases kids@.len() - i,
        {
            let ghost mid = *self;
            let ghost rest = kids@.subrange(i as int + 1, kids@.len() as int).to_set();
            let c = kids[i];
            assert(self.has_parent(c) && self.parent_of(c) == v);
            assert(first.rank@[v] < first.rank@[c]);
            assert forall|d: u32| #[trigger] self.has_parent(d) && d != c && !pending.union(rest).contains(d)
                implies self.vis_edge_ok(d) by {
                if kids@.subrange(i as int, kids@.len() as int).contains(d) {
                    let j = choose|j: int| 0 <= j < kids@.len() - i && kids@.subrange(i as int, kids@.len() as int)[j] == d;
                    if j > 0 {
                        assert(kids@.subrange(i as int + 1, kids@.len() as int)[j - 1] == d);
                    }
                }
            }
            assert(first.has_node(c));
            assert(self.rank@[c] < self.bound@);
            assert(first.rank@ == old(self).rank@ && first.bound@ == old(self).bound@);
            assert(old(self).rank@[v] < self.rank@[c]);
            assert(ancestor_in(first.parent_map@, first.rank@, v, c));
            assert forall|d: u32| #[trigger] pending.union(rest).contains(d) implies d != c && !self.is_ancestor(c, d) by {
                if pending.contains(d) {
                    if self.is_ancestor(c, d) {
                        lemma_ancestor_trans(first.parent_map@, first.rank@, v, c, d);
                    }
                } else {
                    let sub = kids@.subrange(i as int + 1, kids@.len() as int);
                    assert(sub.contains(d));
                    let j = choose|j: int| 0 <= j < sub.len() && #[trigger] sub[j] == d;
                    assert(kids@[i as int + 1 + j] == d);
                    assert(self.children_of(v).no_duplicates());
                    assert(self.has_parent(d) && self.parent_of(d) == v);
                    if self.is_ancestor(c, d) {
                        assert(ancestor_in(first.parent_map@, first.rank@, c, v));
                        lemma_ancestor_rank(first.parent_map@, first.rank@, c, v);
                    }
                }
            }
            self.update_permission(c, Ghost(pending.union(rest)));
            assert forall|k: u32| #[trigger] first.has_node(k) && k != v && !first.is_ancestor(v, k)
                implies self.nodes@[k] == first.nodes@[k] by {
                assert(mid.has_node(k));
                if k == c {
                } else if mid.is_ancestor(c, k) {
                    lemma_ancestor_trans(first.parent_map@, first.rank@, v, c, k);
                }
            }
            proof {
                self.lemma_frame_trans(&mid, &first);
            }
            assert forall|d: u32| #[trigger] self.has_parent(d) && !pending.contains(d)
                && !kids@.subrange(i as int + 1, kids@.len() as int).contains(d) implies self.vis_edge_ok(d) by {
                assert(!rest.contains(d));
            }
            assert forall|k: u32| #[trigger] first.has_node(k) implies self.nodes@[k].tags == first.nodes@[k].tags by {
                assert(mid.has_node(k));
            }
            assert forall|k: u32| #[trigger] first.has_node(k) implies vis_follows(&first, self, k) by {
                assert(mid.has_node(k));
                assert(vis_follows(&first, &mid, k));
                assert(vis_follows(&mid, self, k));
                if mid.has_parent(k) {
                    assert(mid.has_node(mid.parent_of(k)));
                    assert(vis_follows(&mid, self, mid.parent_of(k)));
                }
            }
            i += 1;
        }
        assert forall|c: u32| #[trigger] self.has_parent(c) && (c == v || first.is_ancestor(v, c))
            implies self.vis_edge_ok(c) by {
            assert(!pending.contains(c));
        }
    }

    /// Merges the tags of the parent of `v` into `v`, then does the same for every
    /// node below `v`, top down.
    fn update_tags(&mut self, v: u32, Ghost(pending): Ghost<Set<u32>>)
        requires
            old(self).linked(),
            old(self).acyclic(),
            old(self).has_node(v),
            forall|c: u32| #[trigger] pending.contains(c) ==> c != v && !old(self).is_ancestor(v, c),
            forall|c: u32| #[trigger] old(self).has_parent(c) && c != v && old(self).parent_of(c) != v
                && !pending.contains(c) ==> old(self).tag_edge_ok(c),
        ensures
            final(self).linked(),
            final(self).acyclic(),
            final(self).same_frame(old(self)),
            forall|k: u32| #[trigger] old(self).has_node(k) ==> final(self).perm_of(k) == old(self).perm_of(k),
            forall|c: u32| #[trigger] final(self).has_parent(c) && !pending.contains(c) ==> final(self).tag_edge_ok(c),
            forall|k: u32| #[trigger] old(self).has_node(k) ==> tags_follow(old(self), final(self), k),
            forall|c: u32| #[trigger] final(self).has_parent(c) && (c == v || old(self).is_ancestor(v, c))
                ==> final(self).tag_edge_ok(c),
            forall|k: u32| #[trigger] old(self).has_node(k) && k != v && !old(self).is_ancestor(v, k)
                ==> final(self).nodes@[k] == old(self).nodes@[k],
        decreases old(self).bound@ - old(self).rank@[v],
    {
        let ghost first = *self;
        let mut node = self.nodes.remove(&v).unwrap();
        match self.parent_map.get(&v) {
            Some(pr) => {
                let p = *pr;
                assert(first.has_parent(v));
                assert(first.rank@[p] < first.rank@[v]);
                match &self.nodes.get(&p).unwrap().tags {
                    Some(pt) => {
                        assert(first.has_node(p));
                        absorb_labels(&mut node.tags, pt);
                    },
                    None => {},
                }
            },
            None => {},
        }
        self.nodes.insert(v, node);
        assert(self.nodes@.dom() =~= first.nodes@.dom());
        assert(self.tags_of(v) == first.tags_of(v).union(first.inherited(v)));
        proof {
            assert forall|k: u32| #[trigger] self.has_node(k)
                implies tag_list_ok(self.nodes@[k].tags) by {
                assert(first.has_node(k));
            }
            self.lemma_frame_keeps_shape(&first);
        }
        let kids = self.nodes.get(&v).unwrap().children.clone();
        assert(kids@ == self.children_of(v));
        assert forall|c: u32| #[trigger] self.has_parent(c) && !pending.contains(c)
            && !kids@.subrange(0, kids@.len() as int).contains(c) implies self.tag_edge_ok(c) by {
            assert(kids@.subrange(0, kids@.len() as int) == kids@);
            assert(first.has_parent(c));
            if self.parent_of(c) == v {
                assert(self.children_of(v).contains(c));
            }
            if c == v {
                assert(self.parent_of(v) != v);
            }
        }
        assert forall|k: u32| #[trigger] first.has_node(k) implies tags_follow(&first, self, k) by {
            if k == v && first.has_parent(v) {
                assert(self.parent_of(v) != v);
            }
        }
        let mut i: usize = 0;
        while i < kids.len()
            invariant
                i <= kids@.len(),
                self.linked(),
                self.acyclic(),
                self.same_frame(&first),
                first.rank@ == old(self).rank@,
                first.bound@ == old(self).bound@,
                self.has_node(v),
                kids@ == self.children_of(v),
                forall|c: u32| #[trigger] pending.contains(c) ==> c != v && !first.is_ancestor(v, c),
                forall|k: u32| #[trigger] first.has_node(k) && k != v && !first.is_ancestor(v, k)
                    ==> self.nodes@[k] == first.nodes@[k],
                forall|k: u32| #[trigger] first.has_node(k) ==> self.perm_of(k) == first.perm_of(k),
                forall|c: u32| #[trigger] self.has_parent(c) && !pending.contains(c)
                    && !kids@.subrange(i as int, kids@.len() as int).contains(c) ==> self.tag_edge_ok(c),
                forall|k: u32| #[trigger] first.has_node(k) ==> tags_follow(&first, self, k),
            decreases kids@.len() - i,
        {
            let ghost mid = *self;
            let ghost rest = kids@.subrange(i as int + 1, kids@.len() as int).to_set();
            let c = kids[i];
            assert(self.has_parent(c) && self.parent_of(c) == v);
            assert(first.has_node(c));
            assert(self.rank@[c] < self.bound@);
            assert(old(self).rank@[v] < self.rank@[c]);
            assert forall|d: u32| #[trigger] self.has_parent(d) && d != c && self.parent_of(d) != c
                && !pending.union(rest).contains(d) implies self.tag_edge_ok(d) by {
                if kids@.subrange(i as int, kids@.len() as int).contains(d) {
                    let j = choose|j: int| 0 <= j < kids@.len() - i && kids@.subrange(i as int, kids@.len() as int)[j] == d;
                    if j > 0 {
                        assert(kids@.subrange(i as int + 1, kids@.len() as int)[j - 1] == d);
                    }
                }
            }
            assert(ancestor_in(first.parent_map@, first.rank@, v, c));
            assert forall|d: u32| #[trigger] pending.union(rest).contains(d) implies d != c && !self.is_ancestor(c, d) by {
                if pending.contains(d) {
                    if self.is_ancestor(c, d) {
                        lemma_ancestor_trans(first.parent_map@, first.rank@, v, c, d);
                    }
                } else {
                    let sub = kids@.subrange(i as int + 1, kids@.len() as int);
                    assert(sub.contains(d));
                    let j = choose|j: int| 0 <= j < sub.len() && #[trigger] sub[j] == d;
                    assert(kids@[i as int + 1 + j] == d);
                    assert(self.children_of(v).no_duplicates());
                    assert(self.has_parent(d) && self.parent_of(d) == v);
                    if self.is_ancestor(c, d) {
                        assert(ancestor_in(first.parent_map@, first.rank@, c, v));
                        lemma_ancestor_rank(first.parent_map@, first.rank@, c, v);
                    }
                }
            }
            self.update_tags(c, Ghost(pending.union(rest)));
            assert forall|k: u32| #[trigger] first.has_node(k) && k != v && !first.is_ancestor(v, k)
                implies self.nodes@[k] == first.nodes@[k] by {
                assert(mid.has_node(k));
                if k == c {
                } else if mid.is_ancestor(c, k) {
                    lemma_ancestor_trans(first.parent_map@, first.rank@, v, c, k);
                }
            }
            proof {
                self.lemma_frame_trans(&mid, &first);
            }
            assert forall|d: u32| #[trigger] self.has_parent(d) && !pending.contains(d)
                && !kids@.subrange(i as int + 1, kids@.len() as int).contains(d) implies self.tag_edge_ok(d) by {
                assert(!rest.contains(d));
            }
            assert forall|k: u32| #[trigger] first.has_node(k) implies self.perm_of(k) == first.perm_of(k) by {
                assert(mid.has_node(k));
            }
            assert forall|k: u32| #[trigger] first.has_node(k) implies tags_follow(&first, self, k) by {
                assert(mid.has_node(k));
                assert(tags_follow(&first, &mid, k));
                assert(tags_follow(&mid, self, k));
                if mid.has_parent(k) {
                    assert(mid.has_node(mid.parent_of(k)));
                    assert(tags_follow(&mid, self, mid.parent_of(k)));
                }
            }
            i += 1;
        }
        assert forall|c: u32| #[trigger] self.has_parent(c) && (c == v || first.is_ancestor(v, c))
            implies self.tag_edge_ok(c) by {
            assert(!pending.contains(c));
        }
    }

    /// Makes the root `x` a child of `y`, which is not below `x`, and re-derives the
    /// attributes of the subtree of `x` from its new ancestors.
    fn attach(&mut self, x: u32, y: u32)
        requires
            old(self).wf(),
            old(self).has_node(x),
            old(self).has_node(y),
            x != y,
            !old(self).has_parent(x),
            !old(self).is_ancestor(x, y),
        ensures
            final(self).wf(),
            final(self).nodes@.dom() == old(self).nodes@.dom(),
            final(self).parent_map@ == old(self).parent_map@.insert(x, y),
            forall|k: u32| #[trigger] old(self).has_node(k) ==> vis_follows(old(self), final(self), k)
                && tags_follow(old(self), final(self), k),
            forall|k: u32| #[trigger] old(self).has_node(k) ==> final(self).children_of(k)
                == if k == y { old(self).children_of(k).push(x) } else { old(self).children_of(k) },
    {
        let ghost before = *self;
        let ghost par = self.parent_map@;
        let ghost rk = self.rank@;
        let ghost shift: nat = rk[y] + 1;
        let mut ynode = self.nodes.remove(&y).unwrap();
        ynode.children.push(x);
        self.nodes.insert(y, ynode);
        self.parent_map.insert(x, y);
        self.rank = Ghost(Map::new(
            |k: u32| rk.contains_key(k),
            |k: u32| if k == x || ancestor_in(par, rk, x, k) { rk[k] + shift } else { rk[k] },
        ));
        self.bound = Ghost(before.bound@ + shift);
        assert(self.nodes@.dom() =~= before.nodes@.dom());
        assert(!before.children_of(y).contains(x));
        assert(before.has_node(y) && before.rank@[y] < before.bound@);
        assert(!ancestor_in(par, rk, x, y));
        assert(self.linked()) by {
            assert forall|k: u32| #[trigger] self.has_node(k) implies self.nodes@[k].id == k
                && self.children_of(k).no_duplicates()
                && tag_list_ok(self.nodes@[k].tags) by {
                assert(before.has_node(k));
            }
            assert forall|c: u32| #[trigger] self.has_parent(c) implies self.has_node(c)
                && self.has_node(self.parent_of(c)) && self.children_of(self.parent_of(c)).contains(c) by {
                if c != x {
                    assert(before.has_parent(c));
                    assert(before.children_of(before.parent_of(c)).contains(c));
                    if before.parent_of(c) == y {
                        let j = choose|j: int| 0 <= j < before.children_of(y).len() && before.children_of(y)[j] == c;
                        assert(self.children_of(y)[j] == c);
                    }
                } else {
                    assert(self.children_of(y)[before.children_of(y).len() as int] == x);
                }
            }
            assert forall|p: u32, i: int| #[trigger] self.has_node(p) && 0 <= i < self.children_of(p).len()
                implies self.has_parent(#[trigger] self.children_of(p)[i]) && self.parent_of(self.children_of(p)[i]) == p by {
                assert(before.has_node(p));
                if p == y && i == before.children_of(y).len() {
                } else {
                    assert(self.children_of(p)[i] == before.children_of(p)[i]);
                    assert(before.has_parent(before.children_of(p)[i]));
                }
            }
        }
        assert(self.acyclic()) by {
            assert forall|k: u32| #[trigger] self.has_node(k) implies self.rank@.contains_key(k) && self.rank@[k] < self.bound@ by {
                assert(before.has_node(k));
            }
            assert forall|c: u32| #[trigger] self.has_parent(c) implies self.rank@[self.parent_of(c)] < self.rank@[c] by {
                if c != x {
                    assert(before.has_parent(c));
                    let p = par[c];
                    assert(before.has_node(p) && before.has_node(c));
                    assert(rk[p] < rk[c]);
                    if p == x || ancestor_in(par, rk, x, p) {
                        assert(ancestor_in(par, rk, x, c));
                    }
                    if ancestor_in(par, rk, x, c) {
                        assert(p == x || ancestor_in(par, rk, x, p));
                    }
                }
            }
        }
        let ghost joined = *self;
        assert forall|c: u32| #[trigger] self.has_parent(c) && c != x implies self.vis_edge_ok(c) && self.tag_edge_ok(c) by {
            assert(before.has_parent(c));
        }
        self.update_permission(x, Ghost(Set::empty()));
        let ghost shown = *self;
        assert forall|c: u32| #[trigger] self.has_parent(c) && c != x && self.parent_of(c) != x
            && !Set::<u32>::empty().contains(c) implies self.tag_edge_ok(c) by {
            assert(joined.has_parent(c));
            assert(joined.has_node(c) && joined.has_node(joined.parent_of(c)));
        }
        self.update_tags(x, Ghost(Set::empty()));
        assert forall|c: u32| #[trigger] self.has_parent(c) implies self.vis_edge_ok(c) && self.tag_edge_ok(c) by {
            assert(shown.has_parent(c));
            assert(shown.vis_edge_ok(c));
            assert(shown.has_node(c) && shown.has_node(shown.parent_of(c)));
        }
        assert forall|k: u32| #[trigger] before.has_node(k) implies vis_follows(&before, self, k)
            && tags_follow(&before, self, k) by {
            assert(joined.has_node(k));
            assert(shown.has_node(k));
            assert(joined.perm_of(k) == before.perm_of(k));
            assert(joined.tags_of(k) == before.tags_of(k));
            assert(shown.nodes@[k].tags == joined.nodes@[k].tags);
            assert(vis_follows(&joined, &shown, k));
            assert(tags_follow(&shown, self, k));
            assert(self.perm_of(k) == shown.perm_of(k));
            if shown.has_parent(k) {
                assert(shown.has_node(shown.parent_of(k)));
                assert(self.perm_of(shown.parent_of(k)) == shown.perm_of(shown.parent_of(k)));
            }
        }
        assert forall|k: u32| #[trigger] before.has_node(k) implies self.children_of(k)
            == if k == y { before.children_of(k).push(x) } else { before.children_of(k) } by {
            assert(joined.has_node(k) && shown.has_node(k));
        }
    }

    /// Turns `x` into a root: drops its parent link and its entry in the parent's
    /// child list.
    fn detach(&mut self, x: u32)
        requires
            old(self).wf(),
            old(self).has_parent(x),
        ensures
            final(self).wf(),
            final(self).nodes@.dom() == old(self).nodes@.dom(),
            final(self).parent_map@ == old(self).parent_map@.remove(x),
            final(self).rank@ == old(self).rank@,
            forall|k: u32| #[trigger] old(self).has_node(k) ==> final(self).perm_of(k) == old(self).perm_of(k)
                && final(self).nodes@[k].tags == old(self).nodes@[k].tags,
            forall|k: u32| #[trigger] old(self).has_node(k) ==> final(self).children_of(k)
                == if k == old(self).parent_of(x) {
                    old(self).children_of(k).remove(old(self).children_of(k).index_of(x))
                } else {
                    old(self).children_of(k)
                },
    {
        let ghost before = *self;
        let p = *self.parent_map.get(&x).unwrap();
        assert(before.has_node(p) && before.children_of(p).contains(x));
        let mut pnode = self.nodes.remove(&p).unwrap();
        let ghost kids = pnode.children@;
        let n = pnode.children.len();
        let mut i: usize = 0;
        while pnode.children[i] != x
            invariant
                pnode.children@ == kids,
                kids.len() == n,
                kids == before.children_of(p),
                kids.contains(x),
                i < kids.len(),
                forall|j: int| 0 <= j < i ==> kids[j] != x,
            decreases kids.len() - i,
        {
            let ghost w = choose|j: int| 0 <= j < kids.len() && kids[j] == x;
            assert(w > i as int);
            i += 1;
        }
        pnode.children.remove(i);
        self.nodes.insert(p, pnode);
        self.parent_map.remove(&x);
        let ghost rest = kids.remove(i as int);
        assert(self.children_of(p) == rest);
        assert(kids[i as int] == x);
        assert(kids.no_duplicates());
        assert(kids.index_of(x) == i as int);
        assert(self.nodes@.dom() =~= before.nodes@.dom());
        assert(kids.no_duplicates());
        assert(self.linked()) by {
            assert forall|k: u32| #[trigger] self.has_node(k) implies self.nodes@[k].id == k
                && self.children_of(k).no_duplicates()
                && tag_list_ok(self.nodes@[k].tags) by {
                assert(before.has_node(k));
                if k == p {
                    assert forall|a: int, b: int| 0 <= a < rest.len() && 0 <= b < rest.len() && a != b
                        implies rest[a] != rest[b] by {
                        let a0 = if a < i { a } else { a + 1 };
                        let b0 = if b < i { b } else { b + 1 };
                        assert(rest[a] == kids[a0] && rest[b] == kids[b0]);
                    }
                }
            }
            assert forall|c: u32| #[trigger] self.has_parent(c) implies self.has_node(c)
                && self.has_node(self.parent_of(c)) && self.children_of(self.parent_of(c)).contains(c) by {
                assert(before.has_parent(c));
                assert(c != x);
                assert(before.children_of(before.parent_of(c)).contains(c));
                if before.parent_of(c) == p {
                    let j = choose|j: int| 0 <= j < kids.len() && kids[j] == c;
                    assert(j != i);
                    if j < i {
                        assert(rest[j] == c);
                    } else {
                        assert(rest[j - 1] == c);
                    }
                }
            }
            assert forall|q: u32, j: int| #[trigger] self.has_node(q) && 0 <= j < self.children_of(q).len()
                implies self.has_parent(#[trigger] self.children_of(q)[j]) && self.parent_of(self.children_of(q)[j]) == q by {
                assert(before.has_node(q));
                if q == p {
                    let j0 = if j < i { j } else { j + 1 };
                    assert(rest[j] == kids[j0]);
                    assert(j0 != i);
                    assert(kids[j0] != x);
                    assert(before.has_parent(kids[j0]));
                } else {
                    assert(before.has_parent(before.children_of(q)[j]));
                    assert(before.children_of(q)[j] != x);
                }
            }
        }
        assert(self.acyclic()) by {
            assert forall|k: u32| #[trigger] self.has_node(k) implies self.rank@.contains_key(k) && self.rank@[k] < self.bound@ by {
                assert(before.has_node(k));
            }
            assert forall|c: u32| #[trigger] self.has_parent(c) implies self.rank@[self.parent_of(c)] < self.rank@[c] by {
                assert(before.has_parent(c));
            }
        }
        assert(self.coherent()) by {
            assert forall|c: u32| #[trigger] self.has_parent(c) implies self.vis_edge_ok(c) && self.tag_edge_ok(c) by {
                assert(before.has_parent(c));
                assert(before.has_node(c) && before.has_node(before.parent_of(c)));
            }
        }
    }

    pub proof fn lemma_rank_bounded(&self, k: u32)
        requires
            self.wf(),
            self.has_node(k),
        ensures
            self.rank@[k] < self.bound@,
    {
    }

    /// Each listed child of `k` ranks above `k` and below the bound.
    pub proof fn lemma_child_rank(&self, k: u32, i: int)
        requires
            self.wf(),
            self.has_node(k),
            0 <= i < self.children_of(k).len(),
        ensures
            self.rank@[k] < self.rank@[self.children_of(k)[i]],
            self.rank@[self.children_of(k)[i]] < self.bound@,
    {
        let c = self.children_of(k)[i];
        assert(self.has_parent(c) && self.parent_of(c) == k);
        assert(self.has_node(c));
    }

    pub fn new() -> (t: Self)
        ensures
            t.wf(),
            t.nodes@ == Map::<u32, TreeNode>::empty(),
            t.parent_map@ == Map::<u32, u32>::empty(),
    {
        Tree { nodes: HashMap::new(), parent_map: HashMap::new(), rank: Ghost(Map::empty()), bound: Ghost(1) }
    }

    /// Adds a public or private root with no children and no tags.
    pub fn add_node(&mut self, id: u32, permission: Permission) -> (r: Result<(), TreeError>)
        requires
            old(self).wf(),
        ensures
            final(self).wf(),
            r == Err::<(), TreeError>(TreeError::DuplicateKey) <==> old(self).has_node(id),
            r is Ok <==> !old(self).has_node(id),
            r is Err ==> *final(self) == *old(self),
            r is Ok ==> {
                &&& final(self).nodes@.dom() == old(self).nodes@.dom().insert(id)
                &&& final(self).parent_map@ == old(self).parent_map@
                &&& final(self).perm_of(id) == permission
                &&& final(self).children_of(id) == Seq::<u32>::empty()
                &&& final(self).nodes@[id].tags.is_none()
                &&& forall|k: u32| k != id && #[trigger] old(self).has_node(k) ==> final(self).nodes@[k] == old(self).nodes@[k]
            },
    {
        if self.nodes.contains_key(&id) {
            return Err(TreeError::DuplicateKey);
        }
        let ghost before = *self;
        self.nodes.insert(id, TreeNode { id, permission, children: Vec::new(), tags: None });
        self.rank = Ghost(self.rank@.insert(id, 0));
        assert(self.linked()) by {
            assert forall|k: u32| #[trigger] self.has_node(k) implies self.nodes@[k].id == k
                && self.children_of(k).no_duplicates()
                && tag_list_ok(self.nodes@[k].tags) by {
                if k != id {
                    assert(before.has_node(k));
                }
            }
            assert forall|c: u32| #[trigger] self.has_parent(c) implies self.has_node(c)
                && self.has_node(self.parent_of(c)) && self.children_of(self.parent_of(c)).contains(c) by {
                assert(before.has_parent(c));
                assert(self.parent_of(c) != id);
            }
            assert forall|p: u32, i: int| #[trigger] self.has_node(p) && 0 <= i < self.children_of(p).len()
                implies self.has_parent(#[trigger] self.children_of(p)[i]) && self.parent_of(self.children_of(p)[i]) == p by {
                assert(p != id);
                assert(before.has_node(p));
            }
        }
        assert(self.coherent()) by {
            assert forall|c: u32| #[trigger] self.has_parent(c) implies self.vis_edge_ok(c) && self.tag_edge_ok(c) by {
                assert(before.has_parent(c));
                assert(c != id);
                assert(self.parent_of(c) != id);
            }
        }
        assert(self.acyclic()) by {
            assert forall|k: u32| #[trigger] self.has_node(k) implies self.rank@.contains_key(k) && self.rank@[k] < self.bound@ by {
                if k != id {
                    assert(before.has_node(k));
                }
            }
            assert forall|c: u32| #[trigger] self.has_parent(c) implies self.rank@[self.parent_of(c)] < self.rank@[c] by {
                assert(before.has_parent(c));
                assert(c != id);
                assert(self.parent_of(c) != id);
            }
        }
        Ok(())
    }

    /// Makes `parent_id` the parent of the root `child_id`; the subtree of the child
    /// takes on the parent's privacy and tags.
    pub fn connect_nodes(&mut self, parent_id: u32, child_id: u32) -> (r: Result<(), TreeError>)
        requires
            old(self).wf(),
        ensures
            final(self).wf(),
            r == Err::<(), TreeError>(TreeError::MissingNode) <==> !old(self).has_node(parent_id)
                || !old(self).has_node(child_id),
            r == Err::<(), TreeError>(TreeError::SelfParent) <==> old(self).has_node(parent_id)
                && parent_id == child_id,
            r == Err::<(), TreeError>(TreeError::AlreadyParented) <==> old(self).has_node(parent_id)
                && old(self).has_node(child_id) && parent_id != child_id && old(self).has_parent(child_id),
            r == Err::<(), TreeError>(TreeError::CycleDetected) <==> old(self).has_node(parent_id)
                && old(self).has_node(child_id) && parent_id != child_id && !old(self).has_parent(child_id)
                && old(self).is_ancestor(child_id, parent_id),
            r is Ok <==> old(self).has_node(parent_id) && old(self).has_node(child_id) && parent_id != child_id
                && !old(self).has_parent(child_id) && !old(self).is_ancestor(child_id, parent_id),
            r is Err ==> *final(self) == *old(self),
            r is Ok ==> relinked(old(self), final(self), child_id, parent_id),
    {
        if !self.nodes.contains_key(&parent_id) || !self.nodes.contains_key(&child_id) {
            return Err(TreeError::MissingNode);
        }
        if parent_id == child_id {
            return Err(TreeError::SelfParent);
        }
        if self.parent_map.contains_key(&child_id) {
            return Err(TreeError::AlreadyParented);
        }
        if self.is_descendant(child_id, parent_id) {
            return Err(TreeError::CycleDetected);
        }
        self.attach(child_id, parent_id);
        Ok(())
    }

    /// Adds `tag` to node `id`, then passes it on to every node below `id`.
    pub fn add_tag_to_node(&mut self, id: u32, tag: String) -> (r: Result<(), TreeError>)
        requires
            old(self).wf(),
        ensures
            final(self).wf(),
            r == Err::<(), TreeError>(TreeError::MissingNode) <==> !old(self).has_node(id),
            r is Ok <==> old(self).has_node(id),
            r is Err ==> *final(self) == *old(self),
            r is Ok ==> {
                &&& final(self).nodes@.dom() == old(self).nodes@.dom()
                &&& final(self).parent_map@ == old(self).parent_map@
                &&& final(self).tags_of(id).contains(tag@)
                &&& forall|k: u32| #[trigger] old(self).has_node(k) ==> {
                    &&& final(self).children_of(k) == old(self).children_of(k)
                    &&& final(self).perm_of(k) == old(self).perm_of(k)
                    &&& old(self).tags_of(k).subset_of(final(self).tags_of(k))
                    &&& final(self).tags_of(k).subset_of(
                        old(self).tags_of(k).union(final(self).inherited(k)).union(
                            if k == id { set![tag@] } else { Set::empty() }))
                }
            },
    {
        if !self.nodes.contains_key(&id) {
            return Err(TreeError::MissingNode);
        }
        let ghost before = *self;
        let ghost label = tag@;
        let mut node = self.nodes.remove(&id).unwrap();
        match &mut node.tags {
            Some(list) => {
                insert_label(list, tag);
            },
            None => {
                let mut fresh: Vec<String> = Vec::new();
                assert(labels_distinct(fresh@));
                insert_label(&mut fresh, tag);
                assert(label_set(Seq::<String>::empty()) =~= Set::<Seq<char>>::empty());
                node.tags = Some(fresh);
            },
        }
        self.nodes.insert(id, node);
        assert(self.nodes@.dom() =~= before.nodes@.dom());
        assert(self.tags_of(id) == before.tags_of(id).insert(label));
        proof {
            assert forall|k: u32| #[trigger] self.has_node(k)
                implies tag_list_ok(self.nodes@[k].tags) by {
                assert(before.has_node(k));
            }
            self.lemma_frame_keeps_shape(&before);
        }
        let ghost tagged = *self;
        assert forall|c: u32| #[trigger] self.has_parent(c) && c != id && self.parent_of(c) != id
            && !Set::<u32>::empty().contains(c) implies self.tag_edge_ok(c) by {
            assert(before.has_parent(c));
            assert(before.has_node(self.parent_of(c)));
        }
        self.update_tags(id, Ghost(Set::empty()));
        assert forall|c: u32| #[trigger] self.has_parent(c) implies self.vis_edge_ok(c) && self.tag_edge_ok(c) by {
            assert(before.has_parent(c));
            assert(tagged.has_node(c) && tagged.has_node(tagged.parent_of(c)));
        }
        assert forall|k: u32| #[trigger] before.has_node(k) implies {
            &&& self.children_of(k) == before.children_of(k)
            &&& self.perm_of(k) == before.perm_of(k)
            &&& before.tags_of(k).subset_of(self.tags_of(k))
            &&& self.tags_of(k).subset_of(
                before.tags_of(k).union(self.inherited(k)).union(
                    if k == id { set![label] } else { Set::empty() }))
        } by {
            assert(tagged.has_node(k));
            assert(tags_follow(&tagged, self, k));
            if k != id {
                assert(tagged.nodes@[k] == before.nodes@[k]);
            }
        }
        assert(before.has_node(id));
        assert(tagged.has_node(id));
        assert(tags_follow(&tagged, self, id));
        assert(self.tags_of(id).contains(label));
        Ok(())
    }

    /// Moves the subtree rooted at `node_id` beneath `new_parent_id`, then re-derives
    /// the attributes of the moved subtree from its new ancestors.
    pub fn move_subtree(&mut self, node_id: u32, new_parent_id: u32) -> (r: Result<(), TreeError>)
        requires
            old(self).wf(),
        ensures
            final(self).wf(),
            r == Err::<(), TreeError>(TreeError::MissingNode) <==> !old(self).has_node(node_id)
                || !old(self).has_node(new_parent_id),
            r == Err::<(), TreeError>(TreeError::CycleDetected) <==> old(self).has_node(node_id)
                && old(self).has_node(new_parent_id) && (node_id == new_parent_id
                || old(self).is_ancestor(node_id, new_parent_id)),
            r is Ok <==> old(self).has_node(node_id) && old(self).has_node(new_parent_id)
                && node_id != new_parent_id && !old(self).is_ancestor(node_id, new_parent_id),
            r is Err ==> *final(self) == *old(self),
            r is Ok ==> relinked(old(self), final(self), node_id, new_parent_id),
    {
        if !self.nodes.contains_key(&node_id) || !self.nodes.contains_key(&new_parent_id) {
            return Err(TreeError::MissingNode);
        }
        if node_id == new_parent_id || self.is_descendant(node_id, new_parent_id) {
            return Err(TreeError::CycleDetected);
        }
        let ghost before = *self;
        if self.parent_map.contains_key(&node_id) {
            self.detach(node_id);
            proof {
                if self.is_ancestor(node_id, new_parent_id) {
                    lemma_ancestor_after_cut(before.parent_map@, before.rank@, node_id, node_id, new_parent_id);
                }
            }
        }
        let ghost loose = *self;
        self.attach(node_id, new_parent_id);
        assert(self.parent_map@ =~= before.parent_map@.insert(node_id, new_parent_id));
        assert forall|k: u32| #[trigger] before.has_node(k) implies self.children_of(k)
            == children_after(&before, node_id, new_parent_id, k) by {
            assert(loose.has_node(k));
        }
        assert forall|k: u32| #[trigger] before.has_node(k) implies vis_follows(&before, self, k)
            && tags_follow(&before, self, k) by {
            assert(loose.has_node(k));
            assert(loose.perm_of(k) == before.perm_of(k));
            assert(loose.tags_of(k) == before.tags_of(k));
        }
        Ok(())
    }

    /// Whether `node_id` lies on the parent chain of `potential_descendant_id`,
    /// found by walking that chain upward.
    pub fn is_descendant(&self, node_id: u32, potential_descendant_id: u32) -> (r: bool)
        requires
            self.wf(),
        ensures
            r == self.is_ancestor(node_id, potential_descendant_id),
    {
        let mut current_id = potential_descendant_id;
        loop
            invariant
                self.wf(),
                self.is_ancestor(node_id, potential_descendant_id) == self.is_ancestor(node_id, current_id),
                self.has_parent(current_id) ==> self.rank@.contains_key(current_id),
            decreases self.rank@[current_id],
        {
            match self.parent_map.get(&current_id) {
                Some(p) => {
                    let parent_id = *p;
                    assert(self.has_parent(current_id));
                    assert(self.rank@[parent_id] < self.rank@[current_id]);
                    if parent_id == node_id {
                        return true;
                    }
                    assert(self.has_node(parent_id));
                    current_id = parent_id;
                },
                None => {
                    return false;
                },
            }
        }
    }
}

/// `a` lies above `v` exactly when it is the parent of `v` or lies above that
/// parent; nothing lies above a root.
pub proof fn lemma_ancestor_unfold(t: &Tree, a: u32, v: u32)
    requires
        t.wf(),
    ensures
        !t.has_parent(v) ==> !t.is_ancestor(a, v),
        t.has_parent(v) ==> (t.is_ancestor(a, v) <==> t.parent_of(v) == a || t.is_ancestor(a, t.parent_of(v))),
{
    if t.has_parent(v) {
        assert(t.rank@[t.parent_of(v)] < t.rank@[v]);
    }
}

/// Every parent link is mirrored by the parent's child list, and every child
/// listed by a node links back to that node.
pub proof fn lemma_links_agree(t: &Tree, c: u32, p: u32)
    requires
        t.wf(),
        t.has_node(p),
    ensures
        t.has_parent(c) && t.parent_of(c) == p <==> t.children_of(p).contains(c),
{
    if t.children_of(p).contains(c) {
        let i = choose|i: int| 0 <= i < t.children_of(p).len() && t.children_of(p)[i] == c;
        assert(t.has_parent(t.children_of(p)[i]));
    }
}

/// A private node has only private descendants.
pub proof fn lemma_private_subtree(t: &Tree, n: u32, d: u32)
    requires
        t.wf(),
        t.has_node(n),
        t.perm_of(n) == Permission::Private,
        t.is_ancestor(n, d),
    ensures
        t.perm_of(d) == Permission::Private,
    decreases t.rank@[d],
{
    let p = t.parent_of(d);
    assert(t.has_parent(d));
    if p != n {
        assert(ancestor_in(t.parent_map@, t.rank@, n, p));
        lemma_private_subtree(t, n, p);
    }
}

/// Every descendant holds all the tags of each of its ancestors.
pub proof fn lemma_tags_subtree(t: &Tree, n: u32, d: u32)
    requires
        t.wf(),
        t.is_ancestor(n, d),
    ensures
        t.tags_of(n).subset_of(t.tags_of(d)),
    decreases t.rank@[d],
{
    let p = t.parent_of(d);
    assert(t.has_parent(d));
    if p != n {
        assert(ancestor_in(t.parent_map@, t.rank@, n, p));
        lemma_tags_subtree(t, n, p);
    }
}

/// A node's tag set, when present, holds every tag of its parent.
pub proof fn lemma_tags_cover_parent(t: &Tree, c: u32)
    requires
        t.wf(),
        t.has_parent(c),
    ensures
        t.tags_of(t.parent_of(c)).subset_of(t.tags_of(c)),
{
}

/// Linking or relocating has one possible outcome: two well-formed trees that both
/// place `x` under `y` in `o` hold the same visibility and tags everywhere.
pub proof fn lemma_relinked_unique(o: &Tree, n1: &Tree, n2: &Tree, x: u32, y: u32, k: u32)
    requires
        n1.wf(),
        n2.wf(),
        relinked(o, n1, x, y),
        relinked(o, n2, x, y),
        o.has_node(k),
    ensures
        n1.perm_of(k) == n2.perm_of(k),
        n1.tags_of(k) == n2.tags_of(k),
    decreases n1.rank@[k],
{
    assert(vis_follows(o, n1, k) && tags_follow(o, n1, k));
    assert(vis_follows(o, n2, k) && tags_follow(o, n2, k));
    if n1.has_parent(k) {
        let p = n1.parent_of(k);
        assert(n2.has_parent(k) && n2.parent_of(k) == p);
        assert(n1.has_node(p) && o.has_node(p));
        assert(n1.rank@[p] < n1.rank@[k]);
        lemma_relinked_unique(o, n1, n2, x, y, p);
        assert(n1.vis_edge_ok(k) && n2.vis_edge_ok(k));
        assert(n1.tag_edge_ok(k) && n2.tag_edge_ok(k));
    }
    assert(n1.tags_of(k) =~= n2.tags_of(k));
}

} // verus!
