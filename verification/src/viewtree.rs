//! Archive view tree: the selection model behind the archive-contents window.
//!
//! Archive paths become an arena tree of folder and file nodes. Folder rows carry a
//! tri-state checkbox whose state is always the aggregate of its children; toggling a
//! folder selects or deselects its whole subtree. Folders start collapsed, except
//! single-child chains and a single top-level wrapper folder.
use vstd::prelude::*;

verus! {

/// One visible row (a flattened view of the arena tree).
#[derive(Clone, Debug, PartialEq)]
pub struct RowView {
    /// Display label (file or folder name, no path).
    pub label: String,
    /// Full archive-relative path, forward slashes.
    pub path: String,
    /// Nesting depth (0 = top level).
    pub depth: usize,
    /// Folder rows expand and collapse; file rows never do.
    pub is_folder: bool,
    /// Selection state (folders: aggregated over descendants).
    pub checked: bool,
    /// Some, but not all, descendants are checked.
    pub partial: bool,
    /// Folder is currently expanded.
    pub expanded: bool,
    /// Arena node index; stable whatever the expansion state.
    pub node: usize,
}

/// The fixed part of a node: what it is and where it hangs.
struct Node {
    label: String,
    path: String,
    is_folder: bool,
    parent: Option<usize>,
    children: Vec<usize>,
}

/// Arena-backed selection tree over archive paths.
pub struct ViewTree {
    nodes: Vec<Node>,
    checked: Vec<bool>,
    partial: Vec<bool>,
    expanded: Vec<bool>,
    /// Children of the virtual root (depth-0 rows).
    roots: Vec<usize>,
    total_files: usize,
}

/// Abstract state of one node.
pub struct NodeV {
    pub label: Seq<char>,
    pub path: Seq<char>,
    pub is_folder: bool,
    pub parent: Option<usize>,
    pub children: Seq<usize>,
    pub checked: bool,
    pub partial: bool,
    pub expanded: bool,
}

/// Abstract state of a whole tree.
pub struct TreeV {
    pub nodes: Seq<NodeV>,
    pub roots: Seq<usize>,
    pub total_files: nat,
}

/// Number of file (non-folder) nodes among the first `k` nodes.
pub open spec fn count_files(nodes: Seq<NodeV>, k: int) -> nat
    decreases k,
{
    if k <= 0 {
        0
    } else {
        count_files(nodes, k - 1) + if !nodes[k - 1].is_folder { 1nat } else { 0nat }
    }
}

/// Number of checked file nodes among the first `k` nodes.
pub open spec fn count_checked_files(nodes: Seq<NodeV>, k: int) -> nat
    decreases k,
{
    if k <= 0 {
        0
    } else {
        count_checked_files(nodes, k - 1) + if !nodes[k - 1].is_folder && nodes[k
            - 1].checked {
            1nat
        } else {
            0nat
        }
    }
}

/// Paths of the checked file nodes among the first `k` nodes, in node order.
pub open spec fn checked_file_paths(nodes: Seq<NodeV>, k: int) -> Seq<Seq<char>>
    decreases k,
{
    if k <= 0 {
        Seq::empty()
    } else if !nodes[k - 1].is_folder && nodes[k - 1].checked {
        checked_file_paths(nodes, k - 1).push(nodes[k - 1].path)
    } else {
        checked_file_paths(nodes, k - 1)
    }
}

/// Paths of all file nodes among the first `k` nodes, in node order.
pub open spec fn file_paths(nodes: Seq<NodeV>, k: int) -> Seq<Seq<char>>
    decreases k,
{
    if k <= 0 {
        Seq::empty()
    } else if !nodes[k - 1].is_folder {
        file_paths(nodes, k - 1).push(nodes[k - 1].path)
    } else {
        file_paths(nodes, k - 1)
    }
}

/// `s` is strictly increasing.
pub open spec fn increasing(s: Seq<usize>) -> bool {
    forall|i: int, j: int| 0 <= i < j < s.len() ==> s[i] < s[j]
}

impl TreeV {
    /// `x` lies in the subtree rooted at `a` (`a` itself included).
    pub open spec fn in_subtree(self, x: int, a: int) -> bool
        decreases x,
    {
        if x == a {
            true
        } else if 0 <= x < self.nodes.len() {
            match self.nodes[x].parent {
                Some(p) => if (p as int) < x {
                    self.in_subtree(p as int, a)
                } else {
                    false
                },
                None => false,
            }
        } else {
            false
        }
    }

    /// The links between nodes form a forest whose parents precede their children;
    /// file nodes have no children.
    pub open spec fn links_ok(self) -> bool {
        let n = self.nodes.len();
        &&& n <= usize::MAX
        &&& forall|i: int|
            0 <= i < n ==> match #[trigger] self.nodes[i].parent {
                Some(p) => (p as int) < i && self.nodes[p as int].children.contains(i as usize),
                None => self.roots.contains(i as usize),
            }
        &&& forall|i: int, j: int|
            0 <= i < n && 0 <= j < self.nodes[i].children.len() ==> {
                let c = #[trigger] self.nodes[i].children[j];
                &&& (c as int) < n
                &&& self.nodes[c as int].parent == Some(i as usize)
            }
        &&& forall|j: int|
            0 <= j < self.roots.len() ==> {
                let r = #[trigger] self.roots[j];
                &&& (r as int) < n
                &&& self.nodes[r as int].parent is None
            }
        &&& forall|i: int|
            0 <= i < n ==> (!#[trigger] self.nodes[i].is_folder ==> self.nodes[i].children.len()
                == 0)
        &&& forall|i: int| 0 <= i < n ==> increasing(#[trigger] self.nodes[i].children)
        &&& increasing(self.roots)
        &&& self.total_files == count_files(self.nodes, n as int)
    }

    /// Well-linked, and every folder has at least one child.
    pub open spec fn structure_ok(self) -> bool {
        &&& self.links_ok()
        &&& forall|i: int|
            0 <= i < self.nodes.len() ==> (#[trigger] self.nodes[i].is_folder ==> self.nodes[i].children.len()
                > 0)
    }

    /// A folder's state is the aggregate of its children's: checked when every child is
    /// fully checked, partial when some child is (partly) checked but not all are.
    pub open spec fn consistent_at(self, p: int) -> bool {
        let nd = self.nodes[p];
        if nd.is_folder {
            &&& nd.checked == (forall|j: int|
                0 <= j < nd.children.len() ==> #[trigger] self.nodes[nd.children[j] as int].checked
                    && !self.nodes[nd.children[j] as int].partial)
            &&& nd.partial == ((exists|j: int|
                0 <= j < nd.children.len() && (#[trigger] self.nodes[nd.children[j] as int].checked
                    || self.nodes[nd.children[j] as int].partial)) && !nd.checked)
        } else {
            !nd.partial
        }
    }

    /// Every node's selection state agrees with its children's.
    pub open spec fn selection_consistent(self) -> bool {
        forall|p: int| 0 <= p < self.nodes.len() ==> #[trigger] self.consistent_at(p)
    }

    pub open spec fn wf(self) -> bool {
        self.structure_ok() && self.selection_consistent()
    }

    /// The same nodes, links, labels and paths; only the flags may differ.
    pub open spec fn same_shape(self, other: TreeV) -> bool {
        &&& self.nodes.len() == other.nodes.len()
        &&& self.roots == other.roots
        &&& self.total_files == other.total_files
        &&& forall|i: int|
            0 <= i < self.nodes.len() ==> {
                let a = #[trigger] self.nodes[i];
                let b = other.nodes[i];
                &&& a.label == b.label
                &&& a.path == b.path
                &&& a.is_folder == b.is_folder
                &&& a.parent == b.parent
                &&& a.children == b.children
            }
    }

    /// The selection that `toggle(idx)` puts on the subtree of `idx`.
    pub open spec fn toggle_target(self, idx: int) -> bool {
        let nd = self.nodes[idx];
        if nd.is_folder {
            !(nd.checked || nd.partial)
        } else {
            !nd.checked
        }
    }
}

impl View for ViewTree {
    type V = TreeV;

    closed spec fn view(&self) -> TreeV {
        TreeV {
            nodes: Seq::new(
                self.nodes.len() as nat,
                |i: int|
                    NodeV {
                        label: self.nodes[i].label@,
                        path: self.nodes[i].path@,
                        is_folder: self.nodes[i].is_folder,
                        parent: self.nodes[i].parent,
                        children: self.nodes[i].children@,
                        checked: self.checked[i],
                        partial: self.partial[i],
                        expanded: self.expanded[i],
                    },
            ),
            roots: self.roots@,
            total_files: self.total_files as nat,
        }
    }
}

/// A node lies after every node of whose subtree it is part.
pub proof fn lemma_subtree_after(t: TreeV, x: int, a: int)
    requires
        t.in_subtree(x, a),
    ensures
        x >= a,
    decreases x,
{
    if x != a {
        let p = t.nodes[x].parent.unwrap();
        lemma_subtree_after(t, p as int, a);
    }
}

/// Flags of node `x` agree between two trees.
pub open spec fn same_flags(a: TreeV, b: TreeV, x: int) -> bool {
    &&& a.nodes[x].checked == b.nodes[x].checked
    &&& a.nodes[x].partial == b.nodes[x].partial
    &&& a.nodes[x].expanded == b.nodes[x].expanded
}

/// `x` is a proper ancestor of `start`.
pub open spec fn strict_ancestor(t: TreeV, start: int, x: int) -> bool {
    t.in_subtree(start, x) && x != start
}

impl ViewTree {
    /// Well-formedness: the arrays agree in length and the abstract tree is well formed.
    pub closed spec fn wf(&self) -> bool {
        &&& self.lens_ok()
        &&& self@.wf()
    }

    /// A well-formed tree is, seen abstractly, a forest whose parents precede their
    /// children, and every node's selection state agrees with its children's (a folder is
    /// checked when all its children are fully checked, partial when some but not all
    /// are).
    pub proof fn lemma_wf_view(&self)
        requires
            self.wf(),
        ensures
            self@.wf(),
            self@.structure_ok(),
            self@.selection_consistent(),
    {
    }

    closed spec fn lens_ok(&self) -> bool {
        &&& self.checked.len() == self.nodes.len()
        &&& self.partial.len() == self.nodes.len()
        &&& self.expanded.len() == self.nodes.len()
    }

    proof fn lemma_view_len(&self)
        ensures
            self@.nodes.len() == self.nodes.len(),
            self@.roots == self.roots@,
            self@.total_files == self.total_files as nat,
            forall|i: int|
                0 <= i < self.nodes.len() ==> {
                    let nd = #[trigger] self@.nodes[i];
                    &&& nd.label == self.nodes[i].label@
                    &&& nd.path == self.nodes[i].path@
                    &&& nd.is_folder == self.nodes[i].is_folder
                    &&& nd.parent == self.nodes[i].parent
                    &&& nd.children == self.nodes[i].children@
                    &&& nd.checked == self.checked[i]
                    &&& nd.partial == self.partial[i]
                    &&& nd.expanded == self.expanded[i]
                },
    {
    }

    /// Recompute the state of every proper ancestor of `start`, bottom-up, from its
    /// children: checked = all children fully checked, partial = some but not all.
    fn refresh_ancestors(&mut self, start: usize)
        requires
            old(self).lens_ok(),
            old(self)@.structure_ok(),
            (start as int) < old(self)@.nodes.len(),
            forall|p: int|
                0 <= p < old(self)@.nodes.len() && !strict_ancestor(old(self)@, start as int, p)
                    ==> old(self)@.consistent_at(p),
        ensures
            final(self).lens_ok(),
            final(self)@.wf(),
            final(self)@.same_shape(old(self)@),
            forall|x: int|
                0 <= x < old(self)@.nodes.len() && !strict_ancestor(old(self)@, start as int, x)
                    ==> same_flags(final(self)@, old(self)@, x),
            forall|x: int|
                0 <= x < old(self)@.nodes.len() ==> (#[trigger] final(self)@.nodes[x]).expanded
                    == old(self)@.nodes[x].expanded,
    {
        let ghost t0 = self@;
        let ghost n = t0.nodes.len() as int;
        proof {
            self.lemma_view_len();
        }
        let mut cur = self.nodes[start].parent;
        proof {
            assert(match t0.nodes[start as int].parent {
                Some(q) => (q as int) < start as int && t0.nodes[q as int].children.contains(start),
                None => t0.roots.contains(start),
            });
            if let Some(c) = cur {
                assert(t0.in_subtree(c as int, c as int));
                assert(t0.in_subtree(start as int, c as int));
            }
            assert forall|p: int|
                0 <= p < n && !(match cur {
                    Some(c) => t0.in_subtree(c as int, p),
                    None => false,
                }) implies self@.consistent_at(p) by {
                if strict_ancestor(t0, start as int, p) {
                    assert(t0.in_subtree(start as int, p));
                }
            }
        }
        while cur.is_some()
            invariant
                self.lens_ok(),
                self@.same_shape(t0),
                t0.structure_ok(),
                n == t0.nodes.len(),
                (start as int) < n,
                forall|p: int|
                    0 <= p < n && !(match cur {
                        Some(c) => t0.in_subtree(c as int, p),
                        None => false,
                    }) ==> self@.consistent_at(p),
                match cur {
                    Some(c) => (c as int) < n && strict_ancestor(t0, start as int, c as int),
                    None => true,
                },
                forall|x: int|
                    0 <= x < n && !strict_ancestor(t0, start as int, x) ==> same_flags(
                        self@,
                        t0,
                        x,
                    ),
                forall|x: int|
                    0 <= x < n ==> (#[trigger] self@.nodes[x]).expanded == t0.nodes[x].expanded,
            decreases
                match cur {
                    Some(c) => c as int + 1,
                    None => 0,
                },
        {
            let p = cur.unwrap();
            proof {
                self.lemma_view_len();
            }
            let ghost t1 = self@;
            let kids = &self.nodes[p].children;
            let mut all = true;
            let mut any = false;
            let mut j: usize = 0;
            while j < kids.len()
                invariant
                    self@ == t1,
                    t1.same_shape(t0),
                    t0.structure_ok(),
                    self.lens_ok(),
                    (p as int) < n,
                    n == t0.nodes.len(),
                    kids@ == t1.nodes[p as int].children,
                    j <= kids.len(),
                    all == (forall|k: int|
                        0 <= k < j ==> #[trigger] t1.nodes[kids@[k] as int].checked
                            && !t1.nodes[kids@[k] as int].partial),
                    any == (exists|k: int|
                        0 <= k < j && (#[trigger] t1.nodes[kids@[k] as int].checked
                            || t1.nodes[kids@[k] as int].partial)),
                decreases kids.len() - j,
            {
                let c = kids[j];
                proof {
                    self.lemma_view_len();
                    assert(t0.nodes[p as int].children[j as int] == c);
                }
                let ck = self.checked[c];
                let pt = self.partial[c];
                proof {
                    assert((c as int) < n);
                    assert(t1.nodes[c as int].checked == ck);
                    assert(t1.nodes[c as int].partial == pt);
                }
                let ghost all0 = all;
                let ghost any0 = any;
                if ck || pt {
                    any = true;
                }
                if !(ck && !pt) {
                    all = false;
                }
                j = j + 1;
                proof {
                    assert(kids@[j - 1] == c);
                    if all0 && ck && !pt {
                        assert forall|k: int| 0 <= k < j implies #[trigger] t1.nodes[kids@[k] as int].checked
                            && !t1.nodes[kids@[k] as int].partial by {
                            if k < j - 1 {
                            }
                        }
                    }
                    if any {
                        if !any0 {
                            assert(t1.nodes[kids@[j - 1] as int].checked || t1.nodes[kids@[j - 1] as int].partial);
                        }
                    } else {
                        assert forall|k: int| 0 <= k < j implies !(#[trigger] t1.nodes[kids@[k] as int].checked
                            || t1.nodes[kids@[k] as int].partial) by {
                            if k < j - 1 {
                            }
                        }
                    }
                }
            }
            self.checked.set(p, all);
            self.partial.set(p, any && !all);
            cur = self.nodes[p].parent;
            proof {
                self.lemma_view_len();
                let t2 = self@;
                assert forall|i: int| 0 <= i < n implies shape_at(#[trigger] t2.nodes[i], t1.nodes[i]) by {}
                lemma_same_shape_from_nodes(t2, t1);
                lemma_same_shape_trans(t2, t1, t0);
                assert forall|k: int| 0 <= k < n && k != p as int implies same_flags(t2, t1, k) by {}
                assert(t1.nodes[p as int].is_folder) by {
                    assert(t0.in_subtree(start as int, p as int));
                    lemma_ancestor_has_children(t0, start as int, p as int);
                }
                lemma_refresh_one(t0, t1, t2, p as int, all, any);
                // Every other node outside the remaining chain stays consistent.
                assert forall|q: int|
                    0 <= q < n && !(match cur {
                        Some(c) => t0.in_subtree(c as int, q),
                        None => false,
                    }) implies t2.consistent_at(q) by {
                    if q != p as int {
                        assert(match t0.nodes[p as int].parent {
                            Some(qq) => (qq as int) < p as int && t0.nodes[qq as int].children.contains(p),
                            None => t0.roots.contains(p),
                        });
                        assert(!t0.in_subtree(p as int, q));
                        assert(t1.consistent_at(q));
                        lemma_consistent_frame(t0, t1, t2, q, p as int);
                    }
                }
                match cur {
                    Some(c) => {
                        assert(t0.nodes[p as int].parent == Some(c));
                        assert(t0.in_subtree(start as int, c as int)) by {
                            lemma_subtree_trans(t0, start as int, p as int, c);
                        }
                        assert(c as int != start as int) by {
                            lemma_subtree_after(t0, start as int, p as int);
                        }
                    },
                    None => {},
                }
            }
        }
        proof {
            self.lemma_view_len();
            assert(self@.selection_consistent());
            lemma_shape_structure(self@, t0);
        }
    }
}

impl ViewTree {
    /// Give every node of the subtree rooted at `idx` the selection `checked` (none
    /// partial), then bring the ancestors of `idx` up to date.
    fn set_subtree(&mut self, idx: usize, checked: bool)
        requires
            old(self).wf(),
            (idx as int) < old(self)@.nodes.len(),
        ensures
            final(self).wf(),
            final(self)@.same_shape(old(self)@),
            forall|x: int|
                0 <= x < old(self)@.nodes.len() && old(self)@.in_subtree(x, idx as int) ==> {
                    &&& (#[trigger] final(self)@.nodes[x]).checked == checked
                    &&& !final(self)@.nodes[x].partial
                },
            forall|x: int|
                0 <= x < old(self)@.nodes.len() && !old(self)@.in_subtree(x, idx as int)
                    && !strict_ancestor(old(self)@, idx as int, x) ==> same_flags(
                    final(self)@,
                    old(self)@,
                    x,
                ),
            forall|x: int|
                0 <= x < old(self)@.nodes.len() ==> (#[trigger] final(self)@.nodes[x]).expanded
                    == old(self)@.nodes[x].expanded,
    {
        let ghost t0 = self@;
        let n = self.nodes.len();
        proof {
            self.lemma_view_len();
        }
        // mark[k] records whether node idx + k lies in the subtree of idx; a node does
        // exactly when it is idx or its parent (which comes earlier) does.
        let mut mark: Vec<bool> = Vec::new();
        let mut i = idx;
        proof {
            assert forall|x: int| 0 <= x < n && t0.in_subtree(x, idx as int) implies !(x < idx) by {
                lemma_subtree_after(t0, x, idx as int);
            }
        }
        while i < n
            invariant
                self.lens_ok(),
                self.nodes.len() == n,
                n == t0.nodes.len(),
                t0.structure_ok(),
                t0.selection_consistent(),
                self@.same_shape(t0),
                (idx as int) < n,
                idx <= i <= n,
                mark.len() == i - idx,
                forall|k: int| 0 <= k < mark.len() ==> mark[k] == t0.in_subtree(idx + k, idx as int),
                forall|x: int|
                    0 <= x < n ==> if x < i && t0.in_subtree(x, idx as int) {
                        &&& (#[trigger] self@.nodes[x]).checked == checked
                        &&& !self@.nodes[x].partial
                        &&& self@.nodes[x].expanded == t0.nodes[x].expanded
                    } else {
                        same_flags(self@, t0, x)
                    },
            decreases n - i,
        {
            proof {
                self.lemma_view_len();
                assert(shape_at(self@.nodes[i as int], t0.nodes[i as int]));
                assert(match t0.nodes[i as int].parent {
                    Some(q) => (q as int) < i as int && t0.nodes[q as int].children.contains(i),
                    None => t0.roots.contains(i),
                });
            }
            let m = if i == idx {
                true
            } else {
                match self.nodes[i].parent {
                    Some(p) => p >= idx && mark[p - idx],
                    None => false,
                }
            };
            proof {
                assert(shape_at(self@.nodes[i as int], t0.nodes[i as int]));
                assert(match t0.nodes[i as int].parent {
                    Some(q) => (q as int) < i as int && t0.nodes[q as int].children.contains(i),
                    None => t0.roots.contains(i),
                });
                if i != idx {
                    match t0.nodes[i as int].parent {
                        Some(p) => {
                            if (p as int) < idx as int {
                                if t0.in_subtree(p as int, idx as int) {
                                    lemma_subtree_after(t0, p as int, idx as int);
                                }
                            }
                        },
                        None => {},
                    }
                }
                assert(m == t0.in_subtree(i as int, idx as int));
            }
            let ghost t1 = self@;
            if m {
                self.checked.set(i, checked);
                self.partial.set(i, false);
            }
            mark.push(m);
            i = i + 1;
            proof {
                self.lemma_view_len();
                assert forall|x: int| 0 <= x < n implies shape_at(#[trigger] self@.nodes[x], t1.nodes[x]) by {}
                lemma_same_shape_from_nodes(self@, t1);
                lemma_same_shape_trans(self@, t1, t0);
            }
        }
        proof {
            self.lemma_view_len();
            lemma_shape_structure(self@, t0);
            let t1 = self@;
            assert forall|x: int| 0 <= x < n && t0.in_subtree(x, idx as int) implies {
                &&& (#[trigger] t1.nodes[x]).checked == checked
                &&& !t1.nodes[x].partial
            } by {}
            assert forall|x: int| 0 <= x < n && !t0.in_subtree(x, idx as int) implies same_flags(t1, t0, x) by {}
            lemma_marked_consistent(t0, t1, idx as int, checked);
            assert forall|p: int| 0 <= p < n implies (strict_ancestor(t1, idx as int, p) == strict_ancestor(t0, idx as int, p)) by {
                lemma_subtree_shape(t1, t0, idx as int, p);
            }
        }
        self.refresh_ancestors(idx);
        proof {
            self.lemma_view_len();
            let t2 = self@;
            assert forall|x: int| 0 <= x < n && t0.in_subtree(x, idx as int) implies !strict_ancestor(t0, idx as int, x) by {
                if strict_ancestor(t0, idx as int, x) {
                    lemma_subtree_after(t0, x, idx as int);
                    lemma_subtree_after(t0, idx as int, x);
                }
            }
        }
    }
}

/// What toggling node `idx` does: its whole subtree takes the toggle target, fully (not
/// partially); every node outside that subtree keeps its flags unless it is a proper
/// ancestor of `idx` (ancestors are recomputed); no node's expansion changes.
pub open spec fn toggled(t0: TreeV, t1: TreeV, idx: int) -> bool {
    &&& t1.same_shape(t0)
    &&& forall|x: int|
        0 <= x < t0.nodes.len() && t0.in_subtree(x, idx) ==> {
            &&& (#[trigger] t1.nodes[x]).checked == t0.toggle_target(idx)
            &&& !t1.nodes[x].partial
        }
    &&& forall|x: int|
        0 <= x < t0.nodes.len() && !t0.in_subtree(x, idx) && !strict_ancestor(t0, idx, x)
            ==> same_flags(t1, t0, x)
    &&& forall|x: int|
        0 <= x < t0.nodes.len() ==> (#[trigger] t1.nodes[x]).expanded == t0.nodes[x].expanded
}

/// Toggling the same node twice leaves its whole subtree in the state opposite to the one
/// the first toggle gave it; nodes neither in that subtree nor above it keep their flags.
pub proof fn law_toggle_twice(t0: TreeV, t1: TreeV, t2: TreeV, idx: int)
    requires
        t0.wf(),
        0 <= idx < t0.nodes.len(),
        toggled(t0, t1, idx),
        toggled(t1, t2, idx),
    ensures
        forall|x: int|
            0 <= x < t0.nodes.len() && t0.in_subtree(x, idx) ==> {
                &&& (#[trigger] t2.nodes[x]).checked == !t0.toggle_target(idx)
                &&& !t2.nodes[x].partial
            },
        forall|x: int|
            0 <= x < t0.nodes.len() && !t0.in_subtree(x, idx) && !strict_ancestor(t0, idx, x)
                ==> same_flags(t2, t0, x),
{
    assert(t0.in_subtree(idx, idx));
    assert(shape_at(t1.nodes[idx], t0.nodes[idx]));
    assert(t1.toggle_target(idx) == !t0.toggle_target(idx));
    assert forall|x: int| 0 <= x < t0.nodes.len() implies t1.in_subtree(x, idx) == t0.in_subtree(
        x,
        idx,
    ) && strict_ancestor(t1, idx, x) == strict_ancestor(t0, idx, x) by {
        lemma_subtree_shape(t1, t0, x, idx);
        lemma_subtree_shape(t1, t0, idx, x);
    }
}

impl ViewTree {
    /// Number of nodes in the arena.
    pub fn node_count(&self) -> (n: usize)
        ensures
            n == self@.nodes.len(),
    {
        proof {
            self.lemma_view_len();
        }
        self.nodes.len()
    }

    /// Selection state `(checked, partial)` of a node, visible or not.
    pub fn node_state(&self, idx: usize) -> (r: (bool, bool))
        requires
            self.wf(),
            (idx as int) < self@.nodes.len(),
        ensures
            r == (self@.nodes[idx as int].checked, self@.nodes[idx as int].partial),
    {
        proof {
            self.lemma_view_len();
        }
        (self.checked[idx], self.partial[idx])
    }

    /// Node index of the first node whose path is `path` (visible or not).
    pub fn node_by_path(&self, path: &str) -> (r: Option<usize>)
        requires
            self.wf(),
        ensures
            match r {
                Some(i) => {
                    &&& (i as int) < self@.nodes.len()
                    &&& self@.nodes[i as int].path == path@
                    &&& forall|j: int| 0 <= j < i ==> self@.nodes[j].path != path@
                },
                None => forall|j: int| 0 <= j < self@.nodes.len() ==> self@.nodes[j].path != path@,
            },
    {
        proof {
            self.lemma_view_len();
        }
        let mut i: usize = 0;
        while i < self.nodes.len()
            invariant
                i <= self.nodes.len(),
                self.nodes.len() == self@.nodes.len(),
                forall|j: int| 0 <= j < i ==> self@.nodes[j].path != path@,
            decreases self.nodes.len() - i,
        {
            proof {
                self.lemma_view_len();
            }
            if crate::text::str_eq(self.nodes[i].path.as_str(), path) {
                return Some(i);
            }
            i = i + 1;
        }
        None
    }

    /// Toggle a node's checkbox. A folder with any selected descendant is deselected
    /// together with its whole subtree; otherwise the whole subtree is selected. A file
    /// flips. Ancestors are brought up to date; nothing else changes.
    pub fn toggle(&mut self, idx: usize)
        requires
            old(self).wf(),
            (idx as int) < old(self)@.nodes.len(),
        ensures
            final(self).wf(),
            toggled(old(self)@, final(self)@, idx as int),
    {
        proof {
            self.lemma_view_len();
        }
        let target = if self.nodes[idx].is_folder {
            !(self.checked[idx] || self.partial[idx])
        } else {
            !self.checked[idx]
        };
        self.set_subtree(idx, target);
    }

    /// Select or deselect everything (the header checkbox).
    pub fn set_all(&mut self, checked: bool)
        requires
            old(self).wf(),
        ensures
            final(self).wf(),
            final(self)@.same_shape(old(self)@),
            forall|x: int|
                0 <= x < old(self)@.nodes.len() ==> {
                    &&& (#[trigger] final(self)@.nodes[x]).checked == checked
                    &&& !final(self)@.nodes[x].partial
                    &&& final(self)@.nodes[x].expanded == old(self)@.nodes[x].expanded
                },
    {
        let ghost t0 = self@;
        proof {
            self.lemma_view_len();
        }
        let n = self.nodes.len();
        let mut i: usize = 0;
        while i < n
            invariant
                self.lens_ok(),
                self.nodes.len() == n,
                n == t0.nodes.len(),
                i <= n,
                self@.same_shape(t0),
                forall|x: int|
                    0 <= x < n ==> if x < i {
                        &&& (#[trigger] self@.nodes[x]).checked == checked
                        &&& !self@.nodes[x].partial
                        &&& self@.nodes[x].expanded == t0.nodes[x].expanded
                    } else {
                        same_flags(self@, t0, x)
                    },
            decreases n - i,
        {
            let ghost t1 = self@;
            self.checked.set(i, checked);
            self.partial.set(i, false);
            i = i + 1;
            proof {
                self.lemma_view_len();
                assert forall|x: int| 0 <= x < n implies shape_at(#[trigger] self@.nodes[x], t1.nodes[x]) by {}
                lemma_same_shape_from_nodes(self@, t1);
                lemma_same_shape_trans(self@, t1, t0);
            }
        }
        proof {
            self.lemma_view_len();
            let t1 = self@;
            lemma_shape_structure(t1, t0);
            assert forall|p: int| 0 <= p < n implies t1.consistent_at(p) by {
                assert(shape_at(t1.nodes[p], t0.nodes[p]));
                let kids = t1.nodes[p].children;
                if t1.nodes[p].is_folder {
                    assert(t0.nodes[p].children.len() > 0);
                    assert forall|k: int| 0 <= k < kids.len() implies (kids[k] as int) < n by {
                        assert(t0.nodes[p].children[k] == kids[k]);
                    }
                    assert(t1.nodes[kids[0] as int].checked == checked);
                }
            }
        }
    }

    /// Expand or collapse a folder node (no change for a file node).
    pub fn toggle_expand(&mut self, idx: usize)
        requires
            old(self).wf(),
            (idx as int) < old(self)@.nodes.len(),
        ensures
            final(self).wf(),
            final(self)@.same_shape(old(self)@),
            forall|x: int|
                0 <= x < old(self)@.nodes.len() ==> {
                    &&& (#[trigger] final(self)@.nodes[x]).checked == old(self)@.nodes[x].checked
                    &&& final(self)@.nodes[x].partial == old(self)@.nodes[x].partial
                    &&& final(self)@.nodes[x].expanded == if x == idx && old(self)@.nodes[x].is_folder {
                        !old(self)@.nodes[x].expanded
                    } else {
                        old(self)@.nodes[x].expanded
                    }
                },
    {
        let ghost t0 = self@;
        proof {
            self.lemma_view_len();
        }
        if self.nodes[idx].is_folder {
            let e = self.expanded[idx];
            self.expanded.set(idx, !e);
        }
        proof {
            self.lemma_view_len();
            let t1 = self@;
            assert forall|x: int| 0 <= x < t0.nodes.len() implies shape_at(#[trigger] t1.nodes[x], t0.nodes[x]) by {}
            lemma_same_shape_from_nodes(t1, t0);
            lemma_shape_structure(t1, t0);
            assert forall|p: int| 0 <= p < t0.nodes.len() implies t1.consistent_at(p) by {
                assert(t0.consistent_at(p));
                assert(shape_at(t1.nodes[p], t0.nodes[p]));
                let kids = t0.nodes[p].children;
                assert forall|k: int| 0 <= k < kids.len() implies (#[trigger] kids[k] as int) < t0.nodes.len() by {}
            }
        }
    }

    /// Expand every folder.
    pub fn expand_all(&mut self)
        requires
            old(self).wf(),
        ensures
            final(self).wf(),
            final(self)@.same_shape(old(self)@),
            forall|x: int|
                0 <= x < old(self)@.nodes.len() ==> {
                    &&& (#[trigger] final(self)@.nodes[x]).checked == old(self)@.nodes[x].checked
                    &&& final(self)@.nodes[x].partial == old(self)@.nodes[x].partial
                    &&& final(self)@.nodes[x].expanded == (old(self)@.nodes[x].is_folder
                        || old(self)@.nodes[x].expanded)
                },
    {
        let ghost t0 = self@;
        proof {
            self.lemma_view_len();
        }
        let n = self.nodes.len();
        let mut i: usize = 0;
        while i < n
            invariant
                self.lens_ok(),
                self.nodes.len() == n,
                n == t0.nodes.len(),
                i <= n,
                self@.same_shape(t0),
                forall|x: int|
                    0 <= x < n ==> {
                        &&& (#[trigger] self@.nodes[x]).checked == t0.nodes[x].checked
                        &&& self@.nodes[x].partial == t0.nodes[x].partial
                        &&& self@.nodes[x].expanded == if x < i {
                            t0.nodes[x].is_folder || t0.nodes[x].expanded
                        } else {
                            t0.nodes[x].expanded
                        }
                    },
            decreases n - i,
        {
            let ghost t1 = self@;
            proof {
                self.lemma_view_len();
                assert(shape_at(t1.nodes[i as int], t0.nodes[i as int]));
            }
            if self.nodes[i].is_folder {
                self.expanded.set(i, true);
            }
            i = i + 1;
            proof {
                self.lemma_view_len();
                assert forall|x: int| 0 <= x < n implies shape_at(#[trigger] self@.nodes[x], t1.nodes[x]) by {}
                lemma_same_shape_from_nodes(self@, t1);
                lemma_same_shape_trans(self@, t1, t0);
            }
        }
        proof {
            self.lemma_view_len();
            let t1 = self@;
            lemma_shape_structure(t1, t0);
            assert forall|p: int| 0 <= p < n implies t1.consistent_at(p) by {
                assert(t0.consistent_at(p));
                assert(shape_at(t1.nodes[p], t0.nodes[p]));
                let kids = t0.nodes[p].children;
                assert forall|k: int| 0 <= k < kids.len() implies (#[trigger] kids[k] as int) < n by {}
            }
        }
    }

    /// Paths of the checked file nodes, in node order. Folders are never listed.
    pub fn collect_checked_files(&self) -> (r: Vec<String>)
        requires
            self.wf(),
        ensures
            r@.map_values(|s: String| s@) == checked_file_paths(self@.nodes, self@.nodes.len() as int),
    {
        proof {
            self.lemma_view_len();
        }
        let mut out: Vec<String> = Vec::new();
        let mut i: usize = 0;
        while i < self.nodes.len()
            invariant
                i <= self.nodes.len(),
                self.nodes.len() == self@.nodes.len(),
                self.lens_ok(),
                out@.map_values(|s: String| s@) == checked_file_paths(self@.nodes, i as int),
            decreases self.nodes.len() - i,
        {
            proof {
                self.lemma_view_len();
            }
            if !self.nodes[i].is_folder && self.checked[i] {
                out.push(self.nodes[i].path.clone());
            }
            i = i + 1;
            proof {
                assert(out@.map_values(|s: String| s@) =~= checked_file_paths(self@.nodes, i as int));
            }
        }
        out
    }

    /// `(selected files, total files)`.
    pub fn selection_stats(&self) -> (r: (usize, usize))
        requires
            self.wf(),
        ensures
            r.0 == count_checked_files(self@.nodes, self@.nodes.len() as int),
            r.1 == self@.total_files,
            r.1 == count_files(self@.nodes, self@.nodes.len() as int),
            r.0 <= r.1,
    {
        proof {
            self.lemma_view_len();
        }
        let mut sel: usize = 0;
        let mut i: usize = 0;
        while i < self.nodes.len()
            invariant
                i <= self.nodes.len(),
                self.nodes.len() == self@.nodes.len(),
                self.lens_ok(),
                sel == count_checked_files(self@.nodes, i as int),
                sel <= i,
            decreases self.nodes.len() - i,
        {
            proof {
                self.lemma_view_len();
            }
            if !self.nodes[i].is_folder && self.checked[i] {
                sel = sel + 1;
            }
            i = i + 1;
        }
        proof {
            lemma_checked_le_files(self@.nodes, self@.nodes.len() as int);
        }
        (sel, self.total_files)
    }

    /// True when every file is selected and there is at least one.
    pub fn all_selected(&self) -> (r: bool)
        requires
            self.wf(),
        ensures
            r == (self@.total_files > 0 && count_checked_files(self@.nodes, self@.nodes.len() as int)
                == self@.total_files),
    {
        let (sel, total) = self.selection_stats();
        total > 0 && sel == total
    }
}

/// The visible rows below the sibling list `kids` at nesting depth `depth`: each node,
/// followed by the rows below it when it is an expanded folder. Nodes before `lo` are
/// not descended into (a well-formed tree never has such children).
pub open spec fn visible_rows(t: TreeV, kids: Seq<usize>, depth: nat, lo: int) -> Seq<(usize, nat)>
    decreases t.nodes.len() - lo, kids.len(),
{
    if kids.len() == 0 || lo < 0 || lo > t.nodes.len() {
        Seq::empty()
    } else {
        let i = kids.last();
        let before = visible_rows(t, kids.drop_last(), depth, lo);
        let below = if lo <= i < t.nodes.len() && t.nodes[i as int].is_folder && t.nodes[
            i as int].expanded {
            visible_rows(t, t.nodes[i as int].children, depth + 1, i + 1)
        } else {
            Seq::empty()
        };
        before + seq![(i, depth)] + below
    }
}

/// A row shows node `node` of `t` at depth `depth`.
pub open spec fn row_is(r: RowView, t: TreeV, node: usize, depth: nat) -> bool {
    let nd = t.nodes[node as int];
    &&& r.node == node
    &&& r.depth == depth
    &&& r.label@ == nd.label
    &&& r.path@ == nd.path
    &&& r.is_folder == nd.is_folder
    &&& r.checked == nd.checked
    &&& r.partial == nd.partial
    &&& r.expanded == nd.expanded
}

/// `rows` shows exactly the abstract rows `spec`, in order.
pub open spec fn rows_are(rows: Seq<RowView>, t: TreeV, spec: Seq<(usize, nat)>) -> bool {
    &&& rows.len() == spec.len()
    &&& forall|j: int| 0 <= j < rows.len() ==> row_is(#[trigger] rows[j], t, spec[j].0, spec[j].1)
}

proof fn lemma_visible_in_range(t: TreeV, kids: Seq<usize>, depth: nat, lo: int)
    requires
        t.wf(),
        forall|k: int| 0 <= k < kids.len() ==> (#[trigger] kids[k] as int) < t.nodes.len(),
    ensures
        forall|j: int|
            0 <= j < visible_rows(t, kids, depth, lo).len() ==> (#[trigger] visible_rows(
                t,
                kids,
                depth,
                lo,
            )[j].0 as int) < t.nodes.len(),
    decreases t.nodes.len() - lo, kids.len(),
{
    if !(kids.len() == 0 || lo < 0 || lo > t.nodes.len()) {
        let i = kids.last();
        assert(kids[kids.len() - 1] == i);
        let d = kids.drop_last();
        assert forall|k: int| 0 <= k < d.len() implies (#[trigger] d[k] as int) < t.nodes.len() by {
            assert(d[k] == kids[k]);
        }
        lemma_visible_in_range(t, d, depth, lo);
        let before = visible_rows(t, d, depth, lo);
        if lo <= i < t.nodes.len() && t.nodes[i as int].is_folder && t.nodes[i as int].expanded {
            let ch = t.nodes[i as int].children;
            assert forall|k: int| 0 <= k < ch.len() implies (#[trigger] ch[k] as int) < t.nodes.len() by {
                assert(t.nodes[i as int].children[k] == ch[k]);
            }
            lemma_visible_in_range(t, ch, depth + 1, i + 1);
            let below = visible_rows(t, ch, depth + 1, i + 1);
            let all = visible_rows(t, kids, depth, lo);
            assert(all == before + seq![(i, depth)] + below);
            assert forall|j: int| 0 <= j < all.len() implies (#[trigger] all[j].0 as int) < t.nodes.len() by {
                if j < before.len() {
                    assert(all[j] == before[j]);
                } else if j == before.len() {
                    assert(all[j] == (i, depth));
                } else {
                    assert(all[j] == below[j - before.len() - 1]);
                }
            }
        } else {
            let all = visible_rows(t, kids, depth, lo);
            assert(all == before + seq![(i, depth)] + Seq::<(usize, nat)>::empty());
            assert forall|j: int| 0 <= j < all.len() implies (#[trigger] all[j].0 as int) < t.nodes.len() by {
                if j < before.len() {
                    assert(all[j] == before[j]);
                } else {
                    assert(all[j] == (i, depth));
                }
            }
        }
    }
}

/// Every visible row of a well-formed tree names, in its `node` field, the tree node it
/// shows: the node exists and has the row's label, path, kind and selection and expansion
/// state, so reading or toggling `row.node` reads or toggles that row's node.
pub proof fn law_rows_address_nodes(t: TreeV, rows: Seq<RowView>)
    requires
        t.wf(),
        rows_are(rows, t, visible_rows(t, t.roots, 0, 0)),
    ensures
        forall|j: int|
            0 <= j < rows.len() ==> {
                let i = (#[trigger] rows[j]).node as int;
                &&& 0 <= i < t.nodes.len()
                &&& rows[j].label@ == t.nodes[i].label
                &&& rows[j].path@ == t.nodes[i].path
                &&& rows[j].is_folder == t.nodes[i].is_folder
                &&& rows[j].checked == t.nodes[i].checked
                &&& rows[j].partial == t.nodes[i].partial
                &&& rows[j].expanded == t.nodes[i].expanded
            },
{
    assert forall|k: int| 0 <= k < t.roots.len() implies (#[trigger] t.roots[k] as int) < t.nodes.len() by {
    }
    lemma_visible_in_range(t, t.roots, 0, 0);
    let v = visible_rows(t, t.roots, 0, 0);
    assert forall|j: int| 0 <= j < rows.len() implies {
        let i = (#[trigger] rows[j]).node as int;
        &&& 0 <= i < t.nodes.len()
        &&& rows[j].label@ == t.nodes[i].label
        &&& rows[j].path@ == t.nodes[i].path
        &&& rows[j].is_folder == t.nodes[i].is_folder
        &&& rows[j].checked == t.nodes[i].checked
        &&& rows[j].partial == t.nodes[i].partial
        &&& rows[j].expanded == t.nodes[i].expanded
    } by {
        assert(row_is(rows[j], t, v[j].0, v[j].1));
        assert((v[j].0 as int) < t.nodes.len());
    }
}

impl ViewTree {
    /// The currently visible rows: a depth-first walk that skips collapsed subtrees.
    pub fn flatten_visible(&self) -> (r: Vec<RowView>)
        requires
            self.wf(),
        ensures
            rows_are(r@, self@, visible_rows(self@, self@.roots, 0, 0)),
            forall|j: int|
                0 <= j < r@.len() ==> {
                    let i = (#[trigger] r@[j]).node as int;
                    &&& 0 <= i < self@.nodes.len()
                    &&& r@[j].path@ == self@.nodes[i].path
                    &&& r@[j].checked == self@.nodes[i].checked
                    &&& r@[j].partial == self@.nodes[i].partial
                },
    {
        proof {
            self.lemma_view_len();
        }
        let mut out: Vec<RowView> = Vec::new();
        self.walk(&self.roots, 0, 0, &mut out);
        proof {
            assert(out@.subrange(0, out@.len() as int) =~= out@);
            self.lemma_wf_view();
            law_rows_address_nodes(self@, out@);
        }
        out
    }

    fn walk(&self, kids: &Vec<usize>, depth: usize, lo: usize, out: &mut Vec<RowView>)
        requires
            self.wf(),
            (lo as int) <= self@.nodes.len(),
            depth <= lo,
            forall|j: int| 0 <= j < kids.len() ==> lo <= #[trigger] kids@[j] < self@.nodes.len(),
        ensures
            final(out)@.len() == old(out)@.len() + visible_rows(self@, kids@, depth as nat, lo as int).len(),
            forall|j: int| 0 <= j < old(out)@.len() ==> #[trigger] final(out)@[j] == old(out)@[j],
            rows_are(
                final(out)@.subrange(old(out)@.len() as int, final(out)@.len() as int),
                self@,
                visible_rows(self@, kids@, depth as nat, lo as int),
            ),
        decreases self@.nodes.len() - lo,
    {
        proof {
            self.lemma_view_len();
        }
        let ghost out0 = out@;
        let ghost t = self@;
        let mut k: usize = 0;
        while k < kids.len()
            invariant
                self.wf(),
                t == self@,
                (lo as int) <= t.nodes.len(),
                depth <= lo,
                forall|j: int| 0 <= j < kids.len() ==> lo <= #[trigger] kids@[j] < t.nodes.len(),
                k <= kids.len(),
                out@.len() == out0.len() + visible_rows(t, kids@.take(k as int), depth as nat, lo as int).len(),
                forall|j: int| 0 <= j < out0.len() ==> #[trigger] out@[j] == out0[j],
                rows_are(
                    out@.subrange(out0.len() as int, out@.len() as int),
                    t,
                    visible_rows(t, kids@.take(k as int), depth as nat, lo as int),
                ),
            decreases kids.len() - k,
        {
            proof {
                self.lemma_view_len();
            }
            let i = kids[k];
            let ghost out1 = out@;
            let row = RowView {
                label: self.nodes[i].label.clone(),
                path: self.nodes[i].path.clone(),
                depth: depth,
                is_folder: self.nodes[i].is_folder,
                checked: self.checked[i],
                partial: self.partial[i],
                expanded: self.expanded[i],
                node: i,
            };
            out.push(row);
            let ghost out2 = out@;
            if self.nodes[i].is_folder && self.expanded[i] {
                proof {
                    assert forall|j: int| 0 <= j < self.nodes[i as int].children@.len() implies i + 1 <= #[trigger] self.nodes[i as int].children@[j] < t.nodes.len() by {
                        let c = t.nodes[i as int].children[j];
                        assert(t.nodes[c as int].parent == Some(i));
                        assert(match t.nodes[c as int].parent {
                            Some(q) => (q as int) < c as int && t.nodes[q as int].children.contains(c),
                            None => t.roots.contains(c),
                        });
                    }
                }
                self.walk(&self.nodes[i].children, depth + 1, i + 1, out);
            }
            k = k + 1;
            proof {
                let kk = kids@.take(k as int);
                assert(kk.drop_last() =~= kids@.take(k - 1));
                assert(kk.last() == i);
                let before = visible_rows(t, kids@.take(k - 1), depth as nat, lo as int);
                let below = if t.nodes[i as int].is_folder && t.nodes[i as int].expanded {
                    visible_rows(t, t.nodes[i as int].children, depth as nat + 1, i + 1)
                } else {
                    Seq::empty()
                };
                assert(visible_rows(t, kk, depth as nat, lo as int) == before + seq![(i, depth as nat)] + below);
                let spec = visible_rows(t, kk, depth as nat, lo as int);
                let got = out@.subrange(out0.len() as int, out@.len() as int);
                assert(got.len() == spec.len());
                assert forall|j: int| 0 <= j < got.len() implies row_is(#[trigger] got[j], t, spec[j].0, spec[j].1) by {
                    let b = before.len() as int;
                    if j < b {
                        assert(got[j] == out1.subrange(out0.len() as int, out1.len() as int)[j]);
                    } else if j == b {
                        assert(got[j] == out2[out1.len() as int]);
                    } else {
                        assert(got[j] == out@.subrange(out2.len() as int, out@.len() as int)[j - b - 1]);
                    }
                }
            }
        }
        proof {
            assert(kids@.take(kids@.len() as int) =~= kids@);
        }
    }
}

/// UTF-8 bytes of a string's characters.
pub open spec fn utf8(s: Seq<char>) -> Seq<u8> {
    vstd::utf8::encode_utf8(s)
}

/// `a` comes no later than `b` in lexicographic byte order.
pub open spec fn bytes_le(a: Seq<u8>, b: Seq<u8>) -> bool
    decreases a.len(),
{
    if a.len() == 0 {
        true
    } else if b.len() == 0 {
        false
    } else if a[0] != b[0] {
        a[0] < b[0]
    } else {
        bytes_le(a.drop_first(), b.drop_first())
    }
}

/// The strings are in ascending order of their UTF-8 bytes (the order of `Ord for String`).
pub open spec fn byte_sorted(s: Seq<String>) -> bool {
    forall|i: int, j: int| 0 <= i < j < s.len() ==> bytes_le(utf8(s[i]@), utf8(s[j]@))
}

/// Sorts in place with `slice::sort`. `Ord for String` orders strings lexicographically
/// by their bytes; the result is a rearrangement of the input.
#[verifier::external_body]
fn sort_strings(v: &mut Vec<String>)
    ensures
        final(v)@.to_multiset() == old(v)@.to_multiset(),
        byte_sorted(final(v)@),
{
    v.sort();
}

/// The file rows of `t` are those of the kept entries of a byte-sorted rearrangement of
/// `paths`, in that order.
pub open spec fn files_built_from(t: TreeV, paths: Seq<String>) -> bool {
    exists|sorted: Seq<String>|
        {
            &&& #[trigger] sorted.to_multiset() == paths.to_multiset()
            &&& byte_sorted(sorted)
            &&& file_paths(t.nodes, t.nodes.len() as int) == entry_paths(
                kept(sorted, sorted.len() as int),
                kept(sorted, sorted.len() as int).len() as int,
            )
        }
}

proof fn lemma_bytes_le_refl(a: Seq<u8>)
    ensures
        bytes_le(a, a),
    decreases a.len(),
{
    if a.len() > 0 {
        lemma_bytes_le_refl(a.drop_first());
    }
}

proof fn lemma_bytes_le_antisym(a: Seq<u8>, b: Seq<u8>)
    requires
        bytes_le(a, b),
        bytes_le(b, a),
    ensures
        a == b,
    decreases a.len(),
{
    if a.len() == 0 {
        assert(b.len() == 0);
        assert(a =~= b);
    } else {
        assert(b.len() > 0);
        assert(a[0] == b[0]);
        lemma_bytes_le_antisym(a.drop_first(), b.drop_first());
        assert forall|i: int| 0 <= i < a.len() implies a[i] == b[i] by {
            if i > 0 {
                assert(a[i] == a.drop_first()[i - 1]);
                assert(b[i] == b.drop_first()[i - 1]);
            }
        }
        assert(a =~= b);
    }
}

proof fn lemma_bytes_le_trans(a: Seq<u8>, b: Seq<u8>, c: Seq<u8>)
    requires
        bytes_le(a, b),
        bytes_le(b, c),
    ensures
        bytes_le(a, c),
    decreases a.len(),
{
    if a.len() > 0 && b.len() > 0 && c.len() > 0 && a[0] == b[0] && b[0] == c[0] {
        lemma_bytes_le_trans(a.drop_first(), b.drop_first(), c.drop_first());
    }
}

/// Two texts whose UTF-8 bytes are in order both ways are the same text.
proof fn lemma_same_bytes_same_text(a: Seq<char>, b: Seq<char>)
    requires
        bytes_le(utf8(a), utf8(b)),
        bytes_le(utf8(b), utf8(a)),
    ensures
        a == b,
{
    lemma_bytes_le_antisym(utf8(a), utf8(b));
    vstd::utf8::encode_utf8_decode_utf8(a);
    vstd::utf8::encode_utf8_decode_utf8(b);
}

/// The texts of a string sequence.
pub open spec fn texts(s: Seq<String>) -> Seq<Seq<char>> {
    s.map_values(|x: String| x@)
}

/// Two byte-sorted rearrangements of the same strings hold the same texts in the same
/// order.
pub proof fn lemma_sorted_same_texts(x: Seq<String>, y: Seq<String>)
    requires
        x.to_multiset() == y.to_multiset(),
        byte_sorted(x),
        byte_sorted(y),
    ensures
        texts(x) == texts(y),
    decreases x.len(),
{
    broadcast use vstd::seq_lib::group_to_multiset_ensures;
    broadcast use vstd::multiset::group_multiset_axioms;
    vstd::seq_lib::to_multiset_len(x);
    vstd::seq_lib::to_multiset_len(y);
    if x.len() == 0 {
        assert(texts(x) =~= texts(y));
    } else {
        let n = x.len() - 1;
        let m = x[n];
        assert(x.to_multiset().count(m) > 0) by {
            vstd::seq_lib::to_multiset_contains(x, m);
            assert(x.contains(m)) by {
                assert(x[n] == m);
            }
        }
        vstd::seq_lib::to_multiset_contains(y, m);
        let i = choose|i: int| 0 <= i < y.len() && y[i] == m;
        let yl = y[y.len() - 1];
        assert(y.to_multiset().count(yl) > 0) by {
            vstd::seq_lib::to_multiset_contains(y, yl);
            assert(y.contains(yl)) by {
                assert(y[y.len() - 1] == yl);
            }
        }
        vstd::seq_lib::to_multiset_contains(x, yl);
        let j = choose|j: int| 0 <= j < x.len() && x[j] == yl;
        // The last texts of both agree, and every text of `y` from `i` on is that text.
        assert(bytes_le(utf8(yl@), utf8(m@))) by {
            if j < n {
            } else {
                lemma_bytes_le_refl(utf8(m@));
            }
        }
        assert forall|k: int| i <= k < y.len() implies (#[trigger] y[k])@ == m@ by {
            if k > i {
                assert(bytes_le(utf8(m@), utf8(y[k]@)));
            } else {
                lemma_bytes_le_refl(utf8(m@));
            }
            if k < y.len() - 1 {
                assert(bytes_le(utf8(y[k]@), utf8(yl@)));
                lemma_bytes_le_trans(utf8(y[k]@), utf8(yl@), utf8(m@));
            } else {
                lemma_bytes_le_refl(utf8(m@));
            }
            lemma_same_bytes_same_text(y[k]@, m@);
        }
        let x2 = x.drop_last();
        let y2 = y.remove(i);
        vstd::seq_lib::to_multiset_remove(y, i);
        assert(x =~= x2.push(m));
        vstd::seq_lib::to_multiset_build(x2, m);
        assert(x2.to_multiset() =~= y2.to_multiset());
        assert forall|a: int, b: int| 0 <= a < b < y2.len() implies bytes_le(
            utf8(y2[a]@),
            utf8(y2[b]@),
        ) by {
            let a2 = if a < i { a } else { a + 1 };
            let b2 = if b < i { b } else { b + 1 };
            assert(y2[a] == y[a2]);
            assert(y2[b] == y[b2]);
        }
        assert forall|a: int, b: int| 0 <= a < b < x2.len() implies bytes_le(
            utf8(x2[a]@),
            utf8(x2[b]@),
        ) by {
            assert(x2[a] == x[a]);
            assert(x2[b] == x[b]);
        }
        lemma_sorted_same_texts(x2, y2);
        assert forall|k: int| 0 <= k < y.len() implies texts(y)[k] == texts(x)[k] by {
            if k < n {
                assert(texts(x)[k] == texts(x2)[k]);
                assert(texts(x2)[k] == texts(y2)[k]);
                if k < i {
                    assert(y2[k] == y[k]);
                } else {
                    assert(y2[k] == y[k + 1]);
                    assert(y[k + 1]@ == m@);
                    assert(y[k]@ == m@);
                }
            } else {
                assert(y[k]@ == m@);
            }
        }
        assert(texts(x) =~= texts(y));
    }
}

/// Which sorted entries are kept depends only on their texts.
proof fn lemma_kept_by_texts(a: Seq<String>, b: Seq<String>, k: int)
    requires
        texts(a) == texts(b),
        k <= a.len(),
    ensures
        kept(a, k) == kept(b, k),
    decreases k,
{
    assert(a.len() == texts(a).len() && b.len() == texts(b).len());
    if k > 0 {
        lemma_kept_by_texts(a, b, k - 1);
        assert(texts(a)[k - 1] == texts(b)[k - 1]);
        if k < a.len() {
            assert(texts(a)[k] == texts(b)[k]);
        }
    }
}

/// The file rows do not depend on the order of the paths given: two trees built from
/// rearrangements of the same paths list the same files in the same order.
pub proof fn law_build_order_free(t1: TreeV, t2: TreeV, p: Seq<String>, q: Seq<String>)
    requires
        p.to_multiset() == q.to_multiset(),
        files_built_from(t1, p),
        files_built_from(t2, q),
    ensures
        file_paths(t1.nodes, t1.nodes.len() as int) == file_paths(t2.nodes, t2.nodes.len() as int),
{
    let s1 = choose|sorted: Seq<String>|
        {
            &&& #[trigger] sorted.to_multiset() == p.to_multiset()
            &&& byte_sorted(sorted)
            &&& file_paths(t1.nodes, t1.nodes.len() as int) == entry_paths(
                kept(sorted, sorted.len() as int),
                kept(sorted, sorted.len() as int).len() as int,
            )
        };
    let s2 = choose|sorted: Seq<String>|
        {
            &&& #[trigger] sorted.to_multiset() == q.to_multiset()
            &&& byte_sorted(sorted)
            &&& file_paths(t2.nodes, t2.nodes.len() as int) == entry_paths(
                kept(sorted, sorted.len() as int),
                kept(sorted, sorted.len() as int).len() as int,
            )
        };
    lemma_sorted_same_texts(s1, s2);
    assert(s1.len() == texts(s1).len() && s2.len() == texts(s2).len());
    lemma_kept_by_texts(s1, s2, s1.len() as int);
}

proof fn lemma_same_shape_files(a: TreeV, b: TreeV, k: int)
    requires
        a.same_shape(b),
        k <= a.nodes.len(),
    ensures
        count_files(a.nodes, k) == count_files(b.nodes, k),
        file_paths(a.nodes, k) == file_paths(b.nodes, k),
    decreases k,
{
    if k > 0 {
        lemma_same_shape_files(a, b, k - 1);
        assert(a.nodes[k - 1].is_folder == b.nodes[k - 1].is_folder);
        assert(a.nodes[k - 1].path == b.nodes[k - 1].path);
    }
}

/// Selecting, deselecting, expanding and collapsing keep the tree's shape, and a tree of
/// the same shape has the same files: the file count and the file rows never change after
/// the tree is built, while the checked files never outnumber them.
pub proof fn law_shape_keeps_files(a: TreeV, b: TreeV)
    requires
        a.same_shape(b),
    ensures
        a.total_files == b.total_files,
        count_files(a.nodes, a.nodes.len() as int) == count_files(b.nodes, b.nodes.len() as int),
        file_paths(a.nodes, a.nodes.len() as int) == file_paths(b.nodes, b.nodes.len() as int),
        count_checked_files(a.nodes, a.nodes.len() as int) <= count_files(a.nodes, a.nodes.len() as int),
{
    lemma_same_shape_files(a, b, a.nodes.len() as int);
    lemma_checked_le_files(a.nodes, a.nodes.len() as int);
}

/// `next` is `p` followed by a `/` and more: `p` is then a directory record.
pub open spec fn is_dir_record(p: Seq<u8>, next: Seq<u8>) -> bool {
    &&& next.len() > p.len()
    &&& next.subrange(0, p.len() as int) == p
    &&& next[p.len() as int] == 0x2fu8
}

/// Sorted entry `i` is kept: it is not a directory record of the entry after it.
pub open spec fn kept_at(s: Seq<String>, i: int) -> bool {
    !(i + 1 < s.len() && is_dir_record(utf8(s[i]@), utf8(s[i + 1]@)))
}

/// The kept entries among the first `k` sorted entries, in order.
pub open spec fn kept(s: Seq<String>, k: int) -> Seq<Seq<char>>
    decreases k,
{
    if k <= 0 {
        Seq::empty()
    } else if kept_at(s, k - 1) {
        kept(s, k - 1).push(s[k - 1]@)
    } else {
        kept(s, k - 1)
    }
}

/// Sorted entry `i` is dropped exactly when the entry after it continues it with a `/`:
/// its UTF-8 bytes, then the byte `/`, are the start of the next entry's bytes. An entry
/// that is only a byte prefix of the next one (`configure` before `configure.ac`) stays.
pub proof fn law_kept_exactly(s: Seq<String>, i: int)
    requires
        0 <= i < s.len(),
    ensures
        kept_at(s, i) <==> !(i + 1 < s.len() && {
            let p = utf8(s[i]@);
            let q = utf8(s[i + 1]@);
            &&& q.len() >= p.len() + 1
            &&& q.subrange(0, p.len() + 1int) == p.push(0x2fu8)
        }),
{
    if i + 1 < s.len() {
        let p = utf8(s[i]@);
        let q = utf8(s[i + 1]@);
        if q.len() >= p.len() + 1 && q.subrange(0, p.len() + 1int) == p.push(0x2fu8) {
            let sub = q.subrange(0, p.len() + 1int);
            assert forall|k: int| 0 <= k < p.len() implies q.subrange(0, p.len() as int)[k] == p[k] by {
                assert(sub[k] == q[k]);
                assert(p.push(0x2fu8)[k] == p[k]);
            }
            assert(q.subrange(0, p.len() as int) =~= p);
            assert(sub[p.len() as int] == q[p.len() as int]);
            assert(p.push(0x2fu8)[p.len() as int] == 0x2fu8);
            assert(is_dir_record(p, q));
        }
        if is_dir_record(p, q) {
            assert forall|k: int| 0 <= k <= p.len() implies q.subrange(0, p.len() + 1int)[k] == p.push(
                0x2fu8,
            )[k] by {
                if k < p.len() {
                    assert(q.subrange(0, p.len() as int)[k] == q[k]);
                }
            }
            assert(q.subrange(0, p.len() + 1int) =~= p.push(0x2fu8));
        }
    }
}

/// The kept entries are exactly the texts of the entries that are not dropped, in order:
/// every entry not continued by the next one with a `/` is listed, and nothing else.
pub proof fn law_kept_lists(s: Seq<String>, k: int)
    requires
        0 <= k <= s.len(),
    ensures
        forall|i: int| 0 <= i < k && kept_at(s, i) ==> kept(s, k).contains(#[trigger] s[i]@),
        forall|x: Seq<char>|
            kept(s, k).contains(x) ==> exists|i: int| 0 <= i < k && kept_at(s, i) && #[trigger] s[i]@ == x,
    decreases k,
{
    if k > 0 {
        law_kept_lists(s, k - 1);
        let prev = kept(s, k - 1);
        if kept_at(s, k - 1) {
            let now = prev.push(s[k - 1]@);
            assert(kept(s, k) == now);
            assert forall|i: int| 0 <= i < k && kept_at(s, i) implies kept(s, k).contains(#[trigger] s[i]@) by {
                if i < k - 1 {
                    let j = choose|j: int| 0 <= j < prev.len() && prev[j] == s[i]@;
                    assert(now[j] == s[i]@);
                } else {
                    assert(now[now.len() - 1] == s[i]@);
                }
            }
            assert forall|x: Seq<char>| kept(s, k).contains(x) implies exists|i: int|
                0 <= i < k && kept_at(s, i) && #[trigger] s[i]@ == x by {
                let j = choose|j: int| 0 <= j < now.len() && now[j] == x;
                if j < prev.len() {
                    assert(prev[j] == x);
                    assert(prev.contains(x));
                } else {
                    assert(s[k - 1]@ == x);
                }
            }
        }
    }
}

/// Pieces of `s` between `/` separators, empty pieces included.
pub open spec fn split_pieces(s: Seq<char>) -> Seq<Seq<char>>
    decreases s.len(),
{
    if s.len() == 0 {
        seq![Seq::empty()]
    } else {
        let r = split_pieces(s.drop_last());
        if s.last() == '/' {
            r.push(Seq::empty())
        } else {
            r.update(r.len() - 1, r.last().push(s.last()))
        }
    }
}

/// The non-empty pieces, in order.
pub open spec fn drop_empty(ps: Seq<Seq<char>>) -> Seq<Seq<char>>
    decreases ps.len(),
{
    if ps.len() == 0 {
        Seq::empty()
    } else if ps.last().len() > 0 {
        drop_empty(ps.drop_last()).push(ps.last())
    } else {
        drop_empty(ps.drop_last())
    }
}

/// Path components: the non-empty pieces between `/` separators.
pub open spec fn components(s: Seq<char>) -> Seq<Seq<char>> {
    drop_empty(split_pieces(s))
}

/// Components joined with single `/` separators.
pub open spec fn join_slash(cs: Seq<Seq<char>>) -> Seq<char>
    decreases cs.len(),
{
    if cs.len() == 0 {
        Seq::empty()
    } else if cs.len() == 1 {
        cs[0]
    } else {
        join_slash(cs.drop_last()) + seq!['/'] + cs.last()
    }
}

/// The file paths the first `k` entries contribute: each entry with at least one
/// component, its components re-joined.
pub open spec fn entry_paths(files: Seq<Seq<char>>, k: int) -> Seq<Seq<char>>
    decreases k,
{
    if k <= 0 {
        Seq::empty()
    } else if components(files[k - 1]).len() > 0 {
        entry_paths(files, k - 1).push(join_slash(components(files[k - 1])))
    } else {
        entry_paths(files, k - 1)
    }
}

/// `p` is a directory record of `next` (byte comparison, as `str::starts_with` does).
fn dir_record_of(p: &str, next: &str) -> (r: bool)
    ensures
        r == is_dir_record(utf8(p@), utf8(next@)),
{
    let a = p.as_bytes();
    let b = next.as_bytes();
    if b.len() <= a.len() {
        return false;
    }
    let mut i: usize = 0;
    while i < a.len()
        invariant
            a@ == utf8(p@),
            b@ == utf8(next@),
            a.len() < b.len(),
            i <= a.len(),
            forall|k: int| 0 <= k < i ==> a@[k] == b@[k],
        decreases a.len() - i,
    {
        if a[i] != b[i] {
            proof {
                assert(b@.subrange(0, a.len() as int)[i as int] != a@[i as int]);
            }
            return false;
        }
        i = i + 1;
    }
    proof {
        assert(b@.subrange(0, a.len() as int) =~= a@);
    }
    b[a.len()] == 0x2fu8
}

/// The sorted entries that are not directory records of their successor.
fn kept_entries(sorted: &Vec<String>) -> (r: Vec<String>)
    ensures
        r@.map_values(|s: String| s@) == kept(sorted@, sorted@.len() as int),
{
    let mut out: Vec<String> = Vec::new();
    let mut i: usize = 0;
    while i < sorted.len()
        invariant
            i <= sorted.len(),
            out@.map_values(|s: String| s@) == kept(sorted@, i as int),
        decreases sorted.len() - i,
    {
        let keep = if i + 1 < sorted.len() {
            !dir_record_of(sorted[i].as_str(), sorted[i + 1].as_str())
        } else {
            true
        };
        if keep {
            out.push(sorted[i].clone());
        }
        i = i + 1;
        proof {
            assert(out@.map_values(|s: String| s@) =~= kept(sorted@, i as int));
        }
    }
    out
}

/// Views of a list of character vectors.
pub open spec fn char_views(v: Seq<Vec<char>>) -> Seq<Seq<char>> {
    v.map_values(|c: Vec<char>| c@)
}

/// The components of `s`: pieces between `/` separators, empty pieces dropped.
fn path_components(s: &str) -> (r: Vec<Vec<char>>)
    ensures
        char_views(r@) == components(s@),
{
    let cs = crate::text::chars_of(s);
    let mut done: Vec<Vec<char>> = Vec::new();
    let mut cur: Vec<char> = Vec::new();
    let mut i: usize = 0;
    proof {
        assert(cs@.take(0) =~= Seq::<char>::empty());
        assert(char_views(done@) =~= drop_empty(split_pieces(cs@.take(0)).drop_last()));
    }
    while i < cs.len()
        invariant
            i <= cs.len(),
            char_views(done@) == drop_empty(split_pieces(cs@.take(i as int)).drop_last()),
            cur@ == split_pieces(cs@.take(i as int)).last(),
        decreases cs.len() - i,
    {
        let c = cs[i];
        let ghost pre = cs@.take(i as int);
        let ghost r = split_pieces(pre);
        proof {
            assert(cs@.take(i + 1).drop_last() =~= pre);
            assert(cs@.take(i + 1).last() == c);
            lemma_split_pieces_nonempty(pre);
        }
        if c == '/' {
            if cur.len() > 0 {
                done.push(cur);
            }
            cur = Vec::new();
            proof {
                let r2 = split_pieces(cs@.take(i + 1));
                assert(r2 == r.push(Seq::empty()));
                assert(r2.drop_last() =~= r);
                assert(r =~= r.drop_last().push(r.last()));
                assert(char_views(done@) =~= drop_empty(r2.drop_last()));
            }
        } else {
            cur.push(c);
            proof {
                let r2 = split_pieces(cs@.take(i + 1));
                assert(r2 == r.update(r.len() - 1, r.last().push(c)));
                assert(r2.drop_last() =~= r.drop_last());
            }
        }
        i = i + 1;
    }
    proof {
        assert(cs@.take(cs.len() as int) =~= s@);
        let r = split_pieces(s@);
        lemma_split_pieces_nonempty(s@);
        assert(r =~= r.drop_last().push(r.last()));
    }
    if cur.len() > 0 {
        done.push(cur);
    }
    proof {
        assert(char_views(done@) =~= components(s@));
    }
    done
}

proof fn lemma_split_pieces_nonempty(s: Seq<char>)
    ensures
        split_pieces(s).len() > 0,
    decreases s.len(),
{
    if s.len() > 0 {
        lemma_split_pieces_nonempty(s.drop_last());
    }
}

/// There are never more checked files than files.
pub proof fn lemma_checked_le_files(nodes: Seq<NodeV>, k: int)
    requires
        0 <= k <= nodes.len(),
    ensures
        count_checked_files(nodes, k) <= count_files(nodes, k),
    decreases k,
{
    if k > 0 {
        lemma_checked_le_files(nodes, k - 1);
    }
}

/// After the subtree of `idx` is given one uniform state, every node except the proper
/// ancestors of `idx` is consistent.
proof fn lemma_marked_consistent(t0: TreeV, t1: TreeV, idx: int, checked: bool)
    requires
        t0.wf(),
        t1.same_shape(t0),
        0 <= idx < t0.nodes.len(),
        forall|x: int|
            0 <= x < t0.nodes.len() && t0.in_subtree(x, idx) ==> {
                &&& (#[trigger] t1.nodes[x]).checked == checked
                &&& !t1.nodes[x].partial
            },
        forall|x: int|
            0 <= x < t0.nodes.len() && !t0.in_subtree(x, idx) ==> same_flags(t1, t0, x),
    ensures
        forall|p: int| 0 <= p < t0.nodes.len() && !strict_ancestor(t0, idx, p) ==> t1.consistent_at(p),
{
    let n = t0.nodes.len();
            // Only proper ancestors of idx can be out of date now.
    assert forall|p: int| 0 <= p < n && !strict_ancestor(t0, idx, p) implies t1.consistent_at(p) by {
        assert(shape_at(t1.nodes[p], t0.nodes[p]));
        assert(t0.consistent_at(p));
        let kids = t0.nodes[p].children;
        if t0.in_subtree(p, idx) {
            // Every child of p lies in the subtree as well, and carries the same state.
            assert forall|k: int| 0 <= k < kids.len() implies {
                &&& (#[trigger] t1.nodes[kids[k] as int]).checked == checked
                &&& !t1.nodes[kids[k] as int].partial
            } by {
                let c = kids[k];
                assert(t0.nodes[c as int].parent == Some(p as usize));
                assert(match t0.nodes[c as int].parent {
                    Some(q) => (q as int) < c as int && t0.nodes[q as int].children.contains(c),
                    None => t0.roots.contains(c),
                });
                lemma_subtree_step(t0, c as int, p as usize, idx);
            }
            if t1.nodes[p].is_folder {
                assert(kids.len() > 0);
                assert(t1.nodes[kids[0] as int].checked == checked);
            }
        } else {
            assert(same_flags(t1, t0, p));
            assert forall|k: int| 0 <= k < kids.len() implies same_flags(t1, t0, #[trigger] kids[k] as int) by {
                let c = kids[k];
                assert(t0.nodes[c as int].parent == Some(p as usize));
                assert(match t0.nodes[c as int].parent {
                    Some(q) => (q as int) < c as int && t0.nodes[q as int].children.contains(c),
                    None => t0.roots.contains(c),
                });
                if strict_ancestor(t0, idx, c as int) {
                    lemma_subtree_trans(t0, idx, c as int, p as usize);
                    lemma_subtree_after(t0, idx, c as int);
                    assert(strict_ancestor(t0, idx, p));
                }
                if t0.in_subtree(c as int, idx) {
                    if c as int == idx {
                        assert(t0.in_subtree(p, p));
                        lemma_subtree_step(t0, c as int, p as usize, p);
                        assert(strict_ancestor(t0, idx, p));
                    } else {
                        assert(t0.in_subtree(p, idx));
                    }
                }
            }
            if t1.nodes[p].is_folder {
                assert((forall|j: int| 0 <= j < kids.len() ==> #[trigger] t1.nodes[kids[j] as int].checked
                    && !t1.nodes[kids[j] as int].partial) == (forall|j: int| 0 <= j < kids.len() ==> #[trigger] t0.nodes[kids[j] as int].checked
                    && !t0.nodes[kids[j] as int].partial));
                assert((exists|j: int| 0 <= j < kids.len() && (#[trigger] t1.nodes[kids[j] as int].checked
                    || t1.nodes[kids[j] as int].partial)) == (exists|j: int| 0 <= j < kids.len() && (#[trigger] t0.nodes[kids[j] as int].checked
                    || t0.nodes[kids[j] as int].partial)));
            }
        }
    }
}

/// Subtree membership depends only on the parent links.
pub proof fn lemma_subtree_shape(a: TreeV, b: TreeV, x: int, y: int)
    requires
        a.same_shape(b),
    ensures
        a.in_subtree(x, y) == b.in_subtree(x, y),
    decreases x,
{
    if x != y && 0 <= x < a.nodes.len() {
        assert(shape_at(a.nodes[x], b.nodes[x]));
        match a.nodes[x].parent {
            Some(p) => {
                if (p as int) < x {
                    lemma_subtree_shape(a, b, p as int, y);
                }
            },
            None => {},
        }
    }
}

/// Links, labels and paths of two nodes agree.
pub open spec fn shape_at(a: NodeV, b: NodeV) -> bool {
    &&& a.label == b.label
    &&& a.path == b.path
    &&& a.is_folder == b.is_folder
    &&& a.parent == b.parent
    &&& a.children == b.children
}

proof fn lemma_same_shape_from_nodes(a: TreeV, b: TreeV)
    requires
        a.nodes.len() == b.nodes.len(),
        a.roots == b.roots,
        a.total_files == b.total_files,
        forall|i: int| 0 <= i < a.nodes.len() ==> shape_at(#[trigger] a.nodes[i], b.nodes[i]),
    ensures
        a.same_shape(b),
{
}

proof fn lemma_same_shape_trans(a: TreeV, b: TreeV, c: TreeV)
    requires
        a.same_shape(b),
        b.same_shape(c),
    ensures
        a.same_shape(c),
{
    assert forall|i: int| 0 <= i < a.nodes.len() implies shape_at(#[trigger] a.nodes[i], c.nodes[i]) by {
        assert(shape_at(a.nodes[i], b.nodes[i]));
        assert(shape_at(b.nodes[i], c.nodes[i]));
    }
}

/// After `p` is recomputed from its (unchanged) children, it is consistent.
proof fn lemma_refresh_one(t0: TreeV, t1: TreeV, t2: TreeV, p: int, all: bool, any: bool)
    requires
        t0.structure_ok(),
        t1.same_shape(t0),
        t2.same_shape(t0),
        0 <= p < t0.nodes.len(),
        t1.nodes[p].is_folder,
        forall|k: int| 0 <= k < t0.nodes.len() && k != p ==> same_flags(t2, t1, k),
        t2.nodes[p].checked == all,
        t2.nodes[p].partial == (any && !all),
        all == (forall|k: int|
            0 <= k < t1.nodes[p].children.len() ==> #[trigger] t1.nodes[t1.nodes[p].children[k] as int].checked
                && !t1.nodes[t1.nodes[p].children[k] as int].partial),
        any == (exists|k: int|
            0 <= k < t1.nodes[p].children.len() && (#[trigger] t1.nodes[t1.nodes[p].children[k] as int].checked
                || t1.nodes[t1.nodes[p].children[k] as int].partial)),
    ensures
        t2.consistent_at(p),
{
    let n = t0.nodes.len();
    assert(shape_at(t2.nodes[p], t0.nodes[p]));
    assert(shape_at(t1.nodes[p], t0.nodes[p]));
    let kids = t0.nodes[p].children;
    assert forall|k: int| 0 <= k < kids.len() implies {
        &&& t2.nodes[#[trigger] kids[k] as int].checked == t1.nodes[kids[k] as int].checked
        &&& t2.nodes[kids[k] as int].partial == t1.nodes[kids[k] as int].partial
    } by {
        let c = kids[k];
        assert((c as int) < n && t0.nodes[c as int].parent == Some(p as usize));
        assert(match t0.nodes[c as int].parent {
            Some(q) => (q as int) < c as int && t0.nodes[q as int].children.contains(c),
            None => t0.roots.contains(c),
        });
        assert(same_flags(t2, t1, c as int));
    }
    if all {
        assert forall|k: int| 0 <= k < kids.len() implies #[trigger] t2.nodes[kids[k] as int].checked
            && !t2.nodes[kids[k] as int].partial by {
            assert(t1.nodes[t1.nodes[p].children[k] as int].checked);
        }
    } else {
        let k = choose|k: int| 0 <= k < kids.len() && !(t1.nodes[t1.nodes[p].children[k] as int].checked
            && !t1.nodes[t1.nodes[p].children[k] as int].partial);
        assert(!(t2.nodes[kids[k] as int].checked && !t2.nodes[kids[k] as int].partial));
    }
    if any {
        let k = choose|k: int| 0 <= k < kids.len() && (t1.nodes[t1.nodes[p].children[k] as int].checked
            || t1.nodes[t1.nodes[p].children[k] as int].partial);
        assert(t2.nodes[kids[k] as int].checked || t2.nodes[kids[k] as int].partial);
    } else {
        assert forall|k: int| 0 <= k < kids.len() implies !(#[trigger] t2.nodes[kids[k] as int].checked
            || t2.nodes[kids[k] as int].partial) by {
            assert(!(t1.nodes[t1.nodes[p].children[k] as int].checked || t1.nodes[t1.nodes[p].children[k] as int].partial));
        }
    }
}

/// A node none of whose children changed, and which did not change itself, stays
/// consistent.
proof fn lemma_consistent_frame(t0: TreeV, t1: TreeV, t2: TreeV, q: int, p: int)
    requires
        t0.structure_ok(),
        t1.same_shape(t0),
        t2.same_shape(t0),
        0 <= q < t0.nodes.len(),
        0 <= p < t0.nodes.len(),
        q != p,
        !t0.in_subtree(p, q),
        forall|k: int| 0 <= k < t0.nodes.len() && k != p ==> same_flags(t2, t1, k),
        t1.consistent_at(q),
    ensures
        t2.consistent_at(q),
{
    let n = t0.nodes.len();
    assert(shape_at(t2.nodes[q], t0.nodes[q]));
    assert(shape_at(t1.nodes[q], t0.nodes[q]));
    assert(same_flags(t2, t1, q));
    let kids = t0.nodes[q].children;
    assert forall|k: int| 0 <= k < kids.len() implies {
        &&& t2.nodes[#[trigger] kids[k] as int].checked == t1.nodes[kids[k] as int].checked
        &&& t2.nodes[kids[k] as int].partial == t1.nodes[kids[k] as int].partial
    } by {
        let c = kids[k];
        assert((c as int) < n && t0.nodes[c as int].parent == Some(q as usize));
        if c as int == p {
            assert(t0.in_subtree(q, q));
            assert(match t0.nodes[c as int].parent {
                Some(qq) => (qq as int) < c as int && t0.nodes[qq as int].children.contains(c),
                None => t0.roots.contains(c),
            });
            lemma_subtree_step(t0, p, q as usize, q);
        }
        assert(same_flags(t2, t1, c as int));
    }
    if t2.nodes[q].is_folder {
        let nd2 = t2.nodes[q];
        let nd1 = t1.nodes[q];
        assert(nd2.children == kids);
        assert(nd1.children == kids);
        assert((forall|j: int| 0 <= j < kids.len() ==> #[trigger] t2.nodes[kids[j] as int].checked
            && !t2.nodes[kids[j] as int].partial) == (forall|j: int| 0 <= j < kids.len() ==> #[trigger] t1.nodes[kids[j] as int].checked
            && !t1.nodes[kids[j] as int].partial));
        assert((exists|j: int| 0 <= j < kids.len() && (#[trigger] t2.nodes[kids[j] as int].checked
            || t2.nodes[kids[j] as int].partial)) == (exists|j: int| 0 <= j < kids.len() && (#[trigger] t1.nodes[kids[j] as int].checked
            || t1.nodes[kids[j] as int].partial)));
    }
}

/// A node whose parent lies in a subtree lies in it too.
pub proof fn lemma_subtree_step(t: TreeV, x: int, pp: usize, a: int)
    requires
        0 <= x < t.nodes.len(),
        (pp as int) < x,
        t.nodes[x].parent == Some(pp),
        t.in_subtree(pp as int, a),
    ensures
        t.in_subtree(x, a),
{
}

/// Trees of the same shape are equally well structured.
pub proof fn lemma_shape_structure(a: TreeV, b: TreeV)
    requires
        a.same_shape(b),
        b.structure_ok(),
    ensures
        a.structure_ok(),
{
    let n = a.nodes.len();
    assert forall|i: int| 0 <= i < n implies shape_at(#[trigger] a.nodes[i], b.nodes[i]) by {}
    assert forall|i: int|
        0 <= i < n implies match #[trigger] a.nodes[i].parent {
            Some(p) => (p as int) < i && a.nodes[p as int].children.contains(i as usize),
            None => a.roots.contains(i as usize),
        } by {
        assert(shape_at(a.nodes[i], b.nodes[i]));
        match b.nodes[i].parent {
            Some(p) => {
                assert(shape_at(a.nodes[p as int], b.nodes[p as int]));
            },
            None => {},
        }
    }
    assert forall|i: int, j: int|
        0 <= i < n && 0 <= j < a.nodes[i].children.len() implies {
            let c = #[trigger] a.nodes[i].children[j];
            &&& (c as int) < n
            &&& a.nodes[c as int].parent == Some(i as usize)
        } by {
        assert(shape_at(a.nodes[i], b.nodes[i]));
        let c = b.nodes[i].children[j];
        assert(shape_at(a.nodes[c as int], b.nodes[c as int]));
    }
    assert forall|j: int| 0 <= j < a.roots.len() implies {
        let r = #[trigger] a.roots[j];
        &&& (r as int) < n
        &&& a.nodes[r as int].parent is None
    } by {
        let r = b.roots[j];
        assert(shape_at(a.nodes[r as int], b.nodes[r as int]));
    }
    assert forall|i: int| 0 <= i < n implies (!#[trigger] a.nodes[i].is_folder ==> a.nodes[i].children.len() == 0) by {
        assert(shape_at(a.nodes[i], b.nodes[i]));
    }
    assert forall|i: int| 0 <= i < n implies (#[trigger] a.nodes[i].is_folder ==> a.nodes[i].children.len() > 0) by {
        assert(shape_at(a.nodes[i], b.nodes[i]));
    }
    assert forall|i: int| 0 <= i < n implies increasing(#[trigger] a.nodes[i].children) by {
        assert(shape_at(a.nodes[i], b.nodes[i]));
    }
    lemma_count_files_shape(a.nodes, b.nodes, n as int);
}

proof fn lemma_count_files_shape(a: Seq<NodeV>, b: Seq<NodeV>, k: int)
    requires
        0 <= k <= a.len(),
        a.len() == b.len(),
        forall|i: int| 0 <= i < a.len() ==> shape_at(#[trigger] a[i], b[i]),
    ensures
        count_files(a, k) == count_files(b, k),
    decreases k,
{
    if k > 0 {
        assert(shape_at(a[k - 1], b[k - 1]));
        lemma_count_files_shape(a, b, k - 1);
    }
}

/// Every proper ancestor of a node has children.
pub proof fn lemma_ancestor_has_children(t: TreeV, x: int, a: int)
    requires
        t.structure_ok(),
        0 <= x < t.nodes.len(),
        t.in_subtree(x, a),
        x != a,
    ensures
        t.nodes[a].children.len() > 0,
    decreases x,
{
    let p = t.nodes[x].parent.unwrap();
    assert(match t.nodes[x].parent {
        Some(q) => (q as int) < x && t.nodes[q as int].children.contains(x as usize),
        None => t.roots.contains(x as usize),
    });
    if p as int != a {
        lemma_ancestor_has_children(t, p as int, a);
    }
}

/// Subtree membership is transitive along a parent link.
pub proof fn lemma_subtree_trans(t: TreeV, x: int, p: int, c: usize)
    requires
        t.structure_ok(),
        0 <= x < t.nodes.len(),
        0 <= p < t.nodes.len(),
        t.in_subtree(x, p),
        t.nodes[p].parent == Some(c),
    ensures
        t.in_subtree(x, c as int),
    decreases x,
{
    assert(match t.nodes[p].parent {
        Some(q) => (q as int) < p && t.nodes[q as int].children.contains(p as usize),
        None => t.roots.contains(p as usize),
    });
    if x == p {
        assert(t.in_subtree(c as int, c as int));
        lemma_subtree_step(t, p, c, c as int);
    } else {
        let q = t.nodes[x].parent.unwrap();
        assert(match t.nodes[x].parent {
            Some(q) => (q as int) < x && t.nodes[q as int].children.contains(x as usize),
            None => t.roots.contains(x as usize),
        });
        lemma_subtree_trans(t, q as int, p, c);
    }
}


// ─── building the tree ───────────────────────────────────────────────────────

/// Every node has a non-empty label without `/`, and its path is its parent's path,
/// a `/`, and its label (a top-level node's path is its label).
pub open spec fn paths_ok(t: TreeV) -> bool {
    forall|i: int|
        #![trigger t.nodes[i]]
        0 <= i < t.nodes.len() ==> {
            let nd = t.nodes[i];
            &&& nd.label.len() > 0
            &&& !nd.label.contains('/')
            &&& nd.path == match nd.parent {
                None => nd.label,
                Some(p) => t.nodes[p as int].path + seq!['/'] + nd.label,
            }
        }
}

/// No two folders share a path.
pub open spec fn folder_paths_distinct(t: TreeV) -> bool {
    forall|i: int, j: int|
        0 <= i < t.nodes.len() && 0 <= j < t.nodes.len() && i != j && t.nodes[i].is_folder
            && t.nodes[j].is_folder ==> #[trigger] t.nodes[i].path != #[trigger] t.nodes[j].path
}

/// Each folder is directly followed by its first child (folders are created on demand,
/// right before what they hold); only `open`, the last node, may still wait for one.
pub open spec fn folders_lead(t: TreeV, open: Option<usize>) -> bool {
    forall|i: int|
        0 <= i < t.nodes.len() && (#[trigger] t.nodes[i]).is_folder ==> {
            ||| (i + 1 < t.nodes.len() && t.nodes[i + 1].parent == Some(i as usize))
            ||| (open == Some(i as usize) && i == t.nodes.len() - 1)
        }
}

/// Every node is selected, not partial and collapsed.
pub open spec fn all_fresh(t: TreeV) -> bool {
    forall|i: int|
        0 <= i < t.nodes.len() ==> {
            &&& (#[trigger] t.nodes[i]).checked
            &&& !t.nodes[i].partial
            &&& !t.nodes[i].expanded
        }
}

/// The folder index maps exactly the folder paths to their nodes.
pub open spec fn dirs_ok(t: TreeV, dirs: Map<Seq<char>, usize>) -> bool {
    &&& forall|k: Seq<char>|
        #[trigger] dirs.contains_key(k) ==> {
            &&& (dirs[k] as int) < t.nodes.len()
            &&& t.nodes[dirs[k] as int].is_folder
            &&& t.nodes[dirs[k] as int].path == k
        }
    &&& forall|i: int|
        0 <= i < t.nodes.len() && (#[trigger] t.nodes[i]).is_folder ==> {
            &&& dirs.contains_key(t.nodes[i].path)
            &&& dirs[t.nodes[i].path] == i as usize
        }
}

/// The state of a tree while it is being built.
#[verifier::opaque]
pub open spec fn building(t: TreeV, dirs: Map<Seq<char>, usize>, open: Option<usize>) -> bool {
    &&& t.links_ok()
    &&& paths_ok(t)
    &&& all_fresh(t)
    &&& dirs_ok(t, dirs)
    &&& folders_lead(t, open)
}

/// The tree after a fresh (selected, collapsed, childless) node is appended under
/// `parent` (or at the top level).
pub open spec fn pushed(
    t: TreeV,
    label: Seq<char>,
    path: Seq<char>,
    is_folder: bool,
    parent: Option<usize>,
) -> TreeV {
    let n = t.nodes.len();
    let nd = NodeV {
        label,
        path,
        is_folder,
        parent,
        children: Seq::empty(),
        checked: true,
        partial: false,
        expanded: false,
    };
    let nodes1 = t.nodes.push(nd);
    TreeV {
        nodes: match parent {
            Some(p) => nodes1.update(
                p as int,
                NodeV { children: nodes1[p as int].children.push(n as usize), ..nodes1[p as int] },
            ),
            None => nodes1,
        },
        roots: match parent {
            Some(_) => t.roots,
            None => t.roots.push(n as usize),
        },
        total_files: if is_folder {
            t.total_files
        } else {
            t.total_files + 1
        },
    }
}

/// There are never more files than nodes.
proof fn lemma_count_files_le(nodes: Seq<NodeV>, k: int)
    requires
        0 <= k,
    ensures
        count_files(nodes, k) <= k,
    decreases k,
{
    if k > 0 {
        lemma_count_files_le(nodes, k - 1);
    }
}

/// File counts and file paths of a prefix depend only on that prefix's kinds and paths.
proof fn lemma_files_prefix(a: Seq<NodeV>, b: Seq<NodeV>, k: int)
    requires
        0 <= k <= a.len(),
        k <= b.len(),
        forall|i: int|
            0 <= i < k ==> (#[trigger] a[i]).is_folder == b[i].is_folder && a[i].path == b[i].path,
    ensures
        count_files(a, k) == count_files(b, k),
        file_paths(a, k) == file_paths(b, k),
    decreases k,
{
    if k > 0 {
        assert(a[k - 1].is_folder == b[k - 1].is_folder);
        lemma_files_prefix(a, b, k - 1);
    }
}

/// Appending a fresh node under a folder (or at the top level) keeps the tree linked,
/// its paths consistent and every node fresh, and adds the node's path to the file paths
/// when it is a file.
proof fn lemma_pushed(
    t: TreeV,
    label: Seq<char>,
    path: Seq<char>,
    is_folder: bool,
    parent: Option<usize>,
)
    requires
        t.links_ok(),
        paths_ok(t),
        all_fresh(t),
        t.nodes.len() + 1 <= usize::MAX,
        label.len() > 0,
        !label.contains('/'),
        match parent {
            None => path == label,
            Some(p) => {
                &&& (p as int) < t.nodes.len()
                &&& t.nodes[p as int].is_folder
                &&& path == t.nodes[p as int].path + seq!['/'] + label
            },
        },
    ensures
        ({
            let t2 = pushed(t, label, path, is_folder, parent);
            let n = t.nodes.len() as int;
            &&& t2.links_ok()
            &&& paths_ok(t2)
            &&& all_fresh(t2)
            &&& t2.nodes.len() == n + 1
            &&& forall|i: int|
                0 <= i < n ==> {
                    &&& (#[trigger] t2.nodes[i]).label == t.nodes[i].label
                    &&& t2.nodes[i].path == t.nodes[i].path
                    &&& t2.nodes[i].is_folder == t.nodes[i].is_folder
                    &&& t2.nodes[i].parent == t.nodes[i].parent
                    &&& (parent != Some(i as usize) ==> t2.nodes[i].children == t.nodes[i].children)
                }
            &&& t2.nodes[n].path == path
            &&& t2.nodes[n].is_folder == is_folder
            &&& t2.nodes[n].parent == parent
            &&& file_paths(t2.nodes, n + 1) == if is_folder {
                file_paths(t.nodes, n)
            } else {
                file_paths(t.nodes, n).push(path)
            }
        }),
{
    let t2 = pushed(t, label, path, is_folder, parent);
    let n = t.nodes.len() as int;
    assert forall|i: int| 0 <= i < n implies {
        &&& (#[trigger] t2.nodes[i]).label == t.nodes[i].label
        &&& t2.nodes[i].path == t.nodes[i].path
        &&& t2.nodes[i].is_folder == t.nodes[i].is_folder
        &&& t2.nodes[i].parent == t.nodes[i].parent
        &&& (parent != Some(i as usize) ==> t2.nodes[i].children == t.nodes[i].children)
    } by {}
    assert forall|i: int| 0 <= i < n implies (#[trigger] t2.nodes[i]).is_folder == t.nodes[i].is_folder
        && t2.nodes[i].path == t.nodes[i].path by {}
    lemma_files_prefix(t2.nodes, t.nodes, n);
    // links
    assert forall|i: int|
        0 <= i < n + 1 implies match #[trigger] t2.nodes[i].parent {
            Some(p) => (p as int) < i && t2.nodes[p as int].children.contains(i as usize),
            None => t2.roots.contains(i as usize),
        } by {
        if i < n {
            match t.nodes[i].parent {
                Some(q) => {
                    assert((q as int) < i && t.nodes[q as int].children.contains(i as usize));
                    let k = choose|k: int|
                        0 <= k < t.nodes[q as int].children.len() && t.nodes[q as int].children[k]
                            == i as usize;
                    assert(t2.nodes[q as int].children[k] == i as usize);
                },
                None => {
                    assert(t.roots.contains(i as usize));
                    let k = choose|k: int| 0 <= k < t.roots.len() && t.roots[k] == i as usize;
                    assert(t2.roots[k] == i as usize);
                },
            }
        } else {
            match parent {
                Some(p) => {
                    assert(t2.nodes[p as int].children[t.nodes[p as int].children.len() as int]
                        == n as usize);
                },
                None => {
                    assert(t2.roots[t.roots.len() as int] == n as usize);
                },
            }
        }
    }
    assert forall|i: int, j: int|
        0 <= i < n + 1 && 0 <= j < t2.nodes[i].children.len() implies {
            let c = #[trigger] t2.nodes[i].children[j];
            &&& (c as int) < n + 1
            &&& t2.nodes[c as int].parent == Some(i as usize)
        } by {
        if i < n && j < t.nodes[i].children.len() {
            let c = t.nodes[i].children[j];
            assert(t2.nodes[i].children[j] == c);
        }
    }
    assert forall|j: int| 0 <= j < t2.roots.len() implies {
        let r = #[trigger] t2.roots[j];
        &&& (r as int) < n + 1
        &&& t2.nodes[r as int].parent is None
    } by {
        if j < t.roots.len() {
            assert(t2.roots[j] == t.roots[j]);
        }
    }
    assert forall|i: int| 0 <= i < n + 1 implies increasing(#[trigger] t2.nodes[i].children) by {
        if parent == Some(i as usize) {
            let ch = t.nodes[i].children;
            let ch2 = ch.push(n as usize);
            assert forall|a: int, b: int| 0 <= a < b < ch2.len() implies #[trigger] ch2[a]
                < #[trigger] ch2[b] by {
                if b == ch.len() {
                    assert((ch[a] as int) < n);
                }
            }
        }
    }
    assert(increasing(t2.roots)) by {
        if parent is None {
            assert forall|a: int, b: int| 0 <= a < b < t2.roots.len() implies #[trigger] t2.roots[a]
                < #[trigger] t2.roots[b] by {
                if b == t.roots.len() {
                    assert((t.roots[a] as int) < n);
                }
            }
        }
    }
    assert forall|i: int|
        0 <= i < n + 1 implies (!#[trigger] t2.nodes[i].is_folder ==> t2.nodes[i].children.len()
        == 0) by {}
    assert(paths_ok(t2)) by {
        assert forall|i: int| 0 <= i < n + 1 implies {
            let nd = #[trigger] t2.nodes[i];
            &&& nd.label.len() > 0
            &&& !nd.label.contains('/')
            &&& nd.path == match nd.parent {
                None => nd.label,
                Some(p) => t2.nodes[p as int].path + seq!['/'] + nd.label,
            }
        } by {
            if i < n {
                assert(t.nodes[i] == t.nodes[i]);
                match t.nodes[i].parent {
                    Some(q) => {
                        assert((q as int) < i);
                        assert(t2.nodes[q as int].path == t.nodes[q as int].path);
                    },
                    None => {},
                }
            }
        }
    }
}

/// `a + "/" + b` splits uniquely at its last `/` when `b` holds none.
proof fn lemma_split_last_slash(a: Seq<char>, b: Seq<char>, c: Seq<char>, d: Seq<char>)
    requires
        a + seq!['/'] + b == c + seq!['/'] + d,
        !b.contains('/'),
        !d.contains('/'),
    ensures
        a == c,
        b == d,
{
    let s = a + seq!['/'] + b;
    let s2 = c + seq!['/'] + d;
    let a1 = a + seq!['/'];
    let c1 = c + seq!['/'];
    assert(s.len() == s2.len());
    if b.len() < d.len() {
        let i = a.len() as int;
        assert(a1[i] == '/');
        assert(s[i] == '/');
        assert(i >= c1.len());
        assert(s2[i] == d[i - c1.len()]);
        assert(d[i - c1.len()] == '/');
        assert(d.contains('/'));
    } else if d.len() < b.len() {
        let i = c.len() as int;
        assert(c1[i] == '/');
        assert(s2[i] == '/');
        assert(i >= a1.len());
        assert(s[i] == b[i - a1.len()]);
        assert(b[i - a1.len()] == '/');
        assert(b.contains('/'));
    } else {
        assert(a =~= s.subrange(0, a.len() as int));
        assert(c =~= s2.subrange(0, c.len() as int));
        assert(b =~= s.subrange(a.len() as int + 1, s.len() as int));
        assert(d =~= s2.subrange(c.len() as int + 1, s2.len() as int));
    }
}

/// While the last node is a folder that has no child yet, no folder lies inside it.
proof fn lemma_open_has_no_subfolder(
    t: TreeV,
    dirs: Map<Seq<char>, usize>,
    o: usize,
    c: Seq<char>,
)
    requires
        building(t, dirs, Some(o)),
        (o as int) == t.nodes.len() - 1,
        t.nodes[o as int].is_folder,
        !c.contains('/'),
    ensures
        !dirs.contains_key(t.nodes[o as int].path + seq!['/'] + c),
{
    reveal(building);
    let k = t.nodes[o as int].path + seq!['/'] + c;
    if dirs.contains_key(k) {
        let e = dirs[k];
        let nd = t.nodes[e as int];
        assert(nd.path == k);
        match nd.parent {
            None => {
                assert(nd.path == nd.label);
                assert(k[t.nodes[o as int].path.len() as int] == '/');
                assert(nd.label.contains('/'));
            },
            Some(q) => {
                assert(nd.path == t.nodes[q as int].path + seq!['/'] + nd.label);
                lemma_split_last_slash(t.nodes[q as int].path, nd.label, t.nodes[o as int].path, c);
                assert(match t.nodes[e as int].parent {
                    Some(p) => (p as int) < e as int && t.nodes[p as int].children.contains(
                        e as usize,
                    ),
                    None => t.roots.contains(e as usize),
                });
                assert(t.nodes[q as int].children.len() > 0);
                assert(t.nodes[q as int].is_folder);
                assert(dirs[t.nodes[q as int].path] == q);
                assert(dirs[t.nodes[o as int].path] == o);
            },
        }
    }
}

/// The pieces of a path between separators hold no separator.
proof fn lemma_split_pieces_no_slash(s: Seq<char>)
    ensures
        forall|k: int|
            0 <= k < split_pieces(s).len() ==> !(#[trigger] split_pieces(s)[k]).contains('/'),
    decreases s.len(),
{
    if s.len() > 0 {
        let r = split_pieces(s.drop_last());
        lemma_split_pieces_no_slash(s.drop_last());
        lemma_split_pieces_nonempty(s.drop_last());
        if s.last() != '/' {
            let l = r.last().push(s.last());
            assert(!r.last().contains('/'));
            assert forall|i: int| 0 <= i < l.len() implies l[i] != '/' by {
                if i < r.last().len() {
                    assert(l[i] == r.last()[i]);
                }
            }
            assert forall|k: int|
                0 <= k < split_pieces(s).len() implies !(#[trigger] split_pieces(s)[k]).contains(
                '/',
            ) by {
                if k < r.len() - 1 {
                    assert(split_pieces(s)[k] == r[k]);
                }
            }
        } else {
            assert forall|k: int|
                0 <= k < split_pieces(s).len() implies !(#[trigger] split_pieces(s)[k]).contains(
                '/',
            ) by {
                if k < r.len() {
                    assert(split_pieces(s)[k] == r[k]);
                } else {
                    assert(split_pieces(s)[k] =~= Seq::<char>::empty());
                }
            }
        }
    }
}

/// What `drop_empty` keeps is non-empty and taken from its input.
proof fn lemma_drop_empty(ps: Seq<Seq<char>>)
    ensures
        forall|k: int|
            0 <= k < drop_empty(ps).len() ==> (#[trigger] drop_empty(ps)[k]).len() > 0
                && ps.contains(drop_empty(ps)[k]),
    decreases ps.len(),
{
    if ps.len() > 0 {
        lemma_drop_empty(ps.drop_last());
        let r = drop_empty(ps.drop_last());
        assert forall|k: int| 0 <= k < drop_empty(ps).len() implies (#[trigger] drop_empty(
            ps,
        )[k]).len() > 0 && ps.contains(drop_empty(ps)[k]) by {
            if k < r.len() {
                assert(drop_empty(ps)[k] == r[k]);
                let j = choose|j: int| 0 <= j < ps.drop_last().len() && ps.drop_last()[j] == r[k];
                assert(ps[j] == r[k]);
            } else {
                assert(ps[ps.len() - 1] == ps.last());
            }
        }
    }
}

/// Path components are non-empty and hold no separator.
proof fn lemma_components(s: Seq<char>)
    ensures
        forall|k: int|
            0 <= k < components(s).len() ==> (#[trigger] components(s)[k]).len() > 0
                && !components(s)[k].contains('/'),
{
    lemma_split_pieces_no_slash(s);
    lemma_drop_empty(split_pieces(s));
    assert forall|k: int| 0 <= k < components(s).len() implies (#[trigger] components(
        s,
    )[k]).len() > 0 && !components(s)[k].contains('/') by {
        let j = choose|j: int|
            0 <= j < split_pieces(s).len() && split_pieces(s)[j] == components(s)[k];
        assert(!split_pieces(s)[j].contains('/'));
    }
}

/// Where a new node may go during a build: under the open folder if there is one,
/// else under any folder or at the top level, with a matching path.
pub open spec fn push_spot(
    t: TreeV,
    open: Option<usize>,
    label: Seq<char>,
    path: Seq<char>,
    parent: Option<usize>,
) -> bool {
    &&& label.len() > 0
    &&& !label.contains('/')
    &&& match open {
        Some(o) => parent == Some(o) && (o as int) == t.nodes.len() - 1,
        None => true,
    }
    &&& match parent {
        None => path == label,
        Some(p) => {
            &&& (p as int) < t.nodes.len()
            &&& t.nodes[p as int].is_folder
            &&& path == t.nodes[p as int].path + seq!['/'] + label
        },
    }
}

/// The first `k` nodes keep their paths and kinds.
pub open spec fn prefix_kept(t0: TreeV, t1: TreeV, k: int) -> bool {
    &&& k <= t1.nodes.len()
    &&& forall|i: int|
        0 <= i < k ==> {
            &&& (#[trigger] t1.nodes[i]).path == t0.nodes[i].path
            &&& t1.nodes[i].is_folder == t0.nodes[i].is_folder
        }
}

/// A tree under construction is well linked.
proof fn lemma_building_links(t: TreeV, dirs: Map<Seq<char>, usize>, open: Option<usize>)
    requires
        building(t, dirs, open),
    ensures
        t.links_ok(),
{
    reveal(building);
}

/// A folder found in the index of a tree under construction is a folder node with that
/// path.
proof fn lemma_building_dir(t: TreeV, dirs: Map<Seq<char>, usize>, open: Option<usize>, k: Seq<char>)
    requires
        building(t, dirs, open),
        dirs.contains_key(k),
    ensures
        (dirs[k] as int) < t.nodes.len(),
        t.nodes[dirs[k] as int].is_folder,
        t.nodes[dirs[k] as int].path == k,
{
    reveal(building);
}

/// Appending a file during a build closes the open folder.
proof fn lemma_push_file(
    t: TreeV,
    dirs: Map<Seq<char>, usize>,
    open: Option<usize>,
    label: Seq<char>,
    path: Seq<char>,
    parent: Option<usize>,
)
    requires
        building(t, dirs, open),
        push_spot(t, open, label, path, parent),
        t.nodes.len() + 1 <= usize::MAX,
    ensures
        ({
            let t2 = pushed(t, label, path, false, parent);
            &&& building(t2, dirs, None)
            &&& prefix_kept(t, t2, t.nodes.len() as int)
            &&& file_paths(t2.nodes, t2.nodes.len() as int) == file_paths(
                t.nodes,
                t.nodes.len() as int,
            ).push(path)
        }),
{
    reveal(building);
    lemma_pushed(t, label, path, false, parent);
    let t2 = pushed(t, label, path, false, parent);
    let n = t.nodes.len() as int;
    assert forall|i: int|
        0 <= i < t2.nodes.len() && (#[trigger] t2.nodes[i]).is_folder implies {
        &&& dirs.contains_key(t2.nodes[i].path)
        &&& dirs[t2.nodes[i].path] == i as usize
    } by {
        assert(t.nodes[i].is_folder);
    }
    assert forall|i: int|
        0 <= i < t2.nodes.len() && (#[trigger] t2.nodes[i]).is_folder implies {
        ||| (i + 1 < t2.nodes.len() && t2.nodes[i + 1].parent == Some(i as usize))
        ||| (None::<usize> == Some(i as usize) && i == t2.nodes.len() - 1)
    } by {
        assert(t.nodes[i].is_folder);
        if i + 1 < n {
            assert(t2.nodes[i + 1].parent == t.nodes[i + 1].parent);
        }
    }
}

/// Appending a new folder during a build opens it and enters it in the folder index.
proof fn lemma_push_folder(
    t: TreeV,
    dirs: Map<Seq<char>, usize>,
    open: Option<usize>,
    label: Seq<char>,
    path: Seq<char>,
    parent: Option<usize>,
)
    requires
        building(t, dirs, open),
        push_spot(t, open, label, path, parent),
        t.nodes.len() + 1 <= usize::MAX,
        !dirs.contains_key(path),
    ensures
        ({
            let t2 = pushed(t, label, path, true, parent);
            let n = t.nodes.len();
            &&& building(t2, dirs.insert(path, n as usize), Some(n as usize))
            &&& prefix_kept(t, t2, n as int)
            &&& t2.nodes[n as int].is_folder
            &&& t2.nodes[n as int].path == path
            &&& file_paths(t2.nodes, t2.nodes.len() as int) == file_paths(
                t.nodes,
                t.nodes.len() as int,
            )
        }),
{
    reveal(building);
    lemma_pushed(t, label, path, true, parent);
    let t2 = pushed(t, label, path, true, parent);
    let n = t.nodes.len() as int;
    let d2 = dirs.insert(path, n as usize);
    assert forall|kk: Seq<char>| #[trigger] d2.contains_key(kk) implies {
        &&& (d2[kk] as int) < t2.nodes.len()
        &&& t2.nodes[d2[kk] as int].is_folder
        &&& t2.nodes[d2[kk] as int].path == kk
    } by {
        if kk != path {
            assert(dirs.contains_key(kk));
        }
    }
    assert forall|i: int|
        0 <= i < t2.nodes.len() && (#[trigger] t2.nodes[i]).is_folder implies {
        &&& d2.contains_key(t2.nodes[i].path)
        &&& d2[t2.nodes[i].path] == i as usize
    } by {
        if i < n {
            assert(t.nodes[i].is_folder);
            assert(dirs.contains_key(t.nodes[i].path));
        }
    }
    assert forall|i: int|
        0 <= i < t2.nodes.len() && (#[trigger] t2.nodes[i]).is_folder implies {
        ||| (i + 1 < t2.nodes.len() && t2.nodes[i + 1].parent == Some(i as usize))
        ||| (Some(n as usize) == Some(i as usize) && i == t2.nodes.len() - 1)
    } by {
        if i < n {
            assert(t.nodes[i].is_folder);
            if i + 1 < n {
                assert(t2.nodes[i + 1].parent == t.nodes[i + 1].parent);
            }
        }
    }
}

impl ViewTree {
    /// Appends a fresh node under `parent` (or at the top level) and returns its index.
    fn push_node(&mut self, label: String, path: String, is_folder: bool, parent: Option<usize>) -> (idx: usize)
        requires
            old(self).lens_ok(),
            old(self)@.links_ok(),
            match parent {
                Some(p) => (p as int) < old(self)@.nodes.len(),
                None => true,
            },
        ensures
            final(self).lens_ok(),
            final(self)@ == pushed(old(self)@, label@, path@, is_folder, parent),
            idx as int == old(self)@.nodes.len(),
    {
        let ghost t0 = self@;
        proof {
            self.lemma_view_len();
            lemma_count_files_le(t0.nodes, t0.nodes.len() as int);
        }
        let idx = self.nodes.len();
        self.nodes.push(Node { label, path, is_folder, parent, children: Vec::new() });
        self.checked.push(true);
        self.partial.push(false);
        self.expanded.push(false);
        match parent {
            Some(p) => {
                self.nodes[p].children.push(idx);
            },
            None => {
                self.roots.push(idx);
            },
        }
        proof {
            assert(self.total_files as nat == t0.total_files);
            assert(self.nodes.len() == idx + 1);
        }
        if !is_folder {
            self.total_files = self.total_files + 1;
        }
        proof {
            self.lemma_view_len();
            let t2 = pushed(t0, label@, path@, is_folder, parent);
            assert(self@.nodes.len() == t2.nodes.len());
            assert forall|i: int| 0 <= i < t2.nodes.len() implies self@.nodes[i] == t2.nodes[i] by {
                if i < idx {
                    assert(t0.nodes[i].children == old(self).nodes[i].children@);
                }
            }
            assert(self@.nodes =~= t2.nodes);
            assert(self@.roots =~= t2.roots);
        }
        idx
    }

    /// Adds one archive entry, given its path components: a folder node for every
    /// missing folder on the way, then the entry's own file node.
    fn add_entry(&mut self, comps: &Vec<Vec<char>>, dirs: &mut vstd::hash_map::StringHashMap<usize>)
        requires
            old(self).lens_ok(),
            building(old(self)@, old(dirs)@, None),
            forall|k: int|
                0 <= k < comps.len() ==> (#[trigger] comps@[k])@.len() > 0
                    && !comps@[k]@.contains('/'),
        ensures
            final(self).lens_ok(),
            building(final(self)@, final(dirs)@, None),
            old(self)@.nodes.len() <= final(self)@.nodes.len(),
            forall|i: int|
                0 <= i < old(self)@.nodes.len() ==> {
                    &&& (#[trigger] final(self)@.nodes[i]).path == old(self)@.nodes[i].path
                    &&& final(self)@.nodes[i].is_folder == old(self)@.nodes[i].is_folder
                },
            file_paths(final(self)@.nodes, final(self)@.nodes.len() as int) == if comps.len() > 0 {
                file_paths(old(self)@.nodes, old(self)@.nodes.len() as int).push(
                    join_slash(char_views(comps@)),
                )
            } else {
                file_paths(old(self)@.nodes, old(self)@.nodes.len() as int)
            },
    {
        let ghost t0 = self@;
        let ghost cv = char_views(comps@);
        let mut parent: Option<usize> = None;
        let mut prefix: Vec<char> = Vec::new();
        let ghost mut open: Option<usize> = None;
        let mut j: usize = 0;
        while j < comps.len()
            invariant
                0 <= j <= comps.len(),
                cv == char_views(comps@),
                forall|k: int|
                    0 <= k < comps.len() ==> (#[trigger] comps@[k])@.len() > 0
                        && !comps@[k]@.contains('/'),
                self.lens_ok(),
                building(self@, dirs@, open),
                prefix_kept(t0, self@, t0.nodes.len() as int),
                j < comps.len() || comps.len() == 0 ==> file_paths(
                    self@.nodes,
                    self@.nodes.len() as int,
                ) == file_paths(t0.nodes, t0.nodes.len() as int),
                j == comps.len() && j > 0 ==> file_paths(self@.nodes, self@.nodes.len() as int)
                    == file_paths(t0.nodes, t0.nodes.len() as int).push(join_slash(cv)),
                j == comps.len() ==> open is None,
                j < comps.len() ==> prefix@ == join_slash(cv.take(j as int)),
                j < comps.len() ==> match parent {
                    None => j == 0,
                    Some(p) => {
                        &&& j > 0
                        &&& (p as int) < self@.nodes.len()
                        &&& self@.nodes[p as int].is_folder
                        &&& self@.nodes[p as int].path == prefix@
                    },
                },
                match open {
                    Some(o) => parent == Some(o) && (o as int) == self@.nodes.len() - 1,
                    None => true,
                },
            decreases comps.len() - j,
        {
            let comp = &comps[j];
            let ghost old_prefix = prefix@;
            let ghost t1 = self@;
            assert(comp@ == cv[j as int]);
            if j > 0 {
                prefix.push('/');
            }
            let mut k: usize = 0;
            let ghost base = prefix@;
            while k < comp.len()
                invariant
                    k <= comp.len(),
                    prefix@ == base + comp@.take(k as int),
                decreases comp.len() - k,
            {
                prefix.push(comp[k]);
                k = k + 1;
                proof {
                    assert(comp@.take(k as int) =~= comp@.take(k - 1).push(comp@[k - 1]));
                }
            }
            proof {
                assert(comp@.take(comp.len() as int) =~= comp@);
                let tk = cv.take(j + 1);
                if j > 0 {
                    assert(tk.drop_last() =~= cv.take(j as int));
                    assert(prefix@ =~= old_prefix + seq!['/'] + comp@);
                } else {
                    assert(prefix@ =~= comp@);
                }
                assert(prefix@ == join_slash(tk));
            }
            let label = crate::text::string_from_chars(comp.as_slice());
            let path = crate::text::string_from_chars(prefix.as_slice());
            proof {
                self.lemma_view_len();
                assert(push_spot(t1, open, label@, path@, parent));
                lemma_building_links(t1, dirs@, open);
            }
            if j + 1 == comps.len() {
                self.push_node(label, path, false, parent);
                proof {
                    self.lemma_view_len();
                    lemma_push_file(t1, dirs@, open, label@, path@, parent);
                    assert(cv.take(j + 1) =~= cv);
                    open = None;
                }
            } else {
                let found = dirs.get(path.as_str());
                match found {
                    Some(e) => {
                        let e = *e;
                        proof {
                            lemma_building_dir(t1, dirs@, open, path@);
                            match open {
                                Some(o) => {
                                    lemma_open_has_no_subfolder(t1, dirs@, o, comp@);
                                },
                                None => {},
                            }
                        }
                        parent = Some(e);
                        proof {
                            open = None;
                        }
                    },
                    None => {
                        let key = path.clone();
                        let ghost pv = path@;
                        let idx = self.push_node(label, path, true, parent);
                        proof {
                            self.lemma_view_len();
                            lemma_push_folder(t1, dirs@, open, label@, pv, parent);
                        }
                        dirs.insert(key, idx);
                        parent = Some(idx);
                        proof {
                            open = Some(idx);
                        }
                    },
                }
            }
            j = j + 1;
        }
    }
}

/// Whether a freshly built tree shows node `i` expanded: a folder with exactly one
/// child, or the single top-level folder.
pub open spec fn initially_expanded(t: TreeV, i: int) -> bool {
    &&& t.nodes[i].is_folder
    &&& (t.nodes[i].children.len() == 1 || (t.roots.len() == 1 && t.roots[0] == i as usize))
}

/// What a finished build is: a well-structured tree of fresh nodes with consistent
/// paths, distinct folder paths, and folders created right before their contents.
proof fn lemma_built(t: TreeV, dirs: Map<Seq<char>, usize>)
    requires
        building(t, dirs, None),
    ensures
        t.structure_ok(),
        paths_ok(t),
        folder_paths_distinct(t),
        folders_lead(t, None),
        forall|i: int|
            0 <= i < t.nodes.len() ==> {
                &&& (#[trigger] t.nodes[i]).checked
                &&& !t.nodes[i].partial
                &&& !t.nodes[i].expanded
            },
{
    reveal(building);
    let n = t.nodes.len();
    assert forall|i: int| 0 <= i < n implies (#[trigger] t.nodes[i].is_folder ==> t.nodes[i].children.len()
        > 0) by {
        if t.nodes[i].is_folder {
            assert(i + 1 < n && t.nodes[i + 1].parent == Some(i as usize));
            assert(match t.nodes[i + 1].parent {
                Some(p) => (p as int) < i + 1 && t.nodes[p as int].children.contains((i + 1) as usize),
                None => t.roots.contains((i + 1) as usize),
            });
        }
    }
    assert forall|i: int, j: int|
        0 <= i < n && 0 <= j < n && i != j && t.nodes[i].is_folder && t.nodes[j].is_folder implies #[trigger] t.nodes[i].path
        != #[trigger] t.nodes[j].path by {
        assert(dirs[t.nodes[i].path] == i as usize);
        assert(dirs[t.nodes[j].path] == j as usize);
    }
}

impl ViewTree {
    /// Builds the tree of an archive's entry paths (forward slashes, any order). The
    /// paths are sorted by their bytes; a path that is a directory record of the next one
    /// (that one continues it with `/`) is dropped, since folders come from the files'
    /// paths. Each remaining path adds a file node, under a folder node for each of its
    /// folders (created once, on first use). Everything starts selected; a folder starts
    /// expanded when it has exactly one child or is the only top-level node.
    #[verifier::spinoff_prover]
    #[verifier::rlimit(30)]
    pub fn build(paths: Vec<String>) -> (t: ViewTree)
        ensures
            t.wf(),
            paths_ok(t@),
            folder_paths_distinct(t@),
            folders_lead(t@, None),
            forall|i: int|
                0 <= i < t@.nodes.len() ==> {
                    &&& (#[trigger] t@.nodes[i]).checked
                    &&& !t@.nodes[i].partial
                    &&& t@.nodes[i].expanded == initially_expanded(t@, i)
                },
            files_built_from(t@, paths@),
    {
        let mut sorted = paths;
        sort_strings(&mut sorted);
        let files = kept_entries(&sorted);
        let ghost fv = files@.map_values(|s: String| s@);
        let mut tree = ViewTree {
            nodes: Vec::new(),
            checked: Vec::new(),
            partial: Vec::new(),
            expanded: Vec::new(),
            roots: Vec::new(),
            total_files: 0,
        };
        let mut dirs: vstd::hash_map::StringHashMap<usize> = vstd::hash_map::StringHashMap::new();
        proof {
            tree.lemma_view_len();
            reveal(building);
            assert(tree@.nodes.len() == 0);
            assert(increasing(tree@.roots));
        }
        let mut fi: usize = 0;
        while fi < files.len()
            invariant
                fi <= files.len(),
                fv == files@.map_values(|s: String| s@),
                tree.lens_ok(),
                building(tree@, dirs@, None),
                file_paths(tree@.nodes, tree@.nodes.len() as int) == entry_paths(fv, fi as int),
            decreases files.len() - fi,
        {
            let comps = path_components(files[fi].as_str());
            proof {
                assert(fv[fi as int] == files@[fi as int]@);
                lemma_components(files@[fi as int]@);
                assert forall|k: int| 0 <= k < comps.len() implies (#[trigger] comps@[k])@.len() > 0
                    && !comps@[k]@.contains('/') by {
                    assert(char_views(comps@)[k] == comps@[k]@);
                }
            }
            tree.add_entry(&comps, &mut dirs);
            fi = fi + 1;
        }
        let ghost t1 = tree@;
        proof {
            lemma_built(t1, dirs@);
            tree.lemma_view_len();
        }
        let n = tree.nodes.len();
        let mut i: usize = 0;
        while i < n
            invariant
                tree.lens_ok(),
                tree.nodes.len() == n,
                n == t1.nodes.len(),
                i <= n,
                tree@.same_shape(t1),
                forall|x: int|
                    0 <= x < n ==> {
                        &&& (#[trigger] tree@.nodes[x]).checked == t1.nodes[x].checked
                        &&& tree@.nodes[x].partial == t1.nodes[x].partial
                        &&& tree@.nodes[x].expanded == (x < i && t1.nodes[x].is_folder
                            && t1.nodes[x].children.len() == 1)
                    },
            decreases n - i,
        {
            let ghost t2 = tree@;
            proof {
                tree.lemma_view_len();
                assert(shape_at(t2.nodes[i as int], t1.nodes[i as int]));
            }
            if tree.nodes[i].is_folder && tree.nodes[i].children.len() == 1 {
                tree.expanded.set(i, true);
            }
            i = i + 1;
            proof {
                tree.lemma_view_len();
                assert forall|x: int| 0 <= x < n implies shape_at(#[trigger] tree@.nodes[x], t2.nodes[x]) by {}
                lemma_same_shape_from_nodes(tree@, t2);
                lemma_same_shape_trans(tree@, t2, t1);
            }
        }
        let ghost t3 = tree@;
        proof {
            tree.lemma_view_len();
        }
        if tree.roots.len() == 1 && tree.nodes[tree.roots[0]].is_folder {
            let r = tree.roots[0];
            tree.expanded.set(r, true);
        }
        proof {
            tree.lemma_view_len();
            let t = tree@;
            assert forall|x: int| 0 <= x < n implies shape_at(#[trigger] t.nodes[x], t3.nodes[x]) by {}
            lemma_same_shape_from_nodes(t, t3);
            lemma_same_shape_trans(t, t3, t1);
            lemma_shape_structure(t, t1);
            assert forall|x: int| 0 <= x < n implies shape_at(#[trigger] t.nodes[x], t1.nodes[x]) by {
                assert(shape_at(t.nodes[x], t3.nodes[x]));
                assert(shape_at(t3.nodes[x], t1.nodes[x]));
            }
            assert forall|x: int| 0 <= x < n implies {
                &&& (#[trigger] t.nodes[x]).checked
                &&& !t.nodes[x].partial
                &&& t.nodes[x].expanded == initially_expanded(t, x)
            } by {
                assert(shape_at(t.nodes[x], t1.nodes[x]));
            }
            assert forall|p: int| 0 <= p < n implies t.consistent_at(p) by {
                let kids = t.nodes[p].children;
                assert forall|k: int| 0 <= k < kids.len() implies (#[trigger] t.nodes[kids[k] as int]).checked
                    && !t.nodes[kids[k] as int].partial by {
                    assert((kids[k] as int) < n);
                }
            }
            assert(paths_ok(t)) by {
                assert forall|x: int| 0 <= x < n implies #[trigger] t.nodes[x] == t.nodes[x] by {
                    assert(shape_at(t.nodes[x], t1.nodes[x]));
                    match t1.nodes[x].parent {
                        Some(p) => {
                            assert(t1.nodes[x] == t1.nodes[x]);
                            assert((p as int) < x);
                            assert(shape_at(t.nodes[p as int], t1.nodes[p as int]));
                        },
                        None => {},
                    }
                }
            }
            assert(folders_lead(t, None)) by {
                assert forall|x: int| 0 <= x < n && (#[trigger] t.nodes[x]).is_folder implies {
                    ||| (x + 1 < t.nodes.len() && t.nodes[x + 1].parent == Some(x as usize))
                    ||| (None::<usize> == Some(x as usize) && x == t.nodes.len() - 1)
                } by {
                    assert(shape_at(t.nodes[x], t1.nodes[x]));
                    assert(t1.nodes[x].is_folder);
                    assert(shape_at(t.nodes[x + 1], t1.nodes[x + 1]));
                }
            }
            assert(folder_paths_distinct(t)) by {
                assert forall|a: int, b: int|
                    0 <= a < n && 0 <= b < n && a != b && t.nodes[a].is_folder && t.nodes[b].is_folder implies #[trigger] t.nodes[a].path
                    != #[trigger] t.nodes[b].path by {
                    assert(shape_at(t.nodes[a], t1.nodes[a]));
                    assert(shape_at(t.nodes[b], t1.nodes[b]));
                    assert(t1.nodes[a].path != t1.nodes[b].path);
                }
            }
            lemma_files_prefix(t.nodes, t1.nodes, n as int);
            assert(fv == kept(sorted@, sorted@.len() as int));
        }
        tree
    }
}

} // verus!
