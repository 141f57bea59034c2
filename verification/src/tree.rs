//! The hierarchical addressing scheme: named menu nodes linked by
//! parent/child references, navigated by descend and ascend.
//!
//! The tree is an arena: a vector of nodes looked up by string identifier,
//! with child lists as ordered identifier sequences. Parents always stand
//! before their children in the arena, so no identifier is its own ancestor.

use vstd::prelude::*;

verus! {

/// A named node: its identifier, its parent's identifier (empty for the
/// root), a display label, and the identifiers of its children in order.
pub struct MenuNode {
    pub id: String,
    pub parent_id: String,
    pub label: String,
    pub children: Vec<String>,
}

/// Mathematical model of a node.
#[verifier::ext_equal]
pub struct NodeV {
    pub id: Seq<char>,
    pub parent_id: Seq<char>,
    pub label: Seq<char>,
    pub children: Seq<Seq<char>>,
}

impl View for MenuNode {
    type V = NodeV;

    open spec fn view(&self) -> NodeV {
        NodeV {
            id: self.id@,
            parent_id: self.parent_id@,
            label: self.label@,
            children: Seq::new(self.children@.len(), |i: int| self.children@[i]@),
        }
    }
}

/// A menu tree: the node arena, the identifier of the current node, and the
/// cyclic cursor over the current node's children.
pub struct MenuTree {
    pub nodes: Vec<MenuNode>,
    pub current_node_id: String,
    pub selected_child_index: usize,
}

/// Mathematical model of a menu tree.
#[verifier::ext_equal]
pub struct TreeV {
    pub nodes: Seq<NodeV>,
    pub current: Seq<char>,
    pub sel: nat,
}

impl View for MenuTree {
    type V = TreeV;

    open spec fn view(&self) -> TreeV {
        TreeV {
            nodes: Seq::new(self.nodes@.len(), |i: int| self.nodes@[i]@),
            current: self.current_node_id@,
            sel: self.selected_child_index as nat,
        }
    }
}

/// The distinguished identifier of the tree's root node.
pub open spec fn root_id() -> Seq<char> {
    "root"@
}

/// Whether the child at position `k` of node `i` refers to an existing
/// non-root node whose parent reference points back at node `i`.
pub open spec fn child_ok(v: TreeV, i: int, k: int) -> bool {
    exists|j: int|
        1 <= j < v.nodes.len() && (#[trigger] v.nodes[j]).id == v.nodes[i].children[k]
            && v.nodes[j].parent_id == v.nodes[i].id
}

impl TreeV {
    /// Whether some node carries the given identifier.
    pub open spec fn has_node(self, id: Seq<char>) -> bool {
        exists|i: int| 0 <= i < self.nodes.len() && (#[trigger] self.nodes[i]).id == id
    }

    /// The arena position of the node carrying the given identifier; under
    /// `wf` that position is unique.
    pub open spec fn node_at(self, id: Seq<char>) -> int {
        choose|i: int| 0 <= i < self.nodes.len() && (#[trigger] self.nodes[i]).id == id
    }

    /// The model of the node carrying the given identifier.
    pub open spec fn node(self, id: Seq<char>) -> NodeV {
        self.nodes[self.node_at(id)]
    }

    /// The model of the current node.
    pub open spec fn current_node(self) -> NodeV {
        self.node(self.current)
    }

    /// The tree invariant: the root stands first with an empty parent
    /// reference; identifiers are nonempty and distinct; every later node's
    /// parent stands strictly before it in the arena (so the node graph is a
    /// tree and no identifier is its own ancestor); every child reference
    /// resolves to a non-root node pointing back at its parent; the current
    /// identifier resolves; and the child cursor is in range, resting at
    /// zero under a childless node.
    pub open spec fn wf(self) -> bool {
        &&& self.nodes.len() > 0
        &&& self.nodes[0].id == root_id()
        &&& self.nodes[0].parent_id == Seq::<char>::empty()
        &&& forall|i: int| 0 <= i < self.nodes.len() ==> (#[trigger] self.nodes[i]).id.len() > 0
        &&& forall|i: int, j: int|
            0 <= i < j < self.nodes.len() ==> self.nodes[i].id != self.nodes[j].id
        &&& forall|i: int|
            1 <= i < self.nodes.len() ==> exists|j: int|
                0 <= j < i && (#[trigger] self.nodes[j]).id == (#[trigger] self.nodes[i]).parent_id
        &&& forall|i: int, k: int|
            0 <= i < self.nodes.len() && 0 <= k < self.nodes[i].children.len()
                ==> #[trigger] child_ok(self, i, k)
        &&& self.has_node(self.current)
        &&& if self.current_node().children.len() == 0 {
            self.sel == 0
        } else {
            self.sel < self.current_node().children.len()
        }
    }

    /// The tree after one cyclic step of the child cursor towards later
    /// children; a childless current node leaves it unchanged.
    pub open spec fn select_next_v(self) -> TreeV {
        let n = self.current_node().children.len();
        if n == 0 {
            self
        } else {
            TreeV { sel: (self.sel + 1) % n, ..self }
        }
    }

    /// The tree after one cyclic step of the child cursor towards earlier
    /// children; a childless current node leaves it unchanged.
    pub open spec fn select_prev_v(self) -> TreeV {
        let n = self.current_node().children.len();
        if n == 0 {
            self
        } else {
            TreeV { sel: (((self.sel + n - 1) as int % n as int) as nat), ..self }
        }
    }

    /// The tree after entering the selected child: that child becomes
    /// current and the cursor rests at zero. A childless current node
    /// leaves the tree unchanged.
    pub open spec fn descend_v(self) -> TreeV {
        if self.current_node().children.len() == 0 {
            self
        } else {
            TreeV { current: self.current_node().children[self.sel as int], sel: 0, ..self }
        }
    }

    /// The tree after stepping back to the current node's parent, with the
    /// cursor at zero. The root, whose parent reference is empty, leaves
    /// the tree unchanged.
    pub open spec fn ascend_v(self) -> TreeV {
        if self.current_node().parent_id.len() == 0 {
            self
        } else {
            TreeV { current: self.current_node().parent_id, sel: 0, ..self }
        }
    }
}

/// The line a child renders to: its label inside `">"`/`"<"` when it is the
/// selected child, inside single spaces otherwise.
pub open spec fn tree_line(label: Seq<char>, selected: bool) -> Seq<char> {
    if selected {
        ">"@ + label + "<"@
    } else {
        " "@ + label + " "@
    }
}

/// What the first `n` children of the current node render to: one line per
/// child, each followed by a line break, in child order.
pub open spec fn render_children_upto(v: TreeV, n: int) -> Seq<char>
    decreases n,
{
    if n <= 0 {
        Seq::<char>::empty()
    } else {
        render_children_upto(v, n - 1) + tree_line(
            v.node(v.current_node().children[n - 1]).label,
            n - 1 == v.sel as int,
        ) + "\n"@
    }
}

/// What the tree renders to: one line per child of the current node.
pub open spec fn render_v(v: TreeV) -> Seq<char> {
    render_children_upto(v, v.current_node().children.len() as int)
}

/// Under the tree invariant a held identifier resolves to exactly one
/// arena position.
pub proof fn lemma_node_at(v: TreeV, id: Seq<char>)
    requires
        v.has_node(id),
        forall|i: int, j: int| 0 <= i < j < v.nodes.len() ==> v.nodes[i].id != v.nodes[j].id,
    ensures
        0 <= v.node_at(id) < v.nodes.len(),
        v.nodes[v.node_at(id)].id == id,
        forall|i: int|
            0 <= i < v.nodes.len() && (#[trigger] v.nodes[i]).id == id ==> i == v.node_at(id),
{
    let p = v.node_at(id);
    assert forall|i: int|
        0 <= i < v.nodes.len() && (#[trigger] v.nodes[i]).id == id implies i == p by {
        if i < p {
            assert(v.nodes[i].id != v.nodes[p].id);
        } else if p < i {
            assert(v.nodes[p].id != v.nodes[i].id);
        }
    }
}

/// A tree with the same arena as a well-formed one, whose current
/// identifier resolves at `cpos` and whose child cursor is in range for
/// that node, is well-formed itself.
proof fn lemma_wf_from_parts(v0: TreeV, v1: TreeV, cpos: int)
    requires
        v0.wf(),
        v1.nodes == v0.nodes,
        0 <= cpos < v1.nodes.len(),
        v1.nodes[cpos].id == v1.current,
        if v1.nodes[cpos].children.len() == 0 {
            v1.sel == 0
        } else {
            v1.sel < v1.nodes[cpos].children.len()
        },
    ensures
        v1.wf(),
{
    assert(v1.nodes[0] == v0.nodes[0]);
    assert forall|i: int| 0 <= i < v1.nodes.len() implies (#[trigger] v1.nodes[i]).id.len()
        > 0 by {
        assert(v0.nodes[i].id.len() > 0);
    }
    assert forall|i: int, j: int|
        0 <= i < j < v1.nodes.len() implies v1.nodes[i].id != v1.nodes[j].id by {
        assert(v0.nodes[i].id != v0.nodes[j].id);
    }
    assert forall|i: int| 1 <= i < v1.nodes.len() implies exists|j: int|
        0 <= j < i && (#[trigger] v1.nodes[j]).id == (#[trigger] v1.nodes[i]).parent_id by {
        assert(v0.nodes[i] == v1.nodes[i]);
        let j0 = choose|j: int|
            0 <= j < i && (#[trigger] v0.nodes[j]).id == v0.nodes[i].parent_id;
        assert(v1.nodes[j0].id == v1.nodes[i].parent_id);
    }
    assert forall|i: int, k: int|
        0 <= i < v1.nodes.len() && 0 <= k < v1.nodes[i].children.len()
        implies #[trigger] child_ok(v1, i, k) by {
        assert(v0.nodes[i] == v1.nodes[i]);
        assert(child_ok(v0, i, k));
        let j0 = choose|j: int|
            1 <= j < v0.nodes.len() && (#[trigger] v0.nodes[j]).id == v0.nodes[i].children[k]
                && v0.nodes[j].parent_id == v0.nodes[i].id;
        assert(v1.nodes[j0].id == v1.nodes[i].children[k] && v1.nodes[j0].parent_id
            == v1.nodes[i].id);
    }
    assert(v1.has_node(v1.current));
    lemma_node_at(v1, v1.current);
    assert(v1.node_at(v1.current) == cpos);
}

/// Whether two strings hold the same characters.
fn str_key_eq(a: &String, b: &String) -> (r: bool)
    ensures
        r == (a@ == b@),
{
    a.eq(b)
}

impl MenuTree {
    /// Create a tree holding only the root node, current and with its
    /// cursor at zero.
    pub fn new() -> (r: Self)
        ensures
            r@.nodes.len() == 1,
            r@.nodes[0] == (NodeV {
                id: root_id(),
                parent_id: Seq::<char>::empty(),
                label: root_id(),
                children: Seq::<Seq<char>>::empty(),
            }),
            r@.current == root_id(),
            r@.sel == 0,
            r@.wf(),
    {
        let root = MenuNode {
            id: "root".to_owned(),
            parent_id: String::new(),
            label: "root".to_owned(),
            children: Vec::new(),
        };
        let mut nodes: Vec<MenuNode> = Vec::new();
        nodes.push(root);
        let r = MenuTree {
            nodes,
            current_node_id: "root".to_owned(),
            selected_child_index: 0,
        };
        proof {
            reveal_strlit("root");
            assert(r@.nodes[0].children =~= Seq::<Seq<char>>::empty());
            assert(r@.nodes[0] =~= (NodeV {
                id: root_id(),
                parent_id: Seq::<char>::empty(),
                label: root_id(),
                children: Seq::<Seq<char>>::empty(),
            }));
            assert(r@.has_node(r@.current));
            assert(r@.current_node().children.len() == 0) by {
                lemma_node_at(r@, r@.current);
            }
        }
        r
    }

    /// Find the arena position of the node carrying the given identifier.
    fn find_node(&self, id: &String) -> (r: Option<usize>)
        ensures
            match r {
                Some(i) => i < self@.nodes.len() && self@.nodes[i as int].id == id@,
                None => forall|m: int|
                    0 <= m < self@.nodes.len() ==> (#[trigger] self@.nodes[m]).id != id@,
            },
    {
        let mut i: usize = 0;
        while i < self.nodes.len()
            invariant
                i <= self.nodes@.len(),
                self@.nodes.len() == self.nodes@.len(),
                forall|m: int| 0 <= m < i ==> (#[trigger] self@.nodes[m]).id != id@,
            decreases self.nodes@.len() - i,
        {
            if str_key_eq(&self.nodes[i].id, id) {
                return Some(i);
            }
            i = i + 1;
        }
        None
    }

    /// Attach a new node under an existing parent. The call fails loudly
    /// and changes nothing when the parent is unknown, when the identifier
    /// is already taken, or when it is empty; otherwise the identifier is
    /// appended to the parent's children and the node joins the arena.
    pub fn add_node(&mut self, parent_id: &str, id: &str, label: &str) -> (r: bool)
        requires
            old(self)@.wf(),
        ensures
            r == (old(self)@.has_node(parent_id@) && !old(self)@.has_node(id@) && id@.len() > 0),
            !r ==> final(self)@ == old(self)@,
            r ==> final(self)@ =~= (TreeV {
                nodes: old(self)@.nodes.update(
                    old(self)@.node_at(parent_id@),
                    (NodeV {
                        children: old(self)@.node(parent_id@).children.push(id@),
                        ..old(self)@.node(parent_id@)
                    }),
                ).push(
                    (NodeV {
                        id: id@,
                        parent_id: parent_id@,
                        label: label@,
                        children: Seq::<Seq<char>>::empty(),
                    }),
                ),
                ..old(self)@
            }),
            final(self)@.wf(),
    {
        let ghost v0 = self@;
        if id.is_empty() {
            return false;
        }
        let key_parent = parent_id.to_owned();
        let pp = match self.find_node(&key_parent) {
            Some(p) => p,
            None => {
                proof {
                    assert(!v0.has_node(parent_id@));
                }
                return false;
            },
        };
        proof {
            assert(v0.has_node(parent_id@));
            lemma_node_at(v0, parent_id@);
            assert(pp as int == v0.node_at(parent_id@));
        }
        let key_id = id.to_owned();
        match self.find_node(&key_id) {
            Some(_) => {
                proof {
                    assert(v0.has_node(id@));
                }
                return false;
            },
            None => {},
        }
        proof {
            assert(!v0.has_node(id@));
        }
        let child_entry = id.to_owned();
        let node = MenuNode {
            id: key_id,
            parent_id: key_parent,
            label: label.to_owned(),
            children: Vec::new(),
        };
        let p_ref = &mut self.nodes[pp];
        p_ref.children.push(child_entry);
        self.nodes.push(node);
        proof {
            let v1 = self@;
            let n0 = v0.nodes.len() as int;
            let pv = NodeV {
                children: v0.node(parent_id@).children.push(id@),
                ..v0.node(parent_id@)
            };
            let nv = NodeV {
                id: id@,
                parent_id: parent_id@,
                label: label@,
                children: Seq::<Seq<char>>::empty(),
            };
            assert(v1.nodes[pp as int].children =~= v0.nodes[pp as int].children.push(id@));
            assert(v1.nodes[pp as int] =~= pv);
            assert(v1.nodes[n0].children =~= Seq::<Seq<char>>::empty());
            assert(v1.nodes[n0] =~= nv);
            assert(v1.nodes =~= v0.nodes.update(pp as int, pv).push(nv));
            assert(v1 =~= (TreeV { nodes: v0.nodes.update(pp as int, pv).push(nv), ..v0 }));
            // identifiers are preserved at every old position
            assert(forall|i: int| 0 <= i < n0 && i != pp ==> v1.nodes[i] == v0.nodes[i]);
            assert(forall|i: int|
                0 <= i < n0 ==> (#[trigger] v1.nodes[i]).id == v0.nodes[i].id
                    && v1.nodes[i].parent_id == v0.nodes[i].parent_id);
            assert forall|i: int, j: int|
                0 <= i < j < v1.nodes.len() implies v1.nodes[i].id != v1.nodes[j].id by {
                if j < n0 {
                    assert(v0.nodes[i].id != v0.nodes[j].id);
                } else {
                    assert(v0.nodes[i].id != id@);
                }
            }
            assert forall|i: int| 1 <= i < v1.nodes.len() implies exists|j: int|
                0 <= j < i && (#[trigger] v1.nodes[j]).id == (#[trigger] v1.nodes[i]).parent_id by {
                if i < n0 {
                    let j0 = choose|j: int|
                        0 <= j < i && (#[trigger] v0.nodes[j]).id == v0.nodes[i].parent_id;
                    assert(v1.nodes[j0].id == v1.nodes[i].parent_id);
                } else {
                    assert(v1.nodes[pp as int].id == v1.nodes[i].parent_id);
                }
            }
            assert forall|i: int, k: int|
                0 <= i < v1.nodes.len() && 0 <= k < v1.nodes[i].children.len()
                implies #[trigger] child_ok(v1, i, k) by {
                if i < n0 && (i != pp || k < v0.nodes[pp as int].children.len()) {
                    assert(v1.nodes[i].children[k] == v0.nodes[i].children[k]);
                    assert(child_ok(v0, i, k));
                    let j0 = choose|j: int|
                        1 <= j < v0.nodes.len() && (#[trigger] v0.nodes[j]).id
                            == v0.nodes[i].children[k] && v0.nodes[j].parent_id == v0.nodes[i].id;
                    assert(v1.nodes[j0].id == v1.nodes[i].children[k]
                        && v1.nodes[j0].parent_id == v1.nodes[i].id);
                } else if i == pp && k == v0.nodes[pp as int].children.len() {
                    assert(v1.nodes[i].children[k] == id@);
                    assert(n0 >= 1);
                    assert(v1.nodes[n0].id == id@ && v1.nodes[n0].parent_id == v1.nodes[pp as int].id);
                } else {
                    assert(i == n0);
                    assert(v1.nodes[i].children.len() == 0);
                }
            }
            let w0 = choose|i: int| 0 <= i < v0.nodes.len() && (#[trigger] v0.nodes[i]).id == v0.current;
            assert(v1.nodes[w0].id == v1.current);
            assert(v1.has_node(v1.current));
            lemma_node_at(v0, v0.current);
            lemma_node_at(v1, v1.current);
            let c0 = v0.node_at(v0.current);
            assert(v1.nodes[c0].id == v1.current);
            assert(v1.node_at(v1.current) == c0);
            if c0 == pp {
                assert(v1.current_node().children.len() == v0.current_node().children.len() + 1);
            } else {
                assert(v1.current_node() == v0.current_node());
            }
        }
        true
    }

    /// Render the current node's children, one line each: the selected
    /// child's label inside `">"`/`"<"`, the others' inside single spaces.
    pub fn render(&self) -> (r: String)
        requires
            self@.wf(),
        ensures
            r@ == render_v(self@),
    {
        let ghost v = self@;
        proof {
            lemma_node_at(v, v.current);
        }
        let cpos = match self.find_node(&self.current_node_id) {
            Some(c) => c,
            None => {
                proof {
                    assert(false);
                }
                return String::new();
            },
        };
        proof {
            assert(cpos as int == v.node_at(v.current));
        }
        let mut s = String::new();
        let mut k: usize = 0;
        let n = self.nodes[cpos].children.len();
        while k < n
            invariant
                self@ == v,
                v.wf(),
                cpos as int == v.node_at(v.current),
                cpos < self.nodes@.len(),
                n as nat == v.current_node().children.len(),
                k <= n,
                s@ == render_children_upto(v, k as int),
            decreases n - k,
        {
            let child = &self.nodes[cpos].children[k];
            proof {
                assert(child_ok(v, cpos as int, k as int));
            }
            let jpos = match self.find_node(child) {
                Some(j) => j,
                None => {
                    proof {
                        let w = choose|j: int|
                            1 <= j < v.nodes.len() && (#[trigger] v.nodes[j]).id
                                == v.nodes[cpos as int].children[k as int] && v.nodes[j].parent_id
                                == v.nodes[cpos as int].id;
                        assert(v.nodes[w].id == child@);
                        assert(false);
                    }
                    0
                },
            };
            proof {
                assert(v.has_node(child@));
                lemma_node_at(v, child@);
                assert(jpos as int == v.node_at(child@));
            }
            if k == self.selected_child_index {
                s.append(">");
                s.append(self.nodes[jpos].label.as_str());
                s.append("<");
            } else {
                s.append(" ");
                s.append(self.nodes[jpos].label.as_str());
                s.append(" ");
            }
            s.append("\n");
            proof {
                let line = tree_line(v.node(v.current_node().children[k as int]).label,
                    k as int == v.sel as int);
                assert(s@ =~= render_children_upto(v, k as int) + line + "\n"@);
                assert(s@ == render_children_upto(v, k + 1 as int));
            }
            k = k + 1;
        }
        s
    }

    /// Move the child cursor cyclically to the next child, wrapping from
    /// the last child to the first. A childless current node is left
    /// unchanged.
    pub fn select_next(&mut self)
        requires
            old(self)@.wf(),
        ensures
            final(self)@ =~= old(self)@.select_next_v(),
            final(self)@.wf(),
    {
        let ghost v0 = self@;
        proof {
            lemma_node_at(v0, v0.current);
        }
        let cpos = match self.find_node(&self.current_node_id) {
            Some(c) => c,
            None => {
                proof {
                    assert(false);
                }
                return ;
            },
        };
        proof {
            assert(cpos as int == v0.node_at(v0.current));
        }
        let n = self.nodes[cpos].children.len();
        if n == 0 {
            return ;
        }
        let sel = self.selected_child_index;
        self.selected_child_index = if sel + 1 == n {
            0
        } else {
            sel + 1
        };
        proof {
            let m = n as nat;
            if sel + 1 == n {
                assert((v0.sel + 1) % m == 0) by (nonlinear_arith)
                    requires v0.sel + 1 == m && m > 0;
            } else {
                assert((v0.sel + 1) % m == v0.sel + 1) by (nonlinear_arith)
                    requires 0 <= v0.sel + 1 < m;
            }
            assert(self@ =~= v0.select_next_v());
            lemma_wf_from_parts(v0, self@, cpos as int);
        }
    }

    /// Move the child cursor cyclically to the previous child, wrapping
    /// from the first child to the last. A childless current node is left
    /// unchanged.
    pub fn select_previous(&mut self)
        requires
            old(self)@.wf(),
        ensures
            final(self)@ =~= old(self)@.select_prev_v(),
            final(self)@.wf(),
    {
        let ghost v0 = self@;
        proof {
            lemma_node_at(v0, v0.current);
        }
        let cpos = match self.find_node(&self.current_node_id) {
            Some(c) => c,
            None => {
                proof {
                    assert(false);
                }
                return ;
            },
        };
        proof {
            assert(cpos as int == v0.node_at(v0.current));
        }
        let n = self.nodes[cpos].children.len();
        if n == 0 {
            return ;
        }
        let sel = self.selected_child_index;
        self.selected_child_index = if sel == 0 {
            n - 1
        } else {
            sel - 1
        };
        proof {
            let m = n as int;
            if sel == 0 {
                assert((0 + m - 1) % m == m - 1) by (nonlinear_arith)
                    requires m > 0;
            } else {
                assert((v0.sel as int + m - 1) % m == v0.sel - 1) by (nonlinear_arith)
                    requires 1 <= (v0.sel as int) && (v0.sel as int) < m;
            }
            assert(self@ =~= v0.select_prev_v());
            lemma_wf_from_parts(v0, self@, cpos as int);
        }
    }

    /// Enter the selected child: it becomes the current node and the child
    /// cursor rests at zero. Reports whether anything happened; a childless
    /// current node is left unchanged.
    pub fn descend(&mut self) -> (r: bool)
        requires
            old(self)@.wf(),
        ensures
            r == (old(self)@.current_node().children.len() > 0),
            final(self)@ =~= old(self)@.descend_v(),
            final(self)@.wf(),
    {
        let ghost v0 = self@;
        proof {
            lemma_node_at(v0, v0.current);
        }
        let cpos = match self.find_node(&self.current_node_id) {
            Some(c) => c,
            None => {
                proof {
                    assert(false);
                }
                return false;
            },
        };
        proof {
            assert(cpos as int == v0.node_at(v0.current));
        }
        if self.nodes[cpos].children.len() == 0 {
            return false;
        }
        let target = self.nodes[cpos].children[self.selected_child_index].clone();
        self.current_node_id = target;
        self.selected_child_index = 0;
        proof {
            let v1 = self@;
            assert(child_ok(v0, cpos as int, v0.sel as int));
            let j = choose|j: int|
                1 <= j < v0.nodes.len() && (#[trigger] v0.nodes[j]).id
                    == v0.nodes[cpos as int].children[v0.sel as int] && v0.nodes[j].parent_id
                    == v0.nodes[cpos as int].id;
            assert(v1.nodes =~= v0.nodes);
            assert(v1.nodes[j].id == v1.current);
            assert(v1.has_node(v1.current));
            lemma_node_at(v1, v1.current);
            assert(v1.node_at(v1.current) == j);
            assert(v1 =~= v0.descend_v());
            lemma_wf_from_parts(v0, v1, j);
        }
        true
    }

    /// Step back to the current node's parent, with the child cursor at
    /// zero. Reports whether anything happened; the root, whose parent
    /// reference is empty, is left unchanged.
    pub fn ascend(&mut self) -> (r: bool)
        requires
            old(self)@.wf(),
        ensures
            r == (old(self)@.current_node().parent_id.len() > 0),
            final(self)@ =~= old(self)@.ascend_v(),
            final(self)@.wf(),
    {
        let ghost v0 = self@;
        proof {
            lemma_node_at(v0, v0.current);
        }
        let cpos = match self.find_node(&self.current_node_id) {
            Some(c) => c,
            None => {
                proof {
                    assert(false);
                }
                return false;
            },
        };
        proof {
            assert(cpos as int == v0.node_at(v0.current));
        }
        if self.nodes[cpos].parent_id.as_str().is_empty() {
            return false;
        }
        let parent = self.nodes[cpos].parent_id.clone();
        self.current_node_id = parent;
        self.selected_child_index = 0;
        proof {
            let v1 = self@;
            assert(cpos as int >= 1) by {
                if cpos as int == 0 {
                    assert(v0.nodes[0].parent_id.len() == 0);
                }
            }
            let j = choose|j: int|
                0 <= j < cpos as int && (#[trigger] v0.nodes[j]).id
                    == v0.nodes[cpos as int].parent_id;
            assert(v1.nodes =~= v0.nodes);
            assert(v1.nodes[j].id == v1.current);
            assert(v1.has_node(v1.current));
            lemma_node_at(v1, v1.current);
            assert(v1 =~= v0.ascend_v());
            lemma_wf_from_parts(v0, v1, j);
        }
        true
    }
}

/// Entering the selected child and stepping back restores the current node
/// identifier, with the child cursor reset to zero (not to its previous
/// value), and the arena untouched.
pub proof fn lemma_descend_then_ascend(v: TreeV)
    requires
        v.wf(),
        v.current_node().children.len() > 0,
    ensures
        v.descend_v().ascend_v().current == v.current,
        v.descend_v().ascend_v().sel == 0,
        v.descend_v().ascend_v().nodes == v.nodes,
{
    lemma_node_at(v, v.current);
    let c0 = v.node_at(v.current);
    assert(child_ok(v, c0, v.sel as int));
    let j = choose|j: int|
        1 <= j < v.nodes.len() && (#[trigger] v.nodes[j]).id == v.nodes[c0].children[v.sel as int]
            && v.nodes[j].parent_id == v.nodes[c0].id;
    let v1 = v.descend_v();
    assert(v1.nodes == v.nodes);
    assert(v1.current == v.nodes[c0].children[v.sel as int]);
    assert(v1.nodes[j].id == v1.current);
    assert(v1.has_node(v1.current));
    lemma_node_at(v1, v1.current);
    assert(v1.node_at(v1.current) == j);
    assert(v1.current_node().parent_id == v.nodes[c0].id);
    assert(v.nodes[c0].id == v.current);
    assert(v.nodes[c0].id.len() > 0);
}

} // verus!
