//! The scene graph: a rooted tree of renderable nodes with identifier-based
//! lookup and a stack-based depth-first traversal.
//!
//! The mathematical model of a node is [`NodeView`], a rose tree over
//! character sequences; every contract of this module speaks of node views.

use vstd::prelude::*;

use crate::util::str_eq;

verus! {

/// The renderable variant held by a scene node.
#[derive(Clone, Copy, Debug)]
pub enum NodeValue {
    AbstractNode,
    OpenGLTriangleNode,
}

/// A node of the scene graph: an identifier, a renderable value, and an
/// ordered sequence of exclusively owned child nodes.
pub struct SceneNode {
    identifier: &'static str,
    value: NodeValue,
    children: Vec<SceneNode>,
}

/// The abstract value of a scene node: its identifier as a character
/// sequence, its renderable value, and the abstract values of its children.
pub struct NodeView {
    pub identifier: Seq<char>,
    pub value: NodeValue,
    pub children: Seq<NodeView>,
}

/// The abstract value of a scene node.
spec fn node_view(n: SceneNode) -> NodeView
    decreases n,
{
    NodeView { identifier: n.identifier@, value: n.value, children: nodes_view(n.children@) }
}

/// The abstract values of a sequence of scene nodes, built recursively.
spec fn nodes_view(s: Seq<SceneNode>) -> Seq<NodeView>
    decreases s,
{
    if s.len() == 0 {
        Seq::empty()
    } else {
        nodes_view(s.drop_last()).push(node_view(s.last()))
    }
}

proof fn lemma_nodes_view(s: Seq<SceneNode>)
    ensures
        nodes_view(s) == child_views(s),
    decreases s.len(),
{
    if s.len() == 0 {
        assert(child_views(s) =~= Seq::<NodeView>::empty());
    } else {
        lemma_nodes_view(s.drop_last());
        assert(child_views(s) =~= child_views(s.drop_last()).push(s.last()@));
    }
}

broadcast proof fn lemma_node_view_children(n: SceneNode)
    ensures
        (#[trigger] node_view(n)).children == child_views(n.children@),
{
    lemma_nodes_view(n.children@);
}

broadcast proof fn lemma_child_views_update(s: Seq<SceneNode>, i: int, c: SceneNode)
    requires
        0 <= i < s.len(),
    ensures
        #[trigger] child_views(s.update(i, c)) == child_views(s).update(i, node_view(c)),
{
    assert(child_views(s.update(i, c)) =~= child_views(s).update(i, node_view(c)));
}

impl View for SceneNode {
    type V = NodeView;

    closed spec fn view(&self) -> NodeView {
        node_view(*self)
    }
}

/// The abstract values of a sequence of scene nodes.
pub open spec fn child_views(s: Seq<SceneNode>) -> Seq<NodeView> {
    s.map_values(|n: SceneNode| n@)
}

impl SceneNode {
    pub fn new(identifier: &'static str, value: NodeValue) -> (node: SceneNode)
        ensures
            node@ == (NodeView { identifier: identifier@, value, children: Seq::empty() }),
    {
        let node = SceneNode { identifier, value, children: Vec::new() };
        proof {
            assert(node@.children =~= Seq::<NodeView>::empty());
        }
        node
    }

    /// Adds a child to the node, appended at the end of its child sequence.
    pub fn add_child(&mut self, node: SceneNode)
        ensures
            final(self)@ == (NodeView {
                identifier: old(self)@.identifier,
                value: old(self)@.value,
                children: old(self)@.children.push(node@),
            }),
    {
        let ghost pre = *self;
        self.children.push(node);
        proof {
            assert(self.children@.drop_last() =~= pre.children@);
            lemma_nodes_view(pre.children@);
            lemma_node_view_children(pre);
        }
    }

    /// Returns the identifier of the node.
    pub fn identifier(&self) -> (r: &'static str)
        ensures
            r@ == self@.identifier,
    {
        self.identifier
    }

    /// Returns the value of the node.
    pub fn value(&self) -> (r: &NodeValue)
        ensures
            *r == self@.value,
    {
        &self.value
    }

    /// Returns the children of the node.
    pub fn children(&self) -> (r: &Vec<SceneNode>)
        ensures
            child_views(r@) == self@.children,
    {
        proof {
            broadcast use lemma_node_view_children;
        }
        &self.children
    }

    /// Returns the children of the node mutably.
    pub fn children_mut(&mut self) -> (r: &mut Vec<SceneNode>)
        ensures
            child_views((*r)@) == old(self)@.children,
            final(self)@ == (NodeView {
                identifier: old(self)@.identifier,
                value: old(self)@.value,
                children: child_views((*final(r))@),
            }),
    {
        proof {
            broadcast use lemma_node_view_children;
        }
        &mut self.children
    }
}

/// The size of a node: itself plus all of its descendants.
pub open spec fn node_size(t: NodeView) -> nat
    decreases t,
{
    1 + forest_size(t.children)
}

/// The total size of a sequence of nodes and their descendants.
pub open spec fn forest_size(s: Seq<NodeView>) -> nat
    decreases s,
{
    if s.len() == 0 {
        0
    } else {
        forest_size(s.drop_last()) + node_size(s.last())
    }
}

/// The total size of the nodes held on a traversal stack.
pub open spec fn stack_size(s: Seq<(Seq<int>, NodeView)>) -> nat
    decreases s,
{
    if s.len() == 0 {
        0
    } else {
        stack_size(s.drop_last()) + node_size(s.last().1)
    }
}

/// The traversal-stack entries for the children of node `t` standing at path
/// `p`, in sequence order: child `i` stands at path `p.push(i)`.
pub open spec fn child_entries(p: Seq<int>, t: NodeView) -> Seq<(Seq<int>, NodeView)> {
    Seq::new(t.children.len(), |i: int| (p.push(i), t.children[i]))
}

pub proof fn lemma_stack_size_concat(a: Seq<(Seq<int>, NodeView)>, b: Seq<(Seq<int>, NodeView)>)
    ensures
        stack_size(a + b) == stack_size(a) + stack_size(b),
    decreases b.len(),
{
    if b.len() == 0 {
        assert(a + b =~= a);
    } else {
        lemma_stack_size_concat(a, b.drop_last());
        assert((a + b).drop_last() =~= a + b.drop_last());
        assert((a + b).last() == b.last());
    }
}

proof fn lemma_child_entries_size_prefix(p: Seq<int>, cs: Seq<NodeView>, n: int)
    requires
        0 <= n <= cs.len(),
    ensures
        stack_size(Seq::new(n as nat, |i: int| (p.push(i), cs[i]))) == forest_size(
            cs.subrange(0, n),
        ),
    decreases n,
{
    let e = Seq::new(n as nat, |i: int| (p.push(i), cs[i]));
    if n == 0 {
        assert(cs.subrange(0, 0) =~= Seq::<NodeView>::empty());
    } else {
        lemma_child_entries_size_prefix(p, cs, n - 1);
        assert(e.drop_last() =~= Seq::new((n - 1) as nat, |i: int| (p.push(i), cs[i])));
        assert(cs.subrange(0, n).drop_last() =~= cs.subrange(0, n - 1));
        assert(e.last() == (p.push(n - 1), cs[n - 1]));
        assert(cs.subrange(0, n).last() == cs[n - 1]);
    }
}

pub proof fn lemma_child_entries_size(p: Seq<int>, t: NodeView)
    ensures
        stack_size(child_entries(p, t)) == forest_size(t.children),
{
    lemma_child_entries_size_prefix(p, t.children, t.children.len() as int);
    assert(t.children.subrange(0, t.children.len() as int) =~= t.children);
}

/// The visit sequence of the stack-based depth-first traversal, with each
/// visited node paired with its path from the root: pop the last entry; if
/// its identifier was already visited, skip it entirely; otherwise visit it,
/// mark its identifier, and push all of its children in sequence order, so
/// that the last child is popped next.
pub open spec fn visit_pairs(
    stack: Seq<(Seq<int>, NodeView)>,
    visited: Set<Seq<char>>,
) -> Seq<(Seq<int>, NodeView)>
    decreases stack_size(stack),
{
    if stack.len() == 0 {
        Seq::empty()
    } else {
        let p = stack.last().0;
        let t = stack.last().1;
        let rest = stack.drop_last();
        if visited.contains(t.identifier) {
            proof {
                assert(stack_size(stack) == stack_size(rest) + node_size(t));
            }
            visit_pairs(rest, visited)
        } else {
            proof {
                lemma_stack_size_concat(rest, child_entries(p, t));
                lemma_child_entries_size(p, t);
                assert(stack_size(stack) == stack_size(rest) + node_size(t));
            }
            seq![(p, t)] + visit_pairs(rest + child_entries(p, t), visited.insert(t.identifier))
        }
    }
}

/// The visit sequence of a full traversal starting at `t`, beginning with an
/// empty visited set, as both the identifier search and the renderer perform
/// it.
pub open spec fn traversal(t: NodeView) -> Seq<(Seq<int>, NodeView)> {
    visit_pairs(seq![(Seq::<int>::empty(), t)], Set::empty())
}

/// The path of the first entry of `vs` whose node carries identifier `id`.
pub open spec fn first_match(vs: Seq<(Seq<int>, NodeView)>, id: Seq<char>) -> Option<Seq<int>>
    decreases vs.len(),
{
    if vs.len() == 0 {
        None
    } else if vs.first().1.identifier == id {
        Some(vs.first().0)
    } else {
        first_match(vs.drop_first(), id)
    }
}

/// The path of the first node with identifier `id` in traversal order, if
/// any: what the identifier search returns.
pub open spec fn find_path_spec(t: NodeView, id: Seq<char>) -> Option<Seq<int>> {
    first_match(traversal(t), id)
}

/// Whether `p` is a sequence of in-bounds child indices starting at `t`.
pub open spec fn valid_path(t: NodeView, p: Seq<int>) -> bool
    decreases p.len(),
{
    p.len() == 0 || (0 <= p.first() < t.children.len() && valid_path(
        t.children[p.first()],
        p.drop_first(),
    ))
}

/// The node reached from `t` by following the child indices of `p`.
pub open spec fn node_at(t: NodeView, p: Seq<int>) -> NodeView
    decreases p.len(),
{
    if p.len() == 0 {
        t
    } else {
        node_at(t.children[p.first()], p.drop_first())
    }
}

/// The tree `t` with the node at path `p` replaced by `sub`.
pub open spec fn replace_at(t: NodeView, p: Seq<int>, sub: NodeView) -> NodeView
    decreases p.len(),
{
    if p.len() == 0 {
        sub
    } else {
        NodeView {
            identifier: t.identifier,
            value: t.value,
            children: t.children.update(
                p.first(),
                replace_at(t.children[p.first()], p.drop_first(), sub),
            ),
        }
    }
}

/// Extending a valid path by an in-bounds child index reaches that child.
pub proof fn lemma_path_extend(t: NodeView, p: Seq<int>, i: int)
    requires
        valid_path(t, p),
        0 <= i < node_at(t, p).children.len(),
    ensures
        valid_path(t, p.push(i)),
        node_at(t, p.push(i)) == node_at(t, p).children[i],
    decreases p.len(),
{
    if p.len() == 0 {
        assert(node_at(t, p) == t);
        assert(p.push(i).first() == i);
        assert(p.push(i).drop_first() =~= Seq::<int>::empty());
        assert(valid_path(t.children[i], p.push(i).drop_first()));
        assert(node_at(t, p.push(i)) == node_at(t.children[i], p.push(i).drop_first()));
    } else {
        assert(valid_path(t.children[p.first()], p.drop_first()));
        assert(node_at(t, p) == node_at(t.children[p.first()], p.drop_first()));
        lemma_path_extend(t.children[p.first()], p.drop_first(), i);
        assert(p.push(i).first() == p.first());
        assert(p.push(i).drop_first() =~= p.drop_first().push(i));
        assert(valid_path(t, p.push(i)));
        assert(node_at(t, p.push(i)) == node_at(t.children[p.first()], p.drop_first().push(i)));
    }
}

/// A path as stored in executable code, widened to the model's index type.
pub open spec fn abs_path(p: Seq<usize>) -> Seq<int> {
    p.map_values(|u: usize| u as int)
}

/// The abstract contents of the executable traversal stack.
spec fn abs_stack(s: Seq<(Vec<usize>, &SceneNode)>) -> Seq<(Seq<int>, NodeView)> {
    s.map_values(|e: (Vec<usize>, &SceneNode)| (abs_path(e.0@), (*e.1)@))
}

/// The identifiers recorded in the executable visited list, as a set.
spec fn visited_set(v: Seq<&'static str>) -> Set<Seq<char>> {
    Set::new(|id: Seq<char>| exists|i: int| 0 <= i < v.len() && v[i]@ == id)
}

/// A traversal-stack entry whose path indeed leads from `root` to its node.
spec fn entry_ok(root: NodeView, e: (Seq<int>, NodeView)) -> bool {
    &&& valid_path(root, e.0)
    &&& node_at(root, e.0) == e.1
}

proof fn lemma_visited_push(v: Seq<&'static str>, s: &'static str)
    ensures
        visited_set(v.push(s)) == visited_set(v).insert(s@),
{
    let w = v.push(s);
    assert forall|x: Seq<char>| visited_set(w).contains(x) implies visited_set(v).insert(
        s@,
    ).contains(x) by {
        let i = choose|i: int| 0 <= i < w.len() && w[i]@ == x;
        if i < v.len() {
            assert(v[i]@ == x);
        }
    }
    assert forall|x: Seq<char>| visited_set(v).insert(s@).contains(x) implies visited_set(
        w,
    ).contains(x) by {
        if x == s@ {
            assert(w[v.len() as int]@ == x);
        } else {
            let i = choose|i: int| 0 <= i < v.len() && v[i]@ == x;
            assert(w[i]@ == x);
        }
    }
    assert(visited_set(w) =~= visited_set(v).insert(s@));
}

/// Whether `id` is among the recorded identifiers.
fn contains_id(visited: &Vec<&'static str>, id: &'static str) -> (r: bool)
    ensures
        r == visited_set(visited@).contains(id@),
{
    let mut i: usize = 0;
    while i < visited.len()
        invariant
            i <= visited@.len(),
            forall|j: int| 0 <= j < i ==> visited@[j]@ != id@,
        decreases visited@.len() - i,
    {
        if str_eq(visited[i], id) {
            proof {
                assert(visited@[i as int]@ == id@);
            }
            return true;
        }
        i += 1;
    }
    proof {
        assert(!visited_set(visited@).contains(id@)) by {
            if visited_set(visited@).contains(id@) {
                let j = choose|j: int| 0 <= j < visited@.len() && visited@[j]@ == id@;
                assert(visited@[j]@ != id@);
            }
        }
    }
    false
}

/// An element-wise copy of a path.
fn copy_path(p: &Vec<usize>) -> (r: Vec<usize>)
    ensures
        r@ == p@,
{
    let mut r: Vec<usize> = Vec::new();
    let mut i: usize = 0;
    while i < p.len()
        invariant
            i <= p@.len(),
            r@ == p@.subrange(0, i as int),
        decreases p@.len() - i,
    {
        r.push(p[i]);
        proof {
            assert(r@ =~= p@.subrange(0, i + 1));
        }
        i += 1;
    }
    proof {
        assert(p@.subrange(0, p@.len() as int) =~= p@);
    }
    r
}

impl SceneNode {
    /// Finds the path of child indices leading to the first node, in the
    /// stack-based traversal order, whose identifier equals `identifier`, or
    /// `None` when the traversal reaches no such node.
    pub fn find_path(&self, identifier: &'static str) -> (r: Option<Vec<usize>>)
        ensures
            match r {
                Some(p) => {
                    &&& find_path_spec(self@, identifier@) == Some(abs_path(p@))
                    &&& valid_path(self@, abs_path(p@))
                    &&& node_at(self@, abs_path(p@)).identifier == identifier@
                },
                None => find_path_spec(self@, identifier@) is None,
            },
    {
        proof {
            broadcast use lemma_node_view_children;
        }
        let mut stack: Vec<(Vec<usize>, &SceneNode)> = Vec::new();
        let empty_path: Vec<usize> = Vec::new();
        stack.push((empty_path, self));
        let mut visited: Vec<&'static str> = Vec::new();
        proof {
            assert(abs_path(Seq::<usize>::empty()) =~= Seq::<int>::empty());
            assert(abs_stack(stack@) =~= seq![(Seq::<int>::empty(), self@)]);
            assert(visited_set(visited@) =~= Set::<Seq<char>>::empty());
            assert(entry_ok(self@, abs_stack(stack@)[0]));
        }
        loop
            invariant
                first_match(visit_pairs(abs_stack(stack@), visited_set(visited@)), identifier@)
                    == find_path_spec(self@, identifier@),
                forall|k: int|
                    0 <= k < stack@.len() ==> entry_ok(self@, #[trigger] abs_stack(stack@)[k]),
                !visited_set(visited@).contains(identifier@),
            decreases stack_size(abs_stack(stack@)),
        {
            proof {
                broadcast use lemma_node_view_children;
            }
            if stack.len() == 0 {
                proof {
                    assert(abs_stack(stack@) =~= Seq::<(Seq<int>, NodeView)>::empty());
                }
                return None;
            }
            let ghost pre_abs = abs_stack(stack@);
            let ghost pre_vset = visited_set(visited@);
            let top = match stack.pop() {
                Some(top) => top,
                None => vstd::pervasive::unreached(),
            };
            let (path, node) = top;
            let ghost pa = abs_path(path@);
            let ghost t = node@;
            let ghost rest_abs = abs_stack(stack@);
            proof {
                assert(rest_abs =~= pre_abs.drop_last());
                assert(pre_abs.last() == (pa, t));
                assert(entry_ok(self@, pre_abs[pre_abs.len() - 1]));
            }
            if str_eq(node.identifier, identifier) {
                proof {
                    assert(t.identifier == identifier@);
                    let vs = visit_pairs(pre_abs, pre_vset);
                    assert(vs == seq![(pa, t)] + visit_pairs(
                        rest_abs + child_entries(pa, t),
                        pre_vset.insert(t.identifier),
                    ));
                    assert(vs[0] == (pa, t));
                    assert(first_match(vs, identifier@) == Some(pa));
                }
                return Some(path);
            }
            if contains_id(&visited, node.identifier) {
                proof {
                    assert(visit_pairs(pre_abs, pre_vset) == visit_pairs(rest_abs, pre_vset));
                    assert(stack_size(pre_abs) == stack_size(rest_abs) + node_size(t));
                }
            } else {
                let ghost pre_vseq = visited@;
                visited.push(node.identifier);
                proof {
                    lemma_visited_push(pre_vseq, node.identifier);
                    assert(!visited_set(visited@).contains(identifier@));
                }
                let n = node.children.len();
                let mut j: usize = 0;
                while j < n
                    invariant
                        j <= n,
                        n == node.children@.len(),
                        t == node@,
                        pa == abs_path(path@),
                        abs_stack(stack@) == rest_abs + child_entries(pa, t).subrange(
                            0,
                            j as int,
                        ),
                        valid_path(self@, pa),
                        node_at(self@, pa) == t,
                        forall|k: int|
                            0 <= k < stack@.len() ==> entry_ok(
                                self@,
                                #[trigger] abs_stack(stack@)[k],
                            ),
                    decreases n - j,
                {
                    proof {
                        broadcast use lemma_node_view_children;
                    }
                    let mut cp = copy_path(&path);
                    cp.push(j);
                    let ghost pre_stack_abs = abs_stack(stack@);
                    stack.push((cp, &node.children[j]));
                    proof {
                        assert(abs_path(cp@) =~= pa.push(j as int));
                        assert(node.children@[j as int]@ == t.children[j as int]);
                        assert(abs_stack(stack@) =~= pre_stack_abs.push(
                            (pa.push(j as int), t.children[j as int]),
                        ));
                        assert(child_entries(pa, t).subrange(0, j + 1) =~= child_entries(
                            pa,
                            t,
                        ).subrange(0, j as int).push((pa.push(j as int), t.children[j as int])));
                        assert(abs_stack(stack@) == rest_abs + child_entries(pa, t).subrange(
                            0,
                            j + 1,
                        ));
                        lemma_path_extend(self@, pa, j as int);
                        assert(entry_ok(self@, (pa.push(j as int), t.children[j as int])));
                    }
                    j += 1;
                }
                proof {
                    assert(child_entries(pa, t).subrange(0, n as int) =~= child_entries(pa, t));
                    let pushed = rest_abs + child_entries(pa, t);
                    let vs = visit_pairs(pre_abs, pre_vset);
                    assert(vs == seq![(pa, t)] + visit_pairs(
                        pushed,
                        pre_vset.insert(t.identifier),
                    ));
                    assert(vs[0] == (pa, t));
                    assert(vs[0].1.identifier != identifier@);
                    assert(vs.drop_first() =~= visit_pairs(pushed, pre_vset.insert(t.identifier)));
                    assert(first_match(vs, identifier@) == first_match(
                        vs.drop_first(),
                        identifier@,
                    ));
                    lemma_stack_size_concat(rest_abs, child_entries(pa, t));
                    lemma_child_entries_size(pa, t);
                    assert(stack_size(pre_abs) == stack_size(rest_abs) + node_size(t));
                }
            }
        }
    }
}

/// Hands out a mutable reference to child `i` of `n`; the final value of `n`
/// is the old node with that child replaced by whatever the caller leaves
/// behind.
fn child_mut<'a>(n: &'a mut SceneNode, i: usize) -> (r: &'a mut SceneNode)
    requires
        i < (*old(n))@.children.len(),
    ensures
        (*r)@ == (*old(n))@.children[i as int],
        (*final(n))@ == (NodeView {
            identifier: (*old(n))@.identifier,
            value: (*old(n))@.value,
            children: (*old(n))@.children.update(i as int, (*final(r))@),
        }),
{
    proof {
        broadcast use lemma_node_view_children;
        broadcast use lemma_child_views_update;
        assert((*n)@.children.len() == n.children@.len());
    }
    &mut n.children[i]
}

/// Walks `path` downward from `n`, starting at index `k`, and returns a
/// mutable reference to the node reached; the final value of `n` is the old
/// tree with that node replaced by whatever the caller leaves behind.
fn descend_mut<'a>(n: &'a mut SceneNode, path: &Vec<usize>, k: usize) -> (r: &'a mut SceneNode)
    requires
        k <= path@.len(),
        valid_path((*old(n))@, abs_path(path@).skip(k as int)),
    ensures
        (*r)@ == node_at((*old(n))@, abs_path(path@).skip(k as int)),
        (*final(n))@ == replace_at((*old(n))@, abs_path(path@).skip(k as int), (*final(r))@),
    decreases path@.len() - k,
{
    let ghost p = abs_path(path@).skip(k as int);
    if k == path.len() {
        proof {
            assert(p =~= Seq::<int>::empty());
            assert(node_at((*n)@, p) == (*n)@);
        }
        n
    } else {
        let ghost t = (*n)@;
        let idx = path[k];
        proof {
            assert(p.first() == abs_path(path@)[k as int]);
            assert(p.first() == idx as int);
            assert(p.drop_first() =~= abs_path(path@).skip(k + 1));
        }
        let child = child_mut(n, idx);
        let r = descend_mut(child, path, k + 1);
        r
    }
}

impl SceneNode {
    /// Finds a successor in the tree using an identifier: the first node in
    /// the stack-based traversal order whose identifier matches, if any.
    pub fn find(&self, identifier: &'static str) -> (r: Option<&SceneNode>)
        ensures
            match r {
                Some(node) => {
                    &&& find_path_spec(self@, identifier@) is Some
                    &&& node@ == node_at(self@, find_path_spec(self@, identifier@)->0)
                    &&& node@.identifier == identifier@
                },
                None => find_path_spec(self@, identifier@) is None,
            },
    {
        match self.find_path(identifier) {
            None => None,
            Some(path) => {
                let ghost pa = abs_path(path@);
                let mut cur: &SceneNode = self;
                let mut k: usize = 0;
                proof {
                    assert(pa.skip(0) =~= pa);
                }
                while k < path.len()
                    invariant
                        k <= path@.len(),
                        pa == abs_path(path@),
                        valid_path(cur@, pa.skip(k as int)),
                        node_at(cur@, pa.skip(k as int)) == node_at(self@, pa),
                    decreases path@.len() - k,
                {
                    proof {
                        broadcast use lemma_node_view_children;
                    }
                    let idx = path[k];
                    proof {
                        assert(pa.skip(k as int).first() == pa[k as int]);
                        assert(pa[k as int] == path@[k as int] as int);
                        assert(cur@.children.len() == cur.children@.len());
                    }
                    let tmp = cur;
                    cur = &tmp.children[idx];
                    proof {
                        assert(cur@ == tmp@.children[idx as int]);
                        assert(pa.skip(k + 1) =~= pa.skip(k as int).drop_first());
                    }
                    k += 1;
                }
                proof {
                    assert(pa.skip(path@.len() as int) =~= Seq::<int>::empty());
                    assert(node_at(cur@, Seq::<int>::empty()) == cur@);
                }
                Some(cur)
            },
        }
    }

    /// Finds a successor in the tree using an identifier, mutably: the first
    /// node in the stack-based traversal order whose identifier matches, if
    /// any; the final tree is the old tree with that node replaced by
    /// whatever the caller leaves behind.
    pub fn find_mut(&mut self, identifier: &'static str) -> (r: Option<&mut SceneNode>)
        ensures
            match r {
                Some(node) => {
                    &&& find_path_spec(old(self)@, identifier@) is Some
                    &&& (*node)@ == node_at(
                        old(self)@,
                        find_path_spec(old(self)@, identifier@)->0,
                    )
                    &&& (*node)@.identifier == identifier@
                    &&& final(self)@ == replace_at(
                        old(self)@,
                        find_path_spec(old(self)@, identifier@)->0,
                        (*final(node))@,
                    )
                },
                None => {
                    &&& find_path_spec(old(self)@, identifier@) is None
                    &&& final(self)@ == old(self)@
                },
            },
    {
        let path = match self.find_path(identifier) {
            None => { return None; },
            Some(p) => p,
        };
        proof {
            assert(abs_path(path@).skip(0) =~= abs_path(path@));
        }
        let found = descend_mut(self, &path, 0);
        Some(found)
    }
}

proof fn lemma_visit_pairs_consistent(
    root: NodeView,
    stack: Seq<(Seq<int>, NodeView)>,
    visited: Set<Seq<char>>,
)
    requires
        forall|k: int| 0 <= k < stack.len() ==> entry_ok(root, #[trigger] stack[k]),
    ensures
        forall|i: int|
            0 <= i < visit_pairs(stack, visited).len() ==> entry_ok(
                root,
                #[trigger] visit_pairs(stack, visited)[i],
            ),
    decreases stack_size(stack),
{
    if stack.len() > 0 {
        let p = stack.last().0;
        let t = stack.last().1;
        let rest = stack.drop_last();
        assert(entry_ok(root, stack[stack.len() - 1]));
        if visited.contains(t.identifier) {
            assert forall|k: int| 0 <= k < rest.len() implies entry_ok(
                root,
                #[trigger] rest[k],
            ) by {
                assert(rest[k] == stack[k]);
            }
            lemma_visit_pairs_consistent(root, rest, visited);
            assert(visit_pairs(stack, visited) == visit_pairs(rest, visited));
            assert forall|i: int| 0 <= i < visit_pairs(stack, visited).len() implies entry_ok(
                root,
                #[trigger] visit_pairs(stack, visited)[i],
            ) by {
                assert(entry_ok(root, visit_pairs(rest, visited)[i]));
            }
        } else {
            let pushed = rest + child_entries(p, t);
            assert forall|k: int| 0 <= k < pushed.len() implies entry_ok(
                root,
                #[trigger] pushed[k],
            ) by {
                if k >= rest.len() {
                    let j = k - rest.len();
                    lemma_path_extend(root, p, j);
                    assert(pushed[k] == (p.push(j), t.children[j]));
                } else {
                    assert(pushed[k] == stack[k]);
                }
            }
            lemma_stack_size_concat(rest, child_entries(p, t));
            lemma_child_entries_size(p, t);
            lemma_visit_pairs_consistent(root, pushed, visited.insert(t.identifier));
            let tail = visit_pairs(pushed, visited.insert(t.identifier));
            assert(visit_pairs(stack, visited) == seq![(p, t)] + tail);
            assert forall|i: int| 0 <= i < visit_pairs(stack, visited).len() implies entry_ok(
                root,
                #[trigger] visit_pairs(stack, visited)[i],
            ) by {
                if i == 0 {
                    assert(visit_pairs(stack, visited)[0] == (p, t));
                    assert(valid_path(root, p) && node_at(root, p) == t);
                } else {
                    assert(visit_pairs(stack, visited)[i] == tail[i - 1]);
                    assert(entry_ok(root, tail[i - 1]));
                }
            }
        }
    }
}

/// Law: every entry that the traversal visits is consistent with the tree it
/// started from: the entry's path is valid, and following it from the root
/// reaches exactly the node the entry carries.
pub proof fn lemma_traversal_consistent(t: NodeView)
    ensures
        forall|i: int|
            0 <= i < traversal(t).len() ==> valid_path(t, (#[trigger] traversal(t)[i]).0)
                && node_at(t, traversal(t)[i].0) == traversal(t)[i].1,
{
    let stack = seq![(Seq::<int>::empty(), t)];
    assert(entry_ok(t, stack[0]));
    lemma_visit_pairs_consistent(t, stack, Set::empty());
    assert forall|i: int| 0 <= i < traversal(t).len() implies valid_path(
        t,
        (#[trigger] traversal(t)[i]).0,
    ) && node_at(t, traversal(t)[i].0) == traversal(t)[i].1 by {
        assert(entry_ok(t, traversal(t)[i]));
    }
}

proof fn lemma_visit_pairs_identifiers(stack: Seq<(Seq<int>, NodeView)>, visited: Set<Seq<char>>)
    ensures
        forall|i: int, j: int|
            0 <= i < j < visit_pairs(stack, visited).len() ==> (#[trigger] visit_pairs(
                stack,
                visited,
            )[i]).1.identifier != (#[trigger] visit_pairs(stack, visited)[j]).1.identifier,
        forall|i: int|
            0 <= i < visit_pairs(stack, visited).len() ==> !visited.contains(
                (#[trigger] visit_pairs(stack, visited)[i]).1.identifier,
            ),
    decreases stack_size(stack),
{
    let vs = visit_pairs(stack, visited);
    if stack.len() > 0 {
        let p = stack.last().0;
        let t = stack.last().1;
        let rest = stack.drop_last();
        if visited.contains(t.identifier) {
            lemma_visit_pairs_identifiers(rest, visited);
        } else {
            let pushed = rest + child_entries(p, t);
            lemma_stack_size_concat(rest, child_entries(p, t));
            lemma_child_entries_size(p, t);
            lemma_visit_pairs_identifiers(pushed, visited.insert(t.identifier));
            let tail = visit_pairs(pushed, visited.insert(t.identifier));
            assert(vs[0] == (p, t));
            assert forall|i: int| 0 < i < vs.len() implies (#[trigger] vs[i]).1.identifier
                != t.identifier && !visited.contains(vs[i].1.identifier) by {
                assert(vs[i] == tail[i - 1]);
                assert(!visited.insert(t.identifier).contains(tail[i - 1].1.identifier));
            }
            assert forall|i: int, j: int| 0 <= i < j < vs.len() implies (#[trigger] vs[i]).1
                .identifier != (#[trigger] vs[j]).1.identifier by {
                if i > 0 {
                    assert(vs[i] == tail[i - 1]);
                    assert(vs[j] == tail[j - 1]);
                }
            }
        }
    }
}

/// Law: the traversal never visits an identifier twice; of any two distinct
/// visited entries, the identifiers differ, so of two nodes sharing an
/// identifier only the one popped first is ever visited.
pub proof fn lemma_traversal_identifiers_distinct(t: NodeView)
    ensures
        forall|i: int, j: int|
            0 <= i < j < traversal(t).len() ==> (#[trigger] traversal(t)[i]).1.identifier != (
            #[trigger] traversal(t)[j]).1.identifier,
{
    lemma_visit_pairs_identifiers(seq![(Seq::<int>::empty(), t)], Set::empty());
}

proof fn lemma_first_match_characterization(vs: Seq<(Seq<int>, NodeView)>, id: Seq<char>)
    ensures
        match first_match(vs, id) {
            Some(p) => exists|i: int|
                {
                    &&& 0 <= i < vs.len()
                    &&& (#[trigger] vs[i]).0 == p
                    &&& vs[i].1.identifier == id
                    &&& forall|j: int| 0 <= j < i ==> (#[trigger] vs[j]).1.identifier != id
                },
            None => forall|i: int|
                0 <= i < vs.len() ==> (#[trigger] vs[i]).1.identifier != id,
        },
    decreases vs.len(),
{
    if vs.len() > 0 {
        if vs.first().1.identifier == id {
            assert(vs[0].0 == first_match(vs, id)->0);
        } else {
            let tail = vs.drop_first();
            lemma_first_match_characterization(tail, id);
            assert(forall|i: int| 0 <= i < tail.len() ==> #[trigger] tail[i] == vs[i + 1]);
            match first_match(vs, id) {
                Some(p) => {
                    let i = choose|i: int|
                        {
                            &&& 0 <= i < tail.len()
                            &&& (#[trigger] tail[i]).0 == p
                            &&& tail[i].1.identifier == id
                            &&& forall|j: int|
                                0 <= j < i ==> (#[trigger] tail[j]).1.identifier != id
                        };
                    assert(vs[i + 1].0 == p);
                    assert forall|j: int| 0 <= j < i + 1 implies (#[trigger] vs[j]).1.identifier
                        != id by {
                        if j > 0 {
                            assert(tail[j - 1].1.identifier != id);
                        }
                    }
                },
                None => {
                    assert forall|i: int| 0 <= i < vs.len() implies (#[trigger] vs[i]).1
                        .identifier != id by {
                        if i > 0 {
                            assert(tail[i - 1].1.identifier != id);
                        }
                    }
                },
            }
        }
    }
}

/// Law: the identifier search succeeds exactly when the traversal visits a
/// node carrying the identifier, and the path it returns is that of the
/// first such visited node, in traversal order.
pub proof fn lemma_find_first_match(t: NodeView, id: Seq<char>)
    ensures
        match find_path_spec(t, id) {
            Some(p) => exists|i: int|
                {
                    &&& 0 <= i < traversal(t).len()
                    &&& (#[trigger] traversal(t)[i]).0 == p
                    &&& traversal(t)[i].1.identifier == id
                    &&& forall|j: int|
                        0 <= j < i ==> (#[trigger] traversal(t)[j]).1.identifier != id
                },
            None => forall|i: int|
                0 <= i < traversal(t).len() ==> (#[trigger] traversal(t)[i]).1.identifier != id,
        },
{
    lemma_first_match_characterization(traversal(t), id);
}

proof fn lemma_visit_pairs_parent_first(stack: Seq<(Seq<int>, NodeView)>, visited: Set<Seq<char>>)
    ensures
        forall|i: int|
            0 <= i < visit_pairs(stack, visited).len() ==> (exists|k: int|
                0 <= k < stack.len() && (#[trigger] stack[k]).0 == (#[trigger] visit_pairs(
                    stack,
                    visited,
                )[i]).0) || (exists|j: int|
                0 <= j < i && (#[trigger] visit_pairs(stack, visited)[j]).0 == visit_pairs(
                    stack,
                    visited,
                )[i].0.drop_last()),
    decreases stack_size(stack),
{
    let vs = visit_pairs(stack, visited);
    if stack.len() > 0 {
        let p = stack.last().0;
        let t = stack.last().1;
        let rest = stack.drop_last();
        if visited.contains(t.identifier) {
            lemma_visit_pairs_parent_first(rest, visited);
            let ws = visit_pairs(rest, visited);
            assert(vs == ws);
            assert forall|i: int| 0 <= i < vs.len() implies (exists|k: int|
                0 <= k < stack.len() && (#[trigger] stack[k]).0 == (#[trigger] vs[i]).0) || (
            exists|j: int| 0 <= j < i && (#[trigger] vs[j]).0 == vs[i].0.drop_last()) by {
                if exists|k: int|
                    0 <= k < rest.len() && (#[trigger] rest[k]).0 == (#[trigger] ws[i]).0 {
                    let k = choose|k: int| 0 <= k < rest.len() && (#[trigger] rest[k]).0 == ws[i].0;
                    assert(stack[k].0 == vs[i].0);
                }
            }
        } else {
            let pushed = rest + child_entries(p, t);
            lemma_stack_size_concat(rest, child_entries(p, t));
            lemma_child_entries_size(p, t);
            lemma_visit_pairs_parent_first(pushed, visited.insert(t.identifier));
            let tail = visit_pairs(pushed, visited.insert(t.identifier));
            assert(vs == seq![(p, t)] + tail);
            assert forall|i: int| 0 <= i < vs.len() implies (exists|k: int|
                0 <= k < stack.len() && (#[trigger] stack[k]).0 == (#[trigger] vs[i]).0) || (
            exists|j: int| 0 <= j < i && (#[trigger] vs[j]).0 == vs[i].0.drop_last()) by {
                if i == 0 {
                    assert(vs[0] == (p, t));
                    assert(stack[stack.len() - 1].0 == vs[0].0);
                } else {
                    assert(vs[i] == tail[i - 1]);
                    if exists|k: int|
                        0 <= k < pushed.len() && (#[trigger] pushed[k]).0 == (#[trigger] tail[i
                            - 1]).0 {
                        let k = choose|k: int|
                            0 <= k < pushed.len() && (#[trigger] pushed[k]).0 == tail[i - 1].0;
                        if k < rest.len() {
                            assert(stack[k].0 == vs[i].0);
                        } else {
                            let jc = k - rest.len();
                            assert(pushed[k] == (p.push(jc), t.children[jc]));
                            assert(p.push(jc).drop_last() =~= p);
                            assert(vs[0].0 == vs[i].0.drop_last());
                        }
                    } else {
                        let j = choose|j: int|
                            0 <= j < i - 1 && (#[trigger] tail[j]).0 == tail[i - 1].0.drop_last();
                        assert(vs[j + 1] == tail[j]);
                        assert(vs[j + 1].0 == vs[i].0.drop_last());
                    }
                }
            }
        }
    }
}

/// Law: the traversal visits a node only after its parent: every visited
/// entry other than the root's carries a path whose one-step-shorter
/// parent path stands among the strictly earlier visited entries. So a node
/// the traversal skips is skipped together with its whole subtree.
pub proof fn lemma_traversal_parent_first(t: NodeView)
    ensures
        forall|i: int|
            0 <= i < traversal(t).len() && (#[trigger] traversal(t)[i]).0.len() > 0 ==> exists|
                j: int,
            | 0 <= j < i && (#[trigger] traversal(t)[j]).0 == traversal(t)[i].0.drop_last(),
{
    let stack = seq![(Seq::<int>::empty(), t)];
    lemma_visit_pairs_parent_first(stack, Set::empty());
    assert forall|i: int|
        0 <= i < traversal(t).len() && (#[trigger] traversal(t)[i]).0.len() > 0 implies exists|
        j: int,
    | 0 <= j < i && (#[trigger] traversal(t)[j]).0 == traversal(t)[i].0.drop_last() by {
        let vs = visit_pairs(stack, Set::empty());
        if exists|k: int| 0 <= k < stack.len() && (#[trigger] stack[k]).0 == (#[trigger] vs[i]).0 {
            let k = choose|k: int| 0 <= k < stack.len() && (#[trigger] stack[k]).0 == vs[i].0;
            assert(stack[k].0 =~= Seq::<int>::empty());
            assert(vs[i].0.len() == 0);
        }
    }
}

/// Whether some node of the tree `t` carries the identifier `id`.
pub open spec fn has_id(t: NodeView, id: Seq<char>) -> bool {
    exists|q: Seq<int>| #[trigger] valid_path(t, q) && node_at(t, q).identifier == id
}

/// Whether the identifiers of the tree `t` are pairwise distinct: no two
/// different nodes carry the same identifier.
pub open spec fn distinct_identifiers(t: NodeView) -> bool {
    forall|p: Seq<int>, q: Seq<int>|
        #[trigger] valid_path(t, p) && #[trigger] valid_path(t, q) && p != q ==> node_at(
            t,
            p,
        ).identifier != node_at(t, q).identifier
}

/// Prepending an in-bounds child index to a path valid in that child gives a
/// path valid in the parent, reaching the same node.
pub proof fn lemma_path_cons(t: NodeView, j: int, q: Seq<int>)
    requires
        0 <= j < t.children.len(),
        valid_path(t.children[j], q),
    ensures
        valid_path(t, seq![j] + q),
        node_at(t, seq![j] + q) == node_at(t.children[j], q),
{
    assert((seq![j] + q).first() == j);
    assert((seq![j] + q).drop_first() =~= q);
}

proof fn lemma_distinct_child(t: NodeView, j: int)
    requires
        distinct_identifiers(t),
        0 <= j < t.children.len(),
    ensures
        distinct_identifiers(t.children[j]),
{
    let c = t.children[j];
    assert forall|p: Seq<int>, q: Seq<int>|
        #[trigger] valid_path(c, p) && #[trigger] valid_path(c, q) && p != q implies node_at(
        c,
        p,
    ).identifier != node_at(c, q).identifier by {
        lemma_path_cons(t, j, p);
        lemma_path_cons(t, j, q);
        assert((seq![j] + p).drop_first() =~= p);
        assert((seq![j] + q).drop_first() =~= q);
        assert(seq![j] + p != seq![j] + q);
    }
}

proof fn lemma_has_id_child(t: NodeView, j: int, id: Seq<char>)
    requires
        0 <= j < t.children.len(),
        has_id(t.children[j], id),
    ensures
        has_id(t, id),
{
    let q = choose|q: Seq<int>|
        #[trigger] valid_path(t.children[j], q) && node_at(t.children[j], q).identifier == id;
    lemma_path_cons(t, j, q);
}

proof fn lemma_child_id_not_own(t: NodeView, j: int, id: Seq<char>)
    requires
        distinct_identifiers(t),
        0 <= j < t.children.len(),
        has_id(t.children[j], id),
    ensures
        id != t.identifier,
{
    let q = choose|q: Seq<int>|
        #[trigger] valid_path(t.children[j], q) && node_at(t.children[j], q).identifier == id;
    lemma_path_cons(t, j, q);
    let e = Seq::<int>::empty();
    assert(valid_path(t, e));
    assert(node_at(t, e) == t);
    assert(seq![j] + q != e);
}

proof fn lemma_children_ids_disjoint(t: NodeView, j1: int, j2: int, id: Seq<char>)
    requires
        distinct_identifiers(t),
        0 <= j1 < t.children.len(),
        0 <= j2 < t.children.len(),
        j1 != j2,
        has_id(t.children[j1], id),
    ensures
        !has_id(t.children[j2], id),
{
    if has_id(t.children[j2], id) {
        let q1 = choose|q: Seq<int>|
            #[trigger] valid_path(t.children[j1], q) && node_at(t.children[j1], q).identifier
                == id;
        let q2 = choose|q: Seq<int>|
            #[trigger] valid_path(t.children[j2], q) && node_at(t.children[j2], q).identifier
                == id;
        lemma_path_cons(t, j1, q1);
        lemma_path_cons(t, j2, q2);
        assert((seq![j1] + q1).first() == j1);
        assert((seq![j2] + q2).first() == j2);
        assert(seq![j1] + q1 != seq![j2] + q2);
    }
}

proof fn lemma_visit_pairs_covers(
    stack: Seq<(Seq<int>, NodeView)>,
    visited: Set<Seq<char>>,
    k: int,
    q: Seq<int>,
)
    requires
        forall|k2: int|
            0 <= k2 < stack.len() ==> distinct_identifiers((#[trigger] stack[k2]).1),
        forall|k2: int, id: Seq<char>|
            0 <= k2 < stack.len() && #[trigger] has_id(stack[k2].1, id) ==> !visited.contains(id),
        forall|k2: int, k3: int, id: Seq<char>|
            #![trigger has_id(stack[k2].1, id), has_id(stack[k3].1, id)]
            0 <= k2 < stack.len() && 0 <= k3 < stack.len() && k2 != k3 && has_id(stack[k2].1, id)
                ==> !has_id(stack[k3].1, id),
        0 <= k < stack.len(),
        valid_path(stack[k].1, q),
    ensures
        exists|i: int|
            0 <= i < visit_pairs(stack, visited).len() && (#[trigger] visit_pairs(
                stack,
                visited,
            )[i]).0 == stack[k].0 + q,
    decreases stack_size(stack),
{
    let p0 = stack.last().0;
    let t0 = stack.last().1;
    let rest = stack.drop_last();
    let last = stack.len() - 1;
    let e = Seq::<int>::empty();
    assert(valid_path(t0, e));
    assert(node_at(t0, e) == t0);
    assert(has_id(t0, t0.identifier));
    assert(!visited.contains(t0.identifier));
    let pushed = rest + child_entries(p0, t0);
    let v2 = visited.insert(t0.identifier);
    let tail = visit_pairs(pushed, v2);
    assert(visit_pairs(stack, visited) == seq![(p0, t0)] + tail);
    assert(visit_pairs(stack, visited).len() == 1 + tail.len());
    // entries of the grown stack are the old ones plus the children of the
    // popped node
    assert(forall|k2: int| 0 <= k2 < rest.len() ==> #[trigger] pushed[k2] == stack[k2]);
    assert(forall|j: int|
        0 <= j < t0.children.len() ==> #[trigger] pushed[rest.len() + j] == (
        p0.push(j),
        t0.children[j],
    ));
    // each grown-stack subtree has pairwise distinct identifiers
    assert forall|k2: int|
        0 <= k2 < pushed.len() implies distinct_identifiers((#[trigger] pushed[k2]).1) by {
        if k2 >= rest.len() {
            lemma_distinct_child(t0, k2 - rest.len());
        }
    }
    // no identifier of a grown-stack subtree was visited
    assert forall|k2: int, id: Seq<char>|
        0 <= k2 < pushed.len() && #[trigger] has_id(pushed[k2].1, id) implies !v2.contains(
        id,
    ) by {
        if k2 < rest.len() {
            assert(has_id(stack[k2].1, id));
            assert(!has_id(stack[last].1, id));
            assert(id != t0.identifier);
        } else {
            let j = k2 - rest.len();
            lemma_has_id_child(t0, j, id);
            lemma_child_id_not_own(t0, j, id);
            assert(has_id(stack[last].1, id));
        }
    }
    // grown-stack subtrees still carry pairwise disjoint identifiers
    assert forall|k2: int, k3: int, id: Seq<char>|
        #![trigger has_id(pushed[k2].1, id), has_id(pushed[k3].1, id)]
        0 <= k2 < pushed.len() && 0 <= k3 < pushed.len() && k2 != k3 && has_id(
            pushed[k2].1,
            id,
        ) implies !has_id(pushed[k3].1, id) by {
        if has_id(pushed[k3].1, id) {
            if k2 < rest.len() && k3 < rest.len() {
                assert(has_id(stack[k2].1, id));
                assert(!has_id(stack[k3].1, id));
            } else if k2 < rest.len() {
                lemma_has_id_child(t0, k3 - rest.len(), id);
                assert(has_id(stack[k2].1, id));
                assert(!has_id(stack[last].1, id));
            } else if k3 < rest.len() {
                lemma_has_id_child(t0, k2 - rest.len(), id);
                assert(has_id(stack[k3].1, id));
                assert(!has_id(stack[last].1, id));
            } else {
                lemma_children_ids_disjoint(t0, k2 - rest.len(), k3 - rest.len(), id);
            }
        }
    }
    lemma_stack_size_concat(rest, child_entries(p0, t0));
    lemma_child_entries_size(p0, t0);
    if k == last && q.len() == 0 {
        assert(stack[k].0 + q =~= p0);
        assert(visit_pairs(stack, visited)[0].0 == stack[k].0 + q);
    } else if k == last {
        let j = q.first();
        assert(0 <= j < t0.children.len());
        assert(valid_path(t0.children[j], q.drop_first()));
        lemma_visit_pairs_covers(pushed, v2, rest.len() + j, q.drop_first());
        let i = choose|i: int|
            0 <= i < tail.len() && (#[trigger] tail[i]).0 == pushed[rest.len() + j].0
                + q.drop_first();
        assert(p0.push(j) + q.drop_first() =~= p0 + q);
        assert(visit_pairs(stack, visited)[i + 1] == tail[i]);
        assert(visit_pairs(stack, visited)[i + 1].0 == stack[k].0 + q);
    } else {
        lemma_visit_pairs_covers(pushed, v2, k, q);
        let i = choose|i: int|
            0 <= i < tail.len() && (#[trigger] tail[i]).0 == pushed[k].0 + q;
        assert(visit_pairs(stack, visited)[i + 1] == tail[i]);
        assert(visit_pairs(stack, visited)[i + 1].0 == stack[k].0 + q);
    }
}

/// Law: over a tree whose identifiers are pairwise distinct, the traversal
/// visits every node exactly once: each valid path appears, together with
/// the node it leads to, in one and only one visited entry.
pub proof fn lemma_traversal_visits_each_node_once(t: NodeView, p: Seq<int>)
    requires
        distinct_identifiers(t),
        valid_path(t, p),
    ensures
        exists|i: int|
            0 <= i < traversal(t).len() && #[trigger] traversal(t)[i] == (p, node_at(t, p)),
        forall|i: int, j: int|
            0 <= i < traversal(t).len() && 0 <= j < traversal(t).len() && (#[trigger] traversal(
                t,
            )[i]).0 == p && (#[trigger] traversal(t)[j]).0 == p ==> i == j,
{
    let stack = seq![(Seq::<int>::empty(), t)];
    lemma_visit_pairs_covers(stack, Set::empty(), 0, p);
    lemma_traversal_consistent(t);
    lemma_traversal_identifiers_distinct(t);
    let i = choose|i: int|
        0 <= i < visit_pairs(stack, Set::empty()).len() && (#[trigger] visit_pairs(
            stack,
            Set::empty(),
        )[i]).0 == stack[0].0 + p;
    assert(stack[0].0 + p =~= p);
    assert(traversal(t)[i].0 == p);
    assert(node_at(t, traversal(t)[i].0) == traversal(t)[i].1);
    assert(traversal(t)[i] == (p, node_at(t, p)));
    assert forall|i2: int, j2: int|
        0 <= i2 < traversal(t).len() && 0 <= j2 < traversal(t).len() && (#[trigger] traversal(
            t,
        )[i2]).0 == p && (#[trigger] traversal(t)[j2]).0 == p implies i2 == j2 by {
        assert(traversal(t)[i2].1 == node_at(t, p));
        assert(traversal(t)[j2].1 == node_at(t, p));
        if i2 < j2 {
            assert(traversal(t)[i2].1.identifier != traversal(t)[j2].1.identifier);
        }
        if j2 < i2 {
            assert(traversal(t)[j2].1.identifier != traversal(t)[i2].1.identifier);
        }
    }
}

/// The renderable values carried by a sequence of visited entries, in order.
pub open spec fn values_of(vs: Seq<(Seq<int>, NodeView)>) -> Seq<NodeValue> {
    vs.map_values(|e: (Seq<int>, NodeView)| e.1.value)
}

impl SceneNode {
    /// Performs the full stack-based traversal starting at this node and
    /// returns the renderable value of every visited node, one entry per
    /// visited node, in traversal order.
    pub fn traverse_values(&self) -> (r: Vec<NodeValue>)
        ensures
            r@ == values_of(traversal(self@)),
    {
        proof {
            broadcast use lemma_node_view_children;
        }
        let mut out: Vec<NodeValue> = Vec::new();
        let mut stack: Vec<(Vec<usize>, &SceneNode)> = Vec::new();
        let empty_path: Vec<usize> = Vec::new();
        stack.push((empty_path, self));
        let mut visited: Vec<&'static str> = Vec::new();
        proof {
            assert(abs_path(Seq::<usize>::empty()) =~= Seq::<int>::empty());
            assert(abs_stack(stack@) =~= seq![(Seq::<int>::empty(), self@)]);
            assert(visited_set(visited@) =~= Set::<Seq<char>>::empty());
            assert(values_of(traversal(self@)) =~= out@ + values_of(
                visit_pairs(abs_stack(stack@), visited_set(visited@)),
            ));
        }
        loop
            invariant
                values_of(traversal(self@)) == out@ + values_of(
                    visit_pairs(abs_stack(stack@), visited_set(visited@)),
                ),
            decreases stack_size(abs_stack(stack@)),
        {
            proof {
                broadcast use lemma_node_view_children;
            }
            if stack.len() == 0 {
                proof {
                    assert(abs_stack(stack@) =~= Seq::<(Seq<int>, NodeView)>::empty());
                    assert(values_of(Seq::<(Seq<int>, NodeView)>::empty())
                        =~= Seq::<NodeValue>::empty());
                    assert(out@ + Seq::<NodeValue>::empty() =~= out@);
                }
                return out;
            }
            let ghost pre_abs = abs_stack(stack@);
            let ghost pre_vset = visited_set(visited@);
            let ghost pre_out = out@;
            let top = match stack.pop() {
                Some(top) => top,
                None => vstd::pervasive::unreached(),
            };
            let (path, node) = top;
            let ghost pa = abs_path(path@);
            let ghost t = node@;
            let ghost rest_abs = abs_stack(stack@);
            proof {
                assert(rest_abs =~= pre_abs.drop_last());
                assert(pre_abs.last() == (pa, t));
            }
            if contains_id(&visited, node.identifier) {
                proof {
                    assert(visit_pairs(pre_abs, pre_vset) == visit_pairs(rest_abs, pre_vset));
                    assert(stack_size(pre_abs) == stack_size(rest_abs) + node_size(t));
                }
            } else {
                let ghost pre_vseq = visited@;
                visited.push(node.identifier);
                out.push(node.value);
                proof {
                    lemma_visited_push(pre_vseq, node.identifier);
                }
                let n = node.children.len();
                let mut j: usize = 0;
                while j < n
                    invariant
                        j <= n,
                        n == node.children@.len(),
                        t == node@,
                        pa == abs_path(path@),
                        abs_stack(stack@) == rest_abs + child_entries(pa, t).subrange(
                            0,
                            j as int,
                        ),
                    decreases n - j,
                {
                    proof {
                        broadcast use lemma_node_view_children;
                    }
                    let mut cp = copy_path(&path);
                    cp.push(j);
                    let ghost pre_stack_abs = abs_stack(stack@);
                    stack.push((cp, &node.children[j]));
                    proof {
                        assert(abs_path(cp@) =~= pa.push(j as int));
                        assert(node.children@[j as int]@ == t.children[j as int]);
                        assert(abs_stack(stack@) =~= pre_stack_abs.push(
                            (pa.push(j as int), t.children[j as int]),
                        ));
                        assert(child_entries(pa, t).subrange(0, j + 1) =~= child_entries(
                            pa,
                            t,
                        ).subrange(0, j as int).push((pa.push(j as int), t.children[j as int])));
                        assert(abs_stack(stack@) == rest_abs + child_entries(pa, t).subrange(
                            0,
                            j + 1,
                        ));
                    }
                    j += 1;
                }
                proof {
                    assert(child_entries(pa, t).subrange(0, n as int) =~= child_entries(pa, t));
                    let pushed = rest_abs + child_entries(pa, t);
                    let vs = visit_pairs(pre_abs, pre_vset);
                    let tail = visit_pairs(pushed, pre_vset.insert(t.identifier));
                    assert(vs == seq![(pa, t)] + tail);
                    assert(values_of(vs) =~= seq![t.value] + values_of(tail));
                    assert(pre_out + values_of(vs) =~= (pre_out.push(t.value)) + values_of(tail));
                    assert(out@ == pre_out.push(t.value));
                    lemma_stack_size_concat(rest_abs, child_entries(pa, t));
                    lemma_child_entries_size(pa, t);
                    assert(stack_size(pre_abs) == stack_size(rest_abs) + node_size(t));
                }
            }
        }
    }
}

/// An owned tree of scene nodes; the root always holds the abstract variant.
pub struct SceneGraph {
    root_node: Box<SceneNode>,
}

impl View for SceneGraph {
    type V = NodeView;

    closed spec fn view(&self) -> NodeView {
        (*self.root_node)@
    }
}

impl SceneGraph {
    /// Creates a scene graph with an abstract root.
    pub fn new() -> (graph: SceneGraph)
        ensures
            graph@ == (NodeView {
                identifier: "root"@,
                value: NodeValue::AbstractNode,
                children: Seq::empty(),
            }),
    {
        SceneGraph { root_node: Box::new(SceneNode::new("root", NodeValue::AbstractNode)) }
    }

    /// Returns a reference to the root of the scene graph.
    pub fn root(&self) -> (r: &SceneNode)
        ensures
            r@ == self@,
    {
        &self.root_node
    }

    /// Returns a mutable reference to the root of the scene graph.
    ///
    /// The graph's discipline is that the root keeps the abstract variant
    /// `new` gave it for the graph's whole lifetime: a caller holding the
    /// root mutably is expected to edit its children, not to replace the
    /// root's own value or identifier. The contract records faithfully that
    /// this method itself cannot enforce it.
    pub fn root_mut(&mut self) -> (r: &mut SceneNode)
        ensures
            (*r)@ == old(self)@,
            final(self)@ == (*final(r))@,
    {
        &mut self.root_node
    }
}

} // verus!
