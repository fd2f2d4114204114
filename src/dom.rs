use crate::util::chars_eq;
use vstd::prelude::*;

verus! {

/// Identity of the root node of every document.
pub const ROOT: usize = 0;

/// Errors of the node store and of the tree operations over it.
#[derive(PartialEq, Eq, Structural, Debug, Clone, Copy)]
pub enum DomError {
    /// The node named is not live, or is the root where the root may not be used.
    NotFound,
    /// A node was to be attached under a parent that is not live.
    InvalidParent,
}

/// One class token of an element.
#[derive(Debug)]
pub struct HtmlClass(pub Vec<char>);

/// The closed set of node variants.
#[derive(PartialEq, Eq, Structural, Debug, Clone, Copy)]
pub enum NodeKind {
    Root,
    Element,
    Text,
    Comment,
}

/// An attribute other than `class` and `id`, kept as given.
#[derive(Debug)]
pub struct Attribute {
    pub name: Vec<char>,
    pub value: Vec<char>,
}

/// What a node holds apart from its place in the tree.
#[derive(Debug)]
pub struct NodeData {
    pub kind: NodeKind,
    /// Tag name of an element; empty for the other kinds.
    pub name: Vec<char>,
    /// Characters of a text node or of a comment; empty for elements.
    pub data: Vec<char>,
    pub classes: Vec<HtmlClass>,
    /// The element id; empty when there is none.
    pub id: Vec<char>,
    pub attributes: Vec<Attribute>,
}

impl NodeData {
    /// An element with the given tag name and no attributes.
    pub fn element(name: Vec<char>) -> (r: NodeData)
        ensures
            r.kind == NodeKind::Element,
            r.name@ == name@,
            r.data@.len() == 0,
            r.classes@.len() == 0,
            r.id@.len() == 0,
            r.attributes@.len() == 0,
    {
        NodeData {
            kind: NodeKind::Element,
            name,
            data: Vec::new(),
            classes: Vec::new(),
            id: Vec::new(),
            attributes: Vec::new(),
        }
    }

    /// A text node holding `data`.
    pub fn text(data: Vec<char>) -> (r: NodeData)
        ensures
            r.kind == NodeKind::Text,
            r.name@.len() == 0,
            r.data@ == data@,
            r.classes@.len() == 0,
            r.id@.len() == 0,
            r.attributes@.len() == 0,
    {
        NodeData {
            kind: NodeKind::Text,
            name: Vec::new(),
            data,
            classes: Vec::new(),
            id: Vec::new(),
            attributes: Vec::new(),
        }
    }

    /// A comment holding `data`.
    pub fn comment(data: Vec<char>) -> (r: NodeData)
        ensures
            r.kind == NodeKind::Comment,
            r.name@.len() == 0,
            r.data@ == data@,
            r.classes@.len() == 0,
            r.id@.len() == 0,
            r.attributes@.len() == 0,
    {
        NodeData {
            kind: NodeKind::Comment,
            name: Vec::new(),
            data,
            classes: Vec::new(),
            id: Vec::new(),
            attributes: Vec::new(),
        }
    }
}

/// The class tokens as character sequences.
pub open spec fn class_view(c: Seq<HtmlClass>) -> Seq<Seq<char>> {
    c.map_values(|x: HtmlClass| x.0@)
}

/// The ordered set `c` with `w` added: unchanged when `w` is there, else `w` at
/// the end.
pub open spec fn with_class(c: Seq<Seq<char>>, w: Seq<char>) -> Seq<Seq<char>> {
    if c.contains(w) {
        c
    } else {
        c.push(w)
    }
}

/// Adding to an ordered set keeps it free of repeats.
pub proof fn lemma_with_class_no_duplicates(c: Seq<Seq<char>>, w: Seq<char>)
    requires
        c.no_duplicates(),
    ensures
        with_class(c, w).no_duplicates(),
{
    if !c.contains(w) {
        let d = c.push(w);
        assert forall|a: int, b: int| 0 <= a < b < d.len() implies d[a] != d[b] by {
            if b == c.len() {
                assert(d[a] == c[a]);
            }
        }
    }
}

/// Whether `classes` holds the token `w`.
pub fn has_class(classes: &Vec<HtmlClass>, w: &Vec<char>) -> (r: bool)
    ensures
        r == class_view(classes@).contains(w@),
{
    let mut i: usize = 0;
    while i < classes.len()
        invariant
            i <= classes@.len(),
            forall|k: int| 0 <= k < i ==> class_view(classes@)[k] != w@,
        decreases classes@.len() - i,
    {
        if chars_eq(&classes[i].0, w) {
            assert(class_view(classes@)[i as int] == w@);
            return true;
        }
        i += 1;
    }
    false
}

/// A node of the store: its data, its parent link (an index, not an owner), its
/// ordered children and whether it is still live.
#[derive(Debug)]
pub struct Node {
    pub data: NodeData,
    pub parent: usize,
    pub children: Vec<usize>,
    pub live: bool,
}


/// Read access to one node: its tag name, id, classes, children and parent.
pub trait HtmlDomElement {
    /// The node this value gives access to.
    spec fn node(&self) -> Node;

    fn children(&self) -> (r: &Vec<usize>)
        ensures
            r@ == self.node().children@,
    ;

    fn parent(&self) -> (r: usize)
        ensures
            r == self.node().parent,
    ;

    fn classes(&self) -> (r: &Vec<HtmlClass>)
        ensures
            *r == self.node().data.classes,
    ;

    fn name(&self) -> (r: &Vec<char>)
        ensures
            r@ == self.node().data.name@,
    ;

    fn id(&self) -> (r: &Vec<char>)
        ensures
            r@ == self.node().data.id@,
    ;
}

impl HtmlDomElement for Node {
    open spec fn node(&self) -> Node {
        *self
    }

    fn children(&self) -> (r: &Vec<usize>) {
        &self.children
    }

    fn parent(&self) -> (r: usize) {
        self.parent
    }

    fn classes(&self) -> (r: &Vec<HtmlClass>) {
        &self.data.classes
    }

    fn name(&self) -> (r: &Vec<char>) {
        &self.data.name
    }

    fn id(&self) -> (r: &Vec<char>) {
        &self.data.id
    }
}

/// A caller's rule for picking a child to remove: it sees the child's place in
/// its parent's list and the child as it stands.
pub trait ElementIdentifier {
    spec fn spec_matches(&self, position: usize, node: &Node) -> bool;

    fn matches(&self, position: usize, node: &Node) -> (r: bool)
        ensures
            r == self.spec_matches(position, node),
    ;
}

/// Picks the child at a given place.
pub struct AtPosition(pub usize);

impl ElementIdentifier for AtPosition {
    open spec fn spec_matches(&self, position: usize, node: &Node) -> bool {
        position == self.0
    }

    fn matches(&self, position: usize, node: &Node) -> (r: bool) {
        position == self.0
    }
}

/// Picks children whose id attribute equals the given characters.
pub struct WithIdAttr(pub Vec<char>);

impl ElementIdentifier for WithIdAttr {
    open spec fn spec_matches(&self, position: usize, node: &Node) -> bool {
        node.data.id@ == self.0@
    }

    fn matches(&self, position: usize, node: &Node) -> (r: bool) {
        chars_eq(&node.data.id, &self.0)
    }
}

/// Picks elements with the given tag name.
pub struct WithTagName(pub Vec<char>);

impl ElementIdentifier for WithTagName {
    open spec fn spec_matches(&self, position: usize, node: &Node) -> bool {
        node.data.kind == NodeKind::Element && node.data.name@ == self.0@
    }

    fn matches(&self, position: usize, node: &Node) -> (r: bool) {
        node.data.kind == NodeKind::Element && chars_eq(&node.data.name, &self.0)
    }
}

/// A document: an arena of nodes whose index 0 is the root.
#[derive(Debug)]
pub struct HtmlDom {
    nodes: Vec<Node>,
}

impl View for HtmlDom {
    type V = Seq<Node>;

    closed spec fn view(&self) -> Seq<Node> {
        self.nodes@
    }
}

impl HtmlDom {
    /// `i` names a node of the store that has not been removed.
    pub open spec fn live(&self, i: int) -> bool {
        0 <= i < self@.len() && self@[i].live
    }

    pub open spec fn parent_of(&self, i: int) -> int {
        self@[i].parent as int
    }

    pub open spec fn children_of(&self, i: int) -> Seq<usize> {
        self@[i].children@
    }

    /// The store's shape invariant: the root is live and is its own parent; every
    /// other live node has a live parent of smaller index that lists it; every
    /// listed child is live, not the root, and points back at its parent; no
    /// child list repeats an entry, and no class list repeats a token.
    pub open spec fn wf(&self) -> bool {
        &&& 1 <= self@.len() <= usize::MAX
        &&& self.live(0)
        &&& self@[0].parent == 0
        &&& self@[0].data.kind == NodeKind::Root
        &&& forall|i: int|
            0 < i && #[trigger] self.live(i) ==> {
                &&& 0 <= self.parent_of(i) < i
                &&& self.live(self.parent_of(i))
                &&& self.children_of(self.parent_of(i)).contains(i as usize)
            }
        &&& forall|p: int, k: int|
            self.live(p) && 0 <= k < self.children_of(p).len() ==> {
                &&& 0 < #[trigger] self.children_of(p)[k]
                &&& self.live(self.children_of(p)[k] as int)
                &&& self.parent_of(self.children_of(p)[k] as int) == p
            }
        &&& forall|p: int| #[trigger] self.live(p) ==> self.children_of(p).no_duplicates()
        &&& forall|p: int| #[trigger] self.live(p) ==> class_view(self@[p].data.classes@).no_duplicates()
    }

    /// Where node `i` stands in its parent's child list.
    pub open spec fn position(&self, i: int) -> int {
        choose|k: int|
            0 <= k < self.children_of(self.parent_of(i)).len() && self.children_of(
                self.parent_of(i),
            )[k] == i as usize
    }

    /// The siblings of `i`: its parent's children without `i`; none for the root.
    pub open spec fn siblings_of(&self, i: int) -> Seq<usize> {
        if i == 0 {
            Seq::empty()
        } else {
            self.children_of(self.parent_of(i)).remove(self.position(i))
        }
    }

    /// Node `j` is `a` or lies below it.
    pub open spec fn descends_from(&self, j: int, a: int) -> bool
        decreases j,
    {
        if j == a {
            true
        } else if 0 < j < self@.len() && 0 <= self.parent_of(j) < j {
            self.descends_from(self.parent_of(j), a)
        } else {
            false
        }
    }

    /// A document holding the root alone.
    pub fn new() -> (r: HtmlDom)
        ensures
            r.wf(),
            r@.len() == 1,
            r.children_of(0).len() == 0,
            r@[0].data.name@.len() == 0,
            r@[0].data.id@.len() == 0,
            r@[0].data.classes@.len() == 0,
    {
        let root = Node {
            data: NodeData {
                kind: NodeKind::Root,
                name: Vec::new(),
                data: Vec::new(),
                classes: Vec::new(),
                id: Vec::new(),
                attributes: Vec::new(),
            },
            parent: 0,
            children: Vec::new(),
            live: true,
        };
        let mut nodes: Vec<Node> = Vec::new();
        nodes.push(root);
        HtmlDom { nodes }
    }

    /// The root's identity.
    pub fn root(&self) -> (r: usize)
        ensures
            r == 0,
    {
        ROOT
    }

    /// Number of identities handed out so far, live or not.
    pub fn len(&self) -> (r: usize)
        ensures
            r == self@.len(),
    {
        self.nodes.len()
    }

    /// Whether `id` names a live node.
    pub fn is_live(&self, id: usize) -> (r: bool)
        ensures
            r == self.live(id as int),
    {
        id < self.nodes.len() && self.nodes[id].live
    }

    /// The node `id`, if it is live.
    pub fn get(&self, id: usize) -> (r: Result<&Node, DomError>)
        ensures
            self.live(id as int) ==> r == Ok::<&Node, DomError>(&self@[id as int]),
            !self.live(id as int) ==> r == Err::<&Node, DomError>(DomError::NotFound),
    {
        if self.is_live(id) {
            Ok(&self.nodes[id])
        } else {
            Err(DomError::NotFound)
        }
    }

    /// The ordered children of `id`.
    pub fn children(&self, id: usize) -> (r: Result<&Vec<usize>, DomError>)
        ensures
            self.live(id as int) ==> r is Ok && r->Ok_0@ == self.children_of(id as int),
            !self.live(id as int) ==> r == Err::<&Vec<usize>, DomError>(DomError::NotFound),
    {
        if self.is_live(id) {
            Ok(&self.nodes[id].children)
        } else {
            Err(DomError::NotFound)
        }
    }

    /// The parent of `id`; the root is its own parent.
    pub fn parent(&self, id: usize) -> (r: Result<usize, DomError>)
        requires
            self.wf(),
        ensures
            self.live(id as int) ==> r == Ok::<usize, DomError>(self@[id as int].parent),
            id == 0 ==> r == Ok::<usize, DomError>(0),
            !self.live(id as int) ==> r == Err::<usize, DomError>(DomError::NotFound),
    {
        if self.is_live(id) {
            Ok(self.nodes[id].parent)
        } else {
            Err(DomError::NotFound)
        }
    }

    /// Creates a node holding `data` as the last child of `parent`.
    pub fn add_child(&mut self, parent: usize, data: NodeData) -> (r: Result<usize, DomError>)
        requires
            old(self).wf(),
            old(self)@.len() < usize::MAX,
            class_view(data.classes@).no_duplicates(),
        ensures
            final(self).wf(),
            !old(self).live(parent as int) ==> r == Err::<usize, DomError>(DomError::InvalidParent)
                && final(self)@ == old(self)@,
            old(self).live(parent as int) ==> r == Ok::<usize, DomError>(old(self)@.len() as usize)
                && Self::added(old(self), final(self), parent as int, data),
    {
        if !self.is_live(parent) {
            return Err(DomError::InvalidParent);
        }
        let id = self.nodes.len();
        let ghost pre = *self;
        let node = Node { data, parent, children: Vec::new(), live: true };
        self.nodes.push(node);
        self.nodes[parent].children.push(id);
        proof {
            assert forall|p: int| #[trigger] self.live(p) implies self.children_of(p).no_duplicates() by {
                if p == parent {
                    assert(!pre.children_of(p).contains(id)) by {
                        if pre.children_of(p).contains(id) {
                            let k = choose|k: int|
                                0 <= k < pre.children_of(p).len() && pre.children_of(p)[k] == id;
                            assert(pre.live(pre.children_of(p)[k] as int));
                        }
                    }
                    assert(self.children_of(p) == pre.children_of(p).push(id));
                } else if p != id {
                    assert(pre.live(p));
                    assert(self.children_of(p) == pre.children_of(p));
                } else {
                    assert(self.children_of(p).len() == 0);
                }
            }
            assert forall|i: int| 0 < i && #[trigger] self.live(i) implies {
                &&& 0 <= self.parent_of(i) < i
                &&& self.live(self.parent_of(i))
                &&& self.children_of(self.parent_of(i)).contains(i as usize)
            } by {
                if i == id {
                    assert(self.children_of(parent as int).last() == id);
                } else {
                    assert(pre.live(i));
                    let q = pre.parent_of(i);
                    if q == parent {
                        let k = choose|k: int| 0 <= k < pre.children_of(q).len() && pre.children_of(q)[k] == i;
                        assert(self.children_of(q)[k] == i);
                    }
                }
            }
            assert forall|p: int, k: int|
                self.live(p) && 0 <= k < self.children_of(p).len() implies {
                &&& 0 < #[trigger] self.children_of(p)[k]
                &&& self.live(self.children_of(p)[k] as int)
                &&& self.parent_of(self.children_of(p)[k] as int) == p
            } by {
                if p != parent && p != id {
                    assert(pre.live(p));
                    assert(self.children_of(p)[k] == pre.children_of(p)[k]);
                } else if p == parent && k < pre.children_of(p).len() {
                    assert(self.children_of(p)[k] == pre.children_of(p)[k]);
                }
            }
        }
        Ok(id)
    }

    /// `post` is `pre` with one new live node, holding `data`, appended as the last
    /// child of `parent`; nothing else changed.
    pub open spec fn added(pre: &Self, post: &Self, parent: int, data: NodeData) -> bool {
        let id = pre@.len() as int;
        &&& post@.len() == id + 1
        &&& post@[id].data == data
        &&& post@[id].parent == parent
        &&& post@[id].children@.len() == 0
        &&& post@[id].live
        &&& post.children_of(parent) == pre.children_of(parent).push(id as usize)
        &&& post@[parent].data == pre@[parent].data
        &&& post@[parent].parent == pre@[parent].parent
        &&& post@[parent].live == pre@[parent].live
        &&& forall|j: int| 0 <= j < id && j != parent ==> #[trigger] post@[j] == pre@[j]
    }

    /// Nodes of smaller index than `a` never lie below it.
    pub proof fn lemma_smaller_not_below(&self, j: int, a: int)
        requires
            j < a,
        ensures
            !self.descends_from(j, a),
        decreases j,
    {
        if 0 < j < self@.len() && 0 <= self.parent_of(j) < j {
            self.lemma_smaller_not_below(self.parent_of(j), a);
        }
    }

    /// `post` is `pre` after removing the live non-root node `id`: `id` has left its
    /// parent's child list, `id` and every node below it are no longer live, and
    /// nothing else changed.
    pub open spec fn removed(pre: &Self, post: &Self, id: int) -> bool {
        let p = pre.parent_of(id);
        &&& post@.len() == pre@.len()
        &&& post.children_of(p) == pre.children_of(p).remove(pre.position(id))
        &&& forall|j: int|
            0 <= j < pre@.len() ==> {
                &&& (#[trigger] post@[j]).live == (pre@[j].live && !pre.descends_from(j, id))
                &&& post@[j].data == pre@[j].data
                &&& post@[j].parent == pre@[j].parent
                &&& (j != p ==> post@[j].children == pre@[j].children)
            }
    }

    /// Detaches the live non-root node `id` from its parent and retires it with
    /// its whole subtree, in one step.
    pub fn remove(&mut self, id: usize) -> (r: Result<(), DomError>)
        requires
            old(self).wf(),
        ensures
            final(self).wf(),
            (id == 0 || !old(self).live(id as int)) ==> r == Err::<(), DomError>(DomError::NotFound)
                && final(self)@ == old(self)@,
            (id != 0 && old(self).live(id as int)) ==> r is Ok && Self::removed(
                old(self),
                final(self),
                id as int,
            ),
    {
        if id == 0 || !self.is_live(id) {
            return Err(DomError::NotFound);
        }
        let ghost pre = *self;
        let p = self.nodes[id].parent;
        assert(pre.live(p as int));
        let len = self.nodes[p].children.len();
        let mut k: usize = 0;
        while self.nodes[p].children[k] != id
            invariant
                len == pre.children_of(p as int).len(),
                *self == pre,
                pre.wf(),
                pre.live(id as int),
                0 < id,
                p == pre.parent_of(id as int),
                pre.children_of(p as int).contains(id),
                k < pre.children_of(p as int).len(),
                forall|j: int| 0 <= j < k ==> pre.children_of(p as int)[j] != id,
            decreases pre.children_of(p as int).len() - k,
        {
            proof {
                let w = choose|w: int|
                    0 <= w < pre.children_of(p as int).len() && pre.children_of(p as int)[w] == id;
                assert(w > k);
            }
            k += 1;
        }
        proof {
            let w = pre.position(id as int);
            assert(0 <= w < pre.children_of(p as int).len() && pre.children_of(p as int)[w] == id);
            assert(pre.children_of(p as int).no_duplicates());
            assert(w == k);
        }
        self.nodes[p].children.remove(k);
        self.nodes[id].live = false;
        let n = self.nodes.len();
        let mut i: usize = id + 1;
        proof {
            assert forall|j: int| 0 <= j < id implies !pre.descends_from(j, id as int) by {
                pre.lemma_smaller_not_below(j, id as int);
            }
            assert(pre.descends_from(id as int, id as int));
        }
        while i < n
            invariant
                pre.wf(),
                0 < id < i <= n,
                n == pre@.len(),
                self@.len() == n,
                p == pre.parent_of(id as int),
                pre.live(id as int),
                0 <= p < id,
                k == pre.position(id as int),
                0 <= k < pre.children_of(p as int).len(),
                self.children_of(p as int) == pre.children_of(p as int).remove(k as int),
                forall|j: int|
                    0 <= j < n ==> {
                        &&& (#[trigger] self@[j]).data == pre@[j].data
                        &&& self@[j].parent == pre@[j].parent
                        &&& (j != p ==> self@[j].children == pre@[j].children)
                    },
                forall|j: int|
                    0 <= j < i ==> (#[trigger] self@[j]).live == (pre@[j].live
                        && !pre.descends_from(j, id as int)),
                forall|j: int| i <= j < n ==> (#[trigger] self@[j]).live == pre@[j].live,
            decreases n - i,
        {
            let ghost before = *self;
            if self.nodes[i].live {
                let q = self.nodes[i].parent;
                assert(pre.live(i as int));
                if !self.nodes[q].live {
                    self.nodes[i].live = false;
                    assert(self@[p as int] == before@[p as int]);
                }
            }
            i += 1;
        }
        proof {
            self.lemma_removed_wf(&pre, id);
        }
        Ok(())
    }

    proof fn lemma_removed_wf(&self, pre: &Self, id: usize)
        requires
            pre.wf(),
            pre.live(id as int),
            id != 0,
            Self::removed(pre, self, id as int),
        ensures
            self.wf(),
    {
        let p = pre.parent_of(id as int);
        let k = pre.position(id as int);
        let ch = pre.children_of(p);
        assert(ch.contains(id));
        assert(0 <= k < ch.len() && ch[k] == id);
        assert(ch.no_duplicates());
        ch.remove_ensures(k);
        assert(self@[0].live) by {
            assert(!pre.descends_from(0, id as int));
        }
        assert forall|i: int| 0 < i && #[trigger] self.live(i) implies {
            &&& 0 <= self.parent_of(i) < i
            &&& self.live(self.parent_of(i))
            &&& self.children_of(self.parent_of(i)).contains(i as usize)
        } by {
            assert(pre.live(i));
            let q = pre.parent_of(i);
            assert(!pre.descends_from(i, id as int));
            assert(self@[q].live);
            assert(pre.children_of(q).contains(i as usize));
            let w = choose|w: int| 0 <= w < pre.children_of(q).len() && pre.children_of(q)[w] == i as usize;
            if q == p {
                assert(w != k);
                if w < k {
                    assert(self.children_of(q)[w] == i);
                } else {
                    assert(self.children_of(q)[w - 1] == i);
                }
            } else {
                assert(self@[q].children == pre@[q].children);
                assert(self.children_of(q)[w] == i);
            }
        }
        assert forall|q: int, m: int|
            self.live(q) && 0 <= m < self.children_of(q).len() implies {
            &&& 0 < #[trigger] self.children_of(q)[m]
            &&& self.live(self.children_of(q)[m] as int)
            &&& self.parent_of(self.children_of(q)[m] as int) == q
        } by {
            assert(pre.live(q));
            assert(!pre.descends_from(q, id as int));
            let c = self.children_of(q)[m] as int;
            if q == p {
                if m < k {
                    assert(c == ch[m]);
                } else {
                    assert(c == ch[m + 1]);
                }
                assert(c != id);
            } else {
                assert(self@[q].children == pre@[q].children);
                assert(c == pre.children_of(q)[m]);
            }
            assert(pre.live(c));
            assert(pre.parent_of(c) == q);
            assert(!pre.descends_from(c, id as int));
        }
        assert forall|q: int| #[trigger] self.live(q) implies self.children_of(q).no_duplicates() by {
            assert(pre.live(q));
            if q == p {
                assert forall|a: int, b: int|
                    0 <= a < b < self.children_of(q).len() implies self.children_of(q)[a]
                    != self.children_of(q)[b] by {
                    let a2 = if a < k { a } else { a + 1 };
                    let b2 = if b < k { b } else { b + 1 };
                    assert(self.children_of(q)[a] == ch[a2]);
                    assert(self.children_of(q)[b] == ch[b2]);
                }
            } else {
                assert(self@[q].children == pre@[q].children);
            }
        }
    }

    /// `post` differs from `pre` at most in the data of node `id`.
    pub open spec fn only_data_changed(pre: &Self, post: &Self, id: int) -> bool {
        &&& post@.len() == pre@.len()
        &&& post@[id].parent == pre@[id].parent
        &&& post@[id].children == pre@[id].children
        &&& post@[id].live == pre@[id].live
        &&& post@[id].data.kind == pre@[id].data.kind
        &&& forall|j: int| 0 <= j < pre@.len() && j != id ==> #[trigger] post@[j] == pre@[j]
    }

    /// The siblings of `id`: the other children of its parent, in order; none for
    /// the root.
    pub fn siblings(&self, id: usize) -> (r: Result<Vec<usize>, DomError>)
        requires
            self.wf(),
        ensures
            !self.live(id as int) ==> r == Err::<Vec<usize>, DomError>(DomError::NotFound),
            self.live(id as int) ==> r is Ok && r->Ok_0@ == self.siblings_of(id as int),
    {
        if !self.is_live(id) {
            return Err(DomError::NotFound);
        }
        let mut out: Vec<usize> = Vec::new();
        if id == 0 {
            assert(out@ == self.siblings_of(0));
            return Ok(out);
        }
        let p = self.nodes[id].parent;
        let ghost ch = self.children_of(p as int);
        let ghost k = self.position(id as int);
        proof {
            assert(ch.contains(id));
            assert(0 <= k < ch.len() && ch[k] == id);
            assert(ch.no_duplicates());
        }
        let n = self.nodes[p].children.len();
        let mut i: usize = 0;
        while i < n
            invariant
                self.wf(),
                p < self@.len(),
                ch == self.children_of(p as int),
                n == ch.len(),
                0 <= k < n,
                ch[k] == id,
                ch.no_duplicates(),
                i <= n,
                i <= k ==> out@ == ch.subrange(0, i as int),
                i > k ==> out@ == ch.subrange(0, k) + ch.subrange(k + 1, i as int),
            decreases n - i,
        {
            let c = self.nodes[p].children[i];
            if c != id {
                out.push(c);
            }
            proof {
                if i < k {
                    assert(out@ =~= ch.subrange(0, i + 1));
                } else if i == k {
                    assert(out@ =~= ch.subrange(0, k) + ch.subrange(k + 1, i + 1));
                } else {
                    assert(c != id);
                    assert(out@ =~= ch.subrange(0, k) + ch.subrange(k + 1, i + 1));
                }
            }
            i += 1;
        }
        Ok(out)
    }

    /// The child at place `k` of `p` is what `ident` picks there.
    pub open spec fn matches_at<I: ElementIdentifier>(&self, p: int, ident: &I, k: int) -> bool {
        ident.spec_matches(k as usize, &self@[self.children_of(p)[k] as int])
    }

    /// Place `k` of `p`'s children is the first that `ident` picks.
    pub open spec fn first_match<I: ElementIdentifier>(&self, p: int, ident: &I, k: int) -> bool {
        &&& 0 <= k < self.children_of(p).len()
        &&& self.matches_at(p, ident, k)
        &&& forall|j: int| 0 <= j < k ==> !#[trigger] self.matches_at(p, ident, j)
    }

    /// Scans the children of `parent` in order and removes the first that
    /// `ident` picks, with its subtree; when none is picked nothing changes.
    pub fn remove_child<I: ElementIdentifier>(&mut self, parent: usize, ident: &I) -> (r: Result<
        (),
        DomError,
    >)
        requires
            old(self).wf(),
        ensures
            final(self).wf(),
            !old(self).live(parent as int) ==> r == Err::<(), DomError>(DomError::NotFound)
                && final(self)@ == old(self)@,
            old(self).live(parent as int) ==> r is Ok,
            old(self).live(parent as int) && (forall|k: int|
                0 <= k < old(self).children_of(parent as int).len() ==> !#[trigger] old(
                    self,
                ).matches_at(parent as int, ident, k)) ==> final(self)@ == old(self)@,
            forall|k: int|
                old(self).live(parent as int) && #[trigger] old(self).first_match(
                    parent as int,
                    ident,
                    k,
                ) ==> Self::removed(
                    old(self),
                    final(self),
                    old(self).children_of(parent as int)[k] as int,
                ),
    {
        if !self.is_live(parent) {
            return Err(DomError::NotFound);
        }
        let found = self.find_first(parent, ident);
        match found {
            Some(i) => {
                let c = self.nodes[parent].children[i];
                proof {
                    self.lemma_first_match(parent as int, ident, i as int);
                }
                let r = self.remove(c);
                Ok(())
            },
            None => Ok(()),
        }
    }

    /// The first place among `parent`'s children that `ident` picks.
    fn find_first<I: ElementIdentifier>(&self, parent: usize, ident: &I) -> (r: Option<usize>)
        requires
            self.wf(),
            self.live(parent as int),
        ensures
            r matches Some(k) ==> 0 <= k < self.children_of(parent as int).len()
                && self.matches_at(parent as int, ident, k as int),
            forall|j: int|
                0 <= j < self.children_of(parent as int).len() && (r matches Some(k) ==> j < k)
                    ==> !#[trigger] self.matches_at(parent as int, ident, j),
    {
        let n = self.nodes[parent].children.len();
        let mut i: usize = 0;
        while i < n
            invariant
                self.wf(),
                self.live(parent as int),
                n == self.children_of(parent as int).len(),
                i <= n,
                forall|j: int| 0 <= j < i ==> !#[trigger] self.matches_at(parent as int, ident, j),
            decreases n - i,
        {
            let c = self.nodes[parent].children[i];
            assert(self.live(c as int));
            if ident.matches(i, &self.nodes[c]) {
                return Some(i);
            }
            i += 1;
        }
        None
    }

    proof fn lemma_first_match<I: ElementIdentifier>(&self, parent: int, ident: &I, i: int)
        requires
            self.wf(),
            self.live(parent),
            0 <= i < self.children_of(parent).len(),
            self.matches_at(parent, ident, i),
            forall|j: int| 0 <= j < i ==> !#[trigger] self.matches_at(parent, ident, j),
        ensures
            self.first_match(parent, ident, i),
            forall|k: int| #[trigger] self.first_match(parent, ident, k) ==> k == i,
            self.children_of(parent)[i] != 0,
            self.live(self.children_of(parent)[i] as int),
            self.position(self.children_of(parent)[i] as int) == i,
    {
        let ch = self.children_of(parent);
        let c = ch[i];
        assert(self.live(c as int));
        assert(self.parent_of(c as int) == parent);
        assert(ch.contains(c));
        let w = self.position(c as int);
        assert(0 <= w < ch.len() && ch[w] == c);
        assert(ch.no_duplicates());
        assert forall|k: int| #[trigger] self.first_match(parent, ident, k) implies k == i by {
            if k > i {
                assert(!self.matches_at(parent, ident, i));
            }
        }
    }

    /// Appends `c` to the characters of node `id`.
    pub fn append_text(&mut self, id: usize, c: char) -> (r: Result<(), DomError>)
        requires
            old(self).wf(),
        ensures
            final(self).wf(),
            !old(self).live(id as int) ==> r == Err::<(), DomError>(DomError::NotFound)
                && final(self)@ == old(self)@,
            old(self).live(id as int) ==> r is Ok && Self::only_data_changed(
                old(self),
                final(self),
                id as int,
            ) && final(self)@[id as int].data.data@ == old(self)@[id as int].data.data@.push(c)
                && final(self)@[id as int].data.name == old(self)@[id as int].data.name
                && final(self)@[id as int].data.classes == old(self)@[id as int].data.classes
                && final(self)@[id as int].data.id == old(self)@[id as int].data.id
                && final(self)@[id as int].data.attributes == old(self)@[id as int].data.attributes,
    {
        if !self.is_live(id) {
            return Err(DomError::NotFound);
        }
        let ghost pre = *self;
        self.nodes[id].data.data.push(c);
        proof {
            self.lemma_data_change_wf(&pre, id as int);
        }
        Ok(())
    }

    /// Adds a class token to the ordered set of classes of node `id`: a token
    /// already there leaves the node as it is, a new one goes at the end.
    pub fn add_class(&mut self, id: usize, class: HtmlClass) -> (r: Result<(), DomError>)
        requires
            old(self).wf(),
        ensures
            final(self).wf(),
            !old(self).live(id as int) ==> r == Err::<(), DomError>(DomError::NotFound)
                && final(self)@ == old(self)@,
            old(self).live(id as int) ==> r is Ok,
            old(self).live(id as int) && class_view(old(self)@[id as int].data.classes@).contains(
                class.0@,
            ) ==> final(self)@ == old(self)@,
            old(self).live(id as int) && !class_view(old(self)@[id as int].data.classes@).contains(
                class.0@,
            ) ==> Self::only_data_changed(old(self), final(self), id as int)
                && final(self)@[id as int].data.classes@ == old(self)@[id as int].data.classes@.push(
                class,
            )
                && final(self)@[id as int].data.name == old(self)@[id as int].data.name
                && final(self)@[id as int].data.data == old(self)@[id as int].data.data
                && final(self)@[id as int].data.id == old(self)@[id as int].data.id
                && final(self)@[id as int].data.attributes == old(self)@[id as int].data.attributes,
    {
        if !self.is_live(id) {
            return Err(DomError::NotFound);
        }
        if has_class(&self.nodes[id].data.classes, &class.0) {
            return Ok(());
        }
        let ghost pre = *self;
        self.nodes[id].data.classes.push(class);
        proof {
            let before = class_view(pre@[id as int].data.classes@);
            assert(pre.live(id as int));
            lemma_with_class_no_duplicates(before, self@[id as int].data.classes@.last().0@);
            assert(class_view(self@[id as int].data.classes@) =~= with_class(
                before,
                self@[id as int].data.classes@.last().0@,
            ));
            self.lemma_data_change_wf(&pre, id as int);
        }
        Ok(())
    }

    /// Sets the id attribute of node `id`.
    pub fn set_id_attr(&mut self, id: usize, value: Vec<char>) -> (r: Result<(), DomError>)
        requires
            old(self).wf(),
        ensures
            final(self).wf(),
            !old(self).live(id as int) ==> r == Err::<(), DomError>(DomError::NotFound)
                && final(self)@ == old(self)@,
            old(self).live(id as int) ==> r is Ok && Self::only_data_changed(
                old(self),
                final(self),
                id as int,
            ) && final(self)@[id as int].data.id@ == value@,
    {
        if !self.is_live(id) {
            return Err(DomError::NotFound);
        }
        let ghost pre = *self;
        self.nodes[id].data.id = value;
        proof {
            self.lemma_data_change_wf(&pre, id as int);
        }
        Ok(())
    }

    proof fn lemma_data_change_wf(&self, pre: &Self, id: int)
        requires
            pre.wf(),
            pre.live(id),
            Self::only_data_changed(pre, self, id),
            class_view(self@[id].data.classes@).no_duplicates(),
        ensures
            self.wf(),
    {
        assert forall|j: int| #[trigger] self.live(j) implies class_view(
            self@[j].data.classes@,
        ).no_duplicates() by {
            if j != id {
                assert(self@[j] == pre@[j]);
                assert(pre.live(j));
            }
        }
        assert forall|j: int| #[trigger] self.live(j) == pre.live(j) by {
            if 0 <= j < self@.len() && j != id {
                assert(self@[j] == pre@[j]);
            }
        }
        assert forall|j: int| 0 <= j < self@.len() implies #[trigger] self.parent_of(j)
            == pre.parent_of(j) by {
            if j != id {
                assert(self@[j] == pre@[j]);
            }
        }
        assert forall|j: int| 0 <= j < self@.len() implies #[trigger] self.children_of(j)
            == pre.children_of(j) by {
            if j != id {
                assert(self@[j] == pre@[j]);
            }
        }
        assert(self@[0].data.kind == pre@[0].data.kind) by {
            if id != 0 {
                assert(self@[0] == pre@[0]);
            }
        }
    }

    /// The class tokens of `id`.
    pub fn classes(&self, id: usize) -> (r: Result<&Vec<HtmlClass>, DomError>)
        ensures
            self.live(id as int) ==> r is Ok && r->Ok_0 == &self@[id as int].data.classes,
            !self.live(id as int) ==> r is Err && r->Err_0 == DomError::NotFound,
    {
        if self.is_live(id) {
            Ok(&self.nodes[id].data.classes)
        } else {
            Err(DomError::NotFound)
        }
    }

    /// The tag name of `id`; empty for nodes other than elements.
    pub fn name(&self, id: usize) -> (r: Result<&Vec<char>, DomError>)
        ensures
            self.live(id as int) ==> r is Ok && r->Ok_0 == &self@[id as int].data.name,
            !self.live(id as int) ==> r is Err && r->Err_0 == DomError::NotFound,
    {
        if self.is_live(id) {
            Ok(&self.nodes[id].data.name)
        } else {
            Err(DomError::NotFound)
        }
    }

    /// The id attribute of `id`; empty when it has none.
    pub fn id_attr(&self, id: usize) -> (r: Result<&Vec<char>, DomError>)
        ensures
            self.live(id as int) ==> r is Ok && r->Ok_0 == &self@[id as int].data.id,
            !self.live(id as int) ==> r is Err && r->Err_0 == DomError::NotFound,
    {
        if self.is_live(id) {
            Ok(&self.nodes[id].data.id)
        } else {
            Err(DomError::NotFound)
        }
    }

    /// Adding a node keeps every live node live.
    pub proof fn lemma_added_keeps_live(pre: &Self, post: &Self, parent: int, data: NodeData)
        requires
            Self::added(pre, post, parent, data),
        ensures
            forall|j: int| #[trigger] pre.live(j) ==> post.live(j),
    {
        assert forall|j: int| #[trigger] pre.live(j) implies post.live(j) by {
            if j != parent {
                assert(post@[j] == pre@[j]);
            }
        }
    }

    /// Every live node other than the root stands in its parent's child list
    /// exactly once: at `position(x)` and nowhere else.
    pub proof fn lemma_listed_once(&self, x: int)
        requires
            self.wf(),
            self.live(x),
            x != 0,
        ensures
            0 <= self.position(x) < self.children_of(self.parent_of(x)).len(),
            self.children_of(self.parent_of(x))[self.position(x)] == x,
            forall|k: int|
                0 <= k < self.children_of(self.parent_of(x)).len() && #[trigger] self.children_of(
                    self.parent_of(x),
                )[k] == x ==> k == self.position(x),
    {
        let ch = self.children_of(self.parent_of(x));
        assert(ch.contains(x as usize));
        assert(ch.no_duplicates());
    }

    /// The root is live, is its own parent and has no siblings.
    pub proof fn lemma_root_boundary(&self)
        requires
            self.wf(),
        ensures
            self.live(0),
            self.parent_of(0) == 0,
            self.siblings_of(0) == Seq::<usize>::empty(),
    {
    }

    /// Removing any node other than the root leaves the root live.
    pub proof fn lemma_root_survives_removal(pre: &Self, post: &Self, id: int)
        requires
            pre.wf(),
            id > 0,
            Self::removed(pre, post, id),
        ensures
            post.live(0),
            post@[0].parent == 0,
    {
        pre.lemma_smaller_not_below(0, id);
        assert(post@[0].live == (pre@[0].live && !pre.descends_from(0, id)));
    }

    /// Depth-first serialization of the subtree of `id`: the node, then the
    /// subtrees of its children in order.
    pub open spec fn preorder(&self, id: int) -> Seq<usize>
        decreases self@.len() - id, self.children_of(id).len() + 1,
    {
        seq![id as usize] + self.preorder_from(id, 0)
    }

    /// The serialized subtrees of the children of `id` from place `k` on.
    pub open spec fn preorder_from(&self, id: int, k: int) -> Seq<usize>
        decreases self@.len() - id, self.children_of(id).len() - k,
    {
        if 0 <= k < self.children_of(id).len() && id < self.children_of(id)[k] as int
            <= self@.len() {
            self.preorder(self.children_of(id)[k] as int) + self.preorder_from(id, k + 1)
        } else {
            Seq::empty()
        }
    }

    fn preorder_into(&self, id: usize, out: &mut Vec<usize>)
        requires
            self.wf(),
            self.live(id as int),
        ensures
            final(out)@ == old(out)@ + self.preorder(id as int),
        decreases self@.len() - id,
    {
        let ghost start = old(out)@;
        out.push(id);
        let n = self.nodes[id].children.len();
        let mut k: usize = 0;
        proof {
            assert(self.preorder(id as int) == seq![id] + self.preorder_from(id as int, 0));
        }
        while k < n
            invariant
                self.wf(),
                self.live(id as int),
                n == self.children_of(id as int).len(),
                k <= n,
                out@ + self.preorder_from(id as int, k as int) == start + self.preorder(
                    id as int,
                ),
            decreases n - k,
        {
            let c = self.nodes[id].children[k];
            assert(self.live(c as int));
            assert(self.parent_of(c as int) == id);
            let ghost before = out@;
            self.preorder_into(c, out);
            proof {
                assert(self.preorder_from(id as int, k as int) == self.preorder(c as int)
                    + self.preorder_from(id as int, k + 1));
                assert(before + self.preorder_from(id as int, k as int) =~= out@
                    + self.preorder_from(id as int, k + 1));
            }
            k += 1;
        }
        proof {
            assert(self.preorder_from(id as int, n as int) == Seq::<usize>::empty());
            assert(out@ =~= out@ + self.preorder_from(id as int, n as int));
        }
    }

    /// The depth-first serialization of the subtree of `id`.
    pub fn preorder_ids(&self, id: usize) -> (r: Result<Vec<usize>, DomError>)
        requires
            self.wf(),
        ensures
            self.live(id as int) ==> r is Ok && r->Ok_0@ == self.preorder(id as int),
            !self.live(id as int) ==> r == Err::<Vec<usize>, DomError>(DomError::NotFound),
    {
        if !self.is_live(id) {
            return Err(DomError::NotFound);
        }
        let mut out: Vec<usize> = Vec::new();
        self.preorder_into(id, &mut out);
        assert(out@ =~= Seq::<usize>::empty() + self.preorder(id as int));
        Ok(out)
    }

    proof fn lemma_added_later_same(pre: &Self, post: &Self, p: int, data: NodeData, q: int)
        requires
            pre.wf(),
            pre.live(p),
            Self::added(pre, post, p, data),
            p < q,
            pre.live(q),
        ensures
            post.preorder(q) == pre.preorder(q),
        decreases pre@.len() - q, pre.children_of(q).len() + 1,
    {
        Self::lemma_added_later_from(pre, post, p, data, q, 0);
    }

    proof fn lemma_added_later_from(
        pre: &Self,
        post: &Self,
        p: int,
        data: NodeData,
        q: int,
        k: int,
    )
        requires
            pre.wf(),
            pre.live(p),
            Self::added(pre, post, p, data),
            p < q,
            pre.live(q),
            0 <= k,
        ensures
            post.preorder_from(q, k) == pre.preorder_from(q, k),
        decreases pre@.len() - q, pre.children_of(q).len() - k,
    {
        assert(post@[q] == pre@[q]);
        let ch = pre.children_of(q);
        if k < ch.len() {
            let c = ch[k] as int;
            assert(pre.live(c) && pre.parent_of(c) == q);
            Self::lemma_added_later_same(pre, post, p, data, c);
            Self::lemma_added_later_from(pre, post, p, data, q, k + 1);
        }
    }

    proof fn lemma_added_from_parent(pre: &Self, post: &Self, p: int, data: NodeData, k: int)
        requires
            pre.wf(),
            pre.live(p),
            Self::added(pre, post, p, data),
            0 <= k <= pre.children_of(p).len(),
        ensures
            post.preorder_from(p, k) == pre.preorder_from(p, k).push(pre@.len() as usize),
        decreases pre.children_of(p).len() - k,
    {
        let ch = pre.children_of(p);
        let x = pre@.len() as int;
        assert(post.children_of(p)[k] == if k < ch.len() { ch[k] } else { x as usize });
        if k == ch.len() {
            assert(post.children_of(x).len() == 0);
            assert(post.preorder_from(x, 0) == Seq::<usize>::empty());
            assert(post.preorder(x) =~= seq![x as usize]);
            assert(post.preorder_from(p, k + 1) == Seq::<usize>::empty());
            assert(post.preorder_from(p, k) =~= pre.preorder_from(p, k).push(x as usize));
        } else {
            let c = ch[k] as int;
            assert(pre.live(c) && pre.parent_of(c) == p);
            Self::lemma_added_later_same(pre, post, p, data, c);
            Self::lemma_added_from_parent(pre, post, p, data, k + 1);
            assert(post.preorder_from(p, k) =~= pre.preorder_from(p, k).push(x as usize));
        }
    }

    /// Serialization follows insertion: adding a node as the last child of `p`
    /// appends it to the depth-first serialization of `p`'s subtree, and leaves
    /// that of every node created after `p` as it was.
    pub proof fn lemma_add_child_serializes_last(
        pre: &Self,
        post: &Self,
        p: int,
        data: NodeData,
    )
        requires
            pre.wf(),
            pre.live(p),
            Self::added(pre, post, p, data),
        ensures
            post.preorder(p) == pre.preorder(p).push(pre@.len() as usize),
            forall|q: int| p < q && #[trigger] pre.live(q) ==> post.preorder(q) == pre.preorder(q),
    {
        Self::lemma_added_from_parent(pre, post, p, data, 0);
        assert(post.preorder(p) =~= pre.preorder(p).push(pre@.len() as usize));
        assert forall|q: int| p < q && #[trigger] pre.live(q) implies post.preorder(q)
            == pre.preorder(q) by {
            Self::lemma_added_later_same(pre, post, p, data, q);
        }
    }

    /// The children that node `q` gets from a sequence of `add_child` calls on a
    /// fresh document, where call `i` (from 0) created node `i + 1` under
    /// `parents[i]`: the nodes created under `q`, in call order.
    pub open spec fn built_children(parents: Seq<int>, q: int) -> Seq<usize>
        decreases parents.len(),
    {
        if parents.len() == 0 {
            Seq::empty()
        } else if parents.last() == q {
            Self::built_children(parents.drop_last(), q).push(parents.len() as usize)
        } else {
            Self::built_children(parents.drop_last(), q)
        }
    }

    proof fn lemma_built_none_below(parents: Seq<int>, q: int)
        requires
            forall|i: int| 0 <= i < parents.len() ==> #[trigger] parents[i] < q,
        ensures
            Self::built_children(parents, q) == Seq::<usize>::empty(),
        decreases parents.len(),
    {
        if parents.len() > 0 {
            let rest = parents.drop_last();
            assert forall|i: int| 0 <= i < rest.len() implies #[trigger] rest[i] < q by {
                assert(rest[i] == parents[i]);
            }
            assert(parents[parents.len() - 1] < q);
            Self::lemma_built_none_below(rest, q);
        }
    }

    proof fn lemma_built_prefix(docs: Seq<Self>, parents: Seq<int>, datas: Seq<NodeData>, n: int)
        requires
            docs.len() == parents.len() + 1,
            datas.len() == parents.len(),
            docs[0]@.len() == 1,
            docs[0].children_of(0).len() == 0,
            forall|i: int|
                #![trigger parents[i]]
                0 <= i < parents.len() ==> docs[i].live(parents[i]) && Self::added(
                    &docs[i],
                    &docs[i + 1],
                    parents[i],
                    datas[i],
                ),
            0 <= n <= parents.len(),
        ensures
            docs[n]@.len() == n + 1,
            forall|q: int|
                0 <= q < docs[n]@.len() ==> #[trigger] docs[n].children_of(q)
                    == Self::built_children(parents.subrange(0, n), q),
        decreases n,
    {
        if n == 0 {
            assert(docs[0].children_of(0) == Self::built_children(parents.subrange(0, 0), 0));
        } else {
            Self::lemma_built_prefix(docs, parents, datas, n - 1);
            let pre = docs[n - 1];
            let post = docs[n];
            let p = parents[n - 1];
            assert(pre.live(p) && Self::added(&pre, &post, p, datas[n - 1]));
            let ps = parents.subrange(0, n);
            assert(ps.drop_last() =~= parents.subrange(0, n - 1));
            assert(ps.last() == p);
            assert forall|q: int| 0 <= q < post@.len() implies #[trigger] post.children_of(q)
                == Self::built_children(ps, q) by {
                if q == p {
                    assert(pre.children_of(q) == Self::built_children(ps.drop_last(), q));
                    assert(Self::built_children(ps, q) == Self::built_children(ps.drop_last(), q).push(
                        n as usize,
                    ));
                } else if q < n {
                    assert(post@[q] == pre@[q]);
                    assert(pre.children_of(q) == Self::built_children(ps.drop_last(), q));
                    assert(Self::built_children(ps, q) == Self::built_children(ps.drop_last(), q));
                } else {
                    assert(q == n);
                    assert forall|i: int| 0 <= i < ps.drop_last().len() implies #[trigger] ps.drop_last()[i] < q by {
                        assert(docs[i].live(parents[i]));
                        Self::lemma_built_prefix(docs, parents, datas, i);
                    }
                    Self::lemma_built_none_below(ps.drop_last(), q);
                }
            }
        }
    }

    /// Insertion order round trip: in a document built from a fresh one by
    /// `add_child` calls alone, call `i` creating node `i + 1` under a live
    /// `parents[i]`, every node's children are exactly the nodes created under
    /// it, in call order; the depth-first serialization `preorder` is thereby
    /// fixed by the calls.
    pub proof fn lemma_built_by_add_child(
        docs: Seq<Self>,
        parents: Seq<int>,
        datas: Seq<NodeData>,
    )
        requires
            docs.len() == parents.len() + 1,
            datas.len() == parents.len(),
            docs[0]@.len() == 1,
            docs[0].children_of(0).len() == 0,
            forall|i: int|
                #![trigger parents[i]]
                0 <= i < parents.len() ==> docs[i].live(parents[i]) && Self::added(
                    &docs[i],
                    &docs[i + 1],
                    parents[i],
                    datas[i],
                ),
        ensures
            docs.last()@.len() == parents.len() + 1,
            forall|q: int|
                0 <= q < docs.last()@.len() ==> #[trigger] docs.last().children_of(q)
                    == Self::built_children(parents, q),
    {
        Self::lemma_built_prefix(docs, parents, datas, parents.len() as int);
        assert(parents.subrange(0, parents.len() as int) =~= parents);
    }
}

} // verus!
