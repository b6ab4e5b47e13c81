//! The scene graph: instances (the workspace and parts), the `Instance`
//! interface they share, and the store that hands out instance handles.

use vstd::prelude::*;
use crate::graph::{
    descendants, law_add_child_descendants, law_add_fresh_child, traversal_finishes, walk, walk_list,
};

verus! {

broadcast use vstd::string::to_string_from_display_ensures_for_str;

/// A handle to an instance held by a `Scene`: the instance's place in it.
pub type InstanceRef = usize;

/// A handle to a parent instance.
pub type WeakInstanceRef = usize;

/// An 8-bit-per-channel colour with alpha.
#[derive(Clone, Copy, Debug, PartialEq, Eq, Structural)]
pub struct Srgba {
    pub r: u8,
    pub g: u8,
    pub b: u8,
    pub a: u8,
}

impl Srgba {
    /// Opaque red, the colour of a new part.
    pub fn red() -> (c: Srgba)
        ensures
            c == (Srgba { r: 255, g: 0, b: 0, a: 255 }),
    {
        Srgba { r: 255, g: 0, b: 0, a: 255 }
    }
}

/// What every node of the scene graph offers: a name, a list of child
/// handles and an optional parent handle.
pub trait Instance {
    /// The name, as `get_name` reports it.
    spec fn name_view(&self) -> Seq<char>;

    /// The child handles, in order.
    spec fn children_view(&self) -> Seq<InstanceRef>;

    /// The parent handle, if any.
    spec fn parent_view(&self) -> Option<WeakInstanceRef>;

    fn get_name(&self) -> (name: String)
        ensures
            name@ == self.name_view(),
    ;

    fn set_name(&mut self, name: String)
        ensures
            final(self).children_view() == old(self).children_view(),
            final(self).parent_view() == old(self).parent_view(),
    ;

    fn get_children(&self) -> (children: &Vec<InstanceRef>)
        ensures
            children@ == self.children_view(),
    ;

    fn get_children_mut(&mut self) -> (children: &mut Vec<InstanceRef>)
        ensures
            children@ == old(self).children_view(),
            final(self).children_view() == final(children)@,
            final(self).name_view() == old(self).name_view(),
            final(self).parent_view() == old(self).parent_view(),
    ;

    fn get_parent(&self) -> (parent: Option<WeakInstanceRef>)
        ensures
            parent == self.parent_view(),
    ;

    fn set_parent(&mut self, parent: Option<WeakInstanceRef>)
        ensures
            final(self).name_view() == old(self).name_view(),
            final(self).children_view() == old(self).children_view(),
    ;

    fn add_child(&mut self, child: &InstanceRef)
        ensures
            final(self).children_view() == old(self).children_view().push(*child),
            final(self).name_view() == old(self).name_view(),
            final(self).parent_view() == old(self).parent_view(),
    ;

    /// Every instance below this one, in pre-order: each child, followed at
    /// once by everything below that child. The scene resolves the handles.
    /// The traversal finishes exactly where no handle below is dangling and
    /// no cycle is reachable (`law_finishes_iff_acyclic`).
    fn get_descendants(&self, scene: &Scene) -> (result: Vec<InstanceRef>)
        requires
            traversal_finishes(scene.graph(), self.children_view()),
        ensures
            result@ == descendants(scene.graph(), self.children_view()),
    {
        scene.descendants_of(self.get_children())
    }
}

/// A renderable part. Its mesh, position and rotation live with the renderer.
pub struct Part {
    name: String,
    children: Vec<InstanceRef>,
    parent: Option<WeakInstanceRef>,
    pub color: Srgba,
}

impl Part {
    /// A part with the given name, no children, no parent, coloured red.
    pub fn new(name: &str) -> (part: Part)
        ensures
            part.name_view() == name@,
            part.children_view() == Seq::<InstanceRef>::empty(),
            part.parent_view() == None::<WeakInstanceRef>,
            part.color_view() == (Srgba { r: 255, g: 0, b: 0, a: 255 }),
    {
        Part { name: name.to_string(), children: Vec::new(), parent: None, color: Srgba::red() }
    }

    /// The colour the part is drawn in.
    pub closed spec fn color_view(&self) -> Srgba {
        self.color
    }

    /// The colour the part is drawn in.
    pub fn get_color(&self) -> (c: Srgba)
        ensures
            c == self.color_view(),
    {
        self.color
    }

    /// Sets the colour the part is drawn in, and nothing else.
    pub fn set_color(&mut self, c: Srgba)
        ensures
            final(self).color_view() == c,
            final(self).name_view() == old(self).name_view(),
            final(self).children_view() == old(self).children_view(),
            final(self).parent_view() == old(self).parent_view(),
    {
        self.color = c;
    }
}

impl Part {
    /// The child handles.
    pub closed spec fn child_handles(&self) -> Seq<InstanceRef> {
        self.children@
    }
}

impl Instance for Part {
    closed spec fn name_view(&self) -> Seq<char> {
        self.name@
    }

    open spec fn children_view(&self) -> Seq<InstanceRef> {
        self.child_handles()
    }

    closed spec fn parent_view(&self) -> Option<WeakInstanceRef> {
        self.parent
    }

    fn get_name(&self) -> (name: String) {
        self.name.clone()
    }

    fn set_name(&mut self, name: String)
        ensures
            final(self).name_view() == name@,
            final(self).color_view() == old(self).color_view(),
    {
        self.name = name;
    }

    fn get_children(&self) -> (children: &Vec<InstanceRef>) {
        &self.children
    }

    fn get_children_mut(&mut self) -> (children: &mut Vec<InstanceRef>)
        ensures
            final(self).color_view() == old(self).color_view(),
    {
        &mut self.children
    }

    fn get_parent(&self) -> (parent: Option<WeakInstanceRef>) {
        self.parent
    }

    fn set_parent(&mut self, parent: Option<WeakInstanceRef>)
        ensures
            final(self).parent_view() == parent,
            final(self).color_view() == old(self).color_view(),
    {
        self.parent = parent;
    }

    fn add_child(&mut self, child: &InstanceRef)
        ensures
            final(self).color_view() == old(self).color_view(),
    {
        self.children.push(*child);
    }
}

/// The root of the scene. Its name is fixed and it has no parent.
pub struct Workspace {
    children: Vec<InstanceRef>,
}

impl Workspace {
    /// An empty workspace.
    pub fn new() -> (ws: Workspace)
        ensures
            ws.children_view() == Seq::<InstanceRef>::empty(),
    {
        Workspace { children: Vec::new() }
    }
}

impl Workspace {
    /// The child handles.
    pub closed spec fn child_handles(&self) -> Seq<InstanceRef> {
        self.children@
    }
}

impl Instance for Workspace {
    open spec fn name_view(&self) -> Seq<char> {
        "Workspace"@
    }

    open spec fn children_view(&self) -> Seq<InstanceRef> {
        self.child_handles()
    }

    open spec fn parent_view(&self) -> Option<WeakInstanceRef> {
        None
    }

    fn get_name(&self) -> (name: String) {
        "Workspace".to_string()
    }

    fn set_name(&mut self, name: String)
        ensures
            *final(self) == *old(self),
    {
    }

    fn get_children(&self) -> (children: &Vec<InstanceRef>) {
        &self.children
    }

    fn get_children_mut(&mut self) -> (children: &mut Vec<InstanceRef>) {
        &mut self.children
    }

    fn get_parent(&self) -> (parent: Option<WeakInstanceRef>) {
        None
    }

    fn set_parent(&mut self, parent: Option<WeakInstanceRef>)
        ensures
            *final(self) == *old(self),
    {
    }

    fn add_child(&mut self, child: &InstanceRef) {
        self.children.push(*child);
    }
}

/// An instance of either kind, as the scene holds it.
pub enum Node {
    Workspace(Workspace),
    Part(Part),
}

impl Node {
    /// `other` is of the same kind, and, for parts, of the same colour.
    pub open spec fn same_kind_and_color(&self, other: Node) -> bool {
        match (*self, other) {
            (Node::Part(a), Node::Part(b)) => b.color_view() == a.color_view(),
            (Node::Workspace(_), Node::Workspace(_)) => true,
            _ => false,
        }
    }

    /// The child handles of the instance, whatever its kind.
    pub open spec fn child_handles(&self) -> Seq<InstanceRef> {
        match self {
            Node::Workspace(w) => w.child_handles(),
            Node::Part(p) => p.child_handles(),
        }
    }

    /// The part inside, if the instance is a part.
    pub fn as_part(&self) -> (part: Option<&Part>)
        ensures
            match self {
                Node::Part(p) => part == Some(p),
                Node::Workspace(_) => part is None,
            },
    {
        match self {
            Node::Part(p) => Some(p),
            Node::Workspace(_) => None,
        }
    }

    /// The part inside, for changing it in place, if the instance is a part.
    pub fn as_part_mut(&mut self) -> (part: Option<&mut Part>)
        ensures
            match *old(self) {
                Node::Part(p) => part matches Some(q) && *q == p && *final(self) == Node::Part(*final(q)),
                Node::Workspace(_) => part is None && *final(self) == *old(self),
            },
    {
        match self {
            Node::Part(p) => Some(p),
            Node::Workspace(_) => None,
        }
    }

    /// The child handles of the instance, whatever its kind.
    fn child_list(&self) -> (children: &Vec<InstanceRef>)
        ensures
            children@ == self.child_handles(),
    {
        match self {
            Node::Workspace(w) => &w.children,
            Node::Part(p) => &p.children,
        }
    }
}

impl Instance for Node {
    open spec fn name_view(&self) -> Seq<char> {
        match self {
            Node::Workspace(w) => w.name_view(),
            Node::Part(p) => p.name_view(),
        }
    }

    open spec fn children_view(&self) -> Seq<InstanceRef> {
        self.child_handles()
    }

    open spec fn parent_view(&self) -> Option<WeakInstanceRef> {
        match self {
            Node::Workspace(w) => w.parent_view(),
            Node::Part(p) => p.parent_view(),
        }
    }

    fn get_name(&self) -> (name: String)
        ensures
            match self {
                Node::Workspace(w) => name@ == w.name_view() && name@ == "Workspace"@,
                Node::Part(p) => name@ == p.name_view(),
            },
    {
        match self {
            Node::Workspace(w) => w.get_name(),
            Node::Part(p) => p.get_name(),
        }
    }

    fn set_name(&mut self, name: String)
        ensures
            old(self).same_kind_and_color(*final(self)),
            *final(self) is Part ==> final(self).name_view() == name@,
            *final(self) matches Node::Part(p) ==> p.name_view() == name@,
            *old(self) is Workspace ==> *final(self) == *old(self),
    {
        match self {
            Node::Workspace(w) => w.set_name(name),
            Node::Part(p) => p.set_name(name),
        }
    }

    fn get_children(&self) -> (children: &Vec<InstanceRef>)
        ensures
            match self {
                Node::Workspace(w) => children@ == w.children_view(),
                Node::Part(p) => children@ == p.children_view(),
            },
    {
        match self {
            Node::Workspace(w) => w.get_children(),
            Node::Part(p) => p.get_children(),
        }
    }

    fn get_children_mut(&mut self) -> (children: &mut Vec<InstanceRef>)
        ensures
            old(self).same_kind_and_color(*final(self)),
    {
        match self {
            Node::Workspace(w) => w.get_children_mut(),
            Node::Part(p) => p.get_children_mut(),
        }
    }

    fn get_parent(&self) -> (parent: Option<WeakInstanceRef>)
        ensures
            match self {
                Node::Workspace(w) => parent == w.parent_view() && parent is None,
                Node::Part(p) => parent == p.parent_view(),
            },
    {
        match self {
            Node::Workspace(w) => w.get_parent(),
            Node::Part(p) => p.get_parent(),
        }
    }

    fn set_parent(&mut self, parent: Option<WeakInstanceRef>)
        ensures
            old(self).same_kind_and_color(*final(self)),
            *final(self) is Part ==> final(self).parent_view() == parent,
            *final(self) matches Node::Part(p) ==> p.parent_view() == parent,
            *old(self) is Workspace ==> *final(self) == *old(self),
    {
        match self {
            Node::Workspace(w) => w.set_parent(parent),
            Node::Part(p) => p.set_parent(parent),
        }
    }

    fn add_child(&mut self, child: &InstanceRef)
        ensures
            old(self).same_kind_and_color(*final(self)),
    {
        match self {
            Node::Workspace(w) => w.add_child(child),
            Node::Part(p) => p.add_child(child),
        }
    }
}

/// The store of instances. A handle is the place of an instance in it;
/// instances are never removed, so a handle stays valid once handed out.
pub struct Scene {
    nodes: Vec<Node>,
}

impl View for Scene {
    type V = Seq<Node>;

    closed spec fn view(&self) -> Seq<Node> {
        self.nodes@
    }
}

impl Scene {
    /// The child lists of all instances, by handle.
    pub open spec fn graph(&self) -> Seq<Seq<InstanceRef>> {
        Seq::new(self@.len(), |i: int| self@[i].child_handles())
    }

    /// An empty store.
    pub fn new() -> (scene: Scene)
        ensures
            scene@ == Seq::<Node>::empty(),
    {
        Scene { nodes: Vec::new() }
    }

    /// The number of instances held.
    pub fn len(&self) -> (n: usize)
        ensures
            n == self@.len(),
    {
        self.nodes.len()
    }

    /// Takes an instance in and hands out its handle.
    pub fn insert(&mut self, node: Node) -> (r: InstanceRef)
        requires
            old(self)@.len() < usize::MAX,
        ensures
            r == old(self)@.len(),
            final(self)@ == old(self)@.push(node),
    {
        let r = self.nodes.len();
        self.nodes.push(node);
        r
    }

    /// Puts a new part named `name` into the store and makes it the last
    /// child of the instance behind `parent`. Where the traversal below
    /// `parent` finished, it still does, and lists the new part last.
    pub fn add_part_under(&mut self, parent: InstanceRef, name: &str) -> (r: InstanceRef)
        requires
            parent < old(self)@.len(),
            old(self)@.len() < usize::MAX,
        ensures
            r == old(self)@.len(),
            final(self)@.len() == old(self)@.len() + 1,
            final(self)@[r as int] matches Node::Part(p) && {
                &&& p.name_view() == name@
                &&& p.children_view() == Seq::<InstanceRef>::empty()
                &&& p.parent_view() == None::<WeakInstanceRef>
                &&& p.color_view() == (Srgba { r: 255, g: 0, b: 0, a: 255 })
            },
            final(self)@[parent as int].children_view() == old(self)@[parent as int].children_view().push(r),
            final(self)@[parent as int].name_view() == old(self)@[parent as int].name_view(),
            final(self)@[parent as int].parent_view() == old(self)@[parent as int].parent_view(),
            old(self)@[parent as int].same_kind_and_color(final(self)@[parent as int]),
            forall|i: int| 0 <= i < old(self)@.len() && i != parent ==> final(self)@[i] == old(self)@[i],
            final(self).graph() == old(self).graph().push(Seq::<InstanceRef>::empty()).update(
                parent as int,
                old(self).graph()[parent as int].push(r),
            ),
            traversal_finishes(old(self).graph(), old(self)@[parent as int].children_view()) ==> {
                &&& traversal_finishes(final(self).graph(), final(self)@[parent as int].children_view())
                &&& descendants(final(self).graph(), final(self)@[parent as int].children_view())
                    == descendants(old(self).graph(), old(self)@[parent as int].children_view()).push(r)
            },
    {
        let ghost g = self.graph();
        let r = self.insert(Node::Part(Part::new(name)));
        self.borrow_mut(parent).add_child(&r);
        proof {
            assert(self.graph() =~= g.push(Seq::<InstanceRef>::empty()).update(
                parent as int,
                g[parent as int].push(r),
            ));
            if traversal_finishes(g, g[parent as int]) {
                law_add_fresh_child(g, parent);
            }
        }
        r
    }

    /// The instance behind a handle.
    pub fn borrow(&self, r: InstanceRef) -> (node: &Node)
        requires
            r < self@.len(),
        ensures
            *node == self@[r as int],
    {
        &self.nodes[r]
    }

    /// The instance behind a handle, for changing it in place.
    pub fn borrow_mut(&mut self, r: InstanceRef) -> (node: &mut Node)
        requires
            r < old(self)@.len(),
        ensures
            *node == old(self)@[r as int],
            final(self)@ == old(self)@.update(r as int, *final(node)),
    {
        &mut self.nodes[r]
    }

    /// The traversal of `cs` with at most `fuel` levels of nesting.
    fn walk_exec(&self, cs: &Vec<InstanceRef>, fuel: usize) -> (result: Option<Vec<InstanceRef>>)
        ensures
            match result {
                Some(v) => walk_list(self.graph(), cs@, fuel as nat) == Some(v@),
                None => walk_list(self.graph(), cs@, fuel as nat) is None,
            },
        decreases fuel,
    {
        let ghost g = self.graph();
        let mut acc: Vec<InstanceRef> = Vec::new();
        let mut i: usize = 0;
        assert(cs@.take(0) =~= Seq::<InstanceRef>::empty());
        while i < cs.len()
            invariant
                g == self.graph(),
                0 <= i <= cs@.len(),
                walk_list(g, cs@.take(i as int), fuel as nat) == Some(acc@),
            decreases cs@.len() - i,
        {
            let c = cs[i];
            assert(cs@.take(i + 1).drop_last() =~= cs@.take(i as int));
            assert(cs@.take(i + 1).last() == c);
            if fuel == 0 || c >= self.nodes.len() {
                proof {
                    assert(walk(g, c, fuel as nat) is None);
                    let t = cs@.take(i + 1);
                    assert(walk_list(g, t, fuel as nat) is None);
                    crate::graph::lemma_walk_list_prefix_none(g, cs@, i + 1, fuel as nat);
                }
                return None;
            }
            assert(g[c as int] == self.nodes@[c as int].child_handles());
            match self.walk_exec(self.nodes[c].child_list(), fuel - 1) {
                None => {
                    proof {
                        assert(walk(g, c, fuel as nat) is None);
                        let t = cs@.take(i + 1);
                        assert(walk_list(g, t, fuel as nat) is None);
                        crate::graph::lemma_walk_list_prefix_none(g, cs@, i + 1, fuel as nat);
                    }
                    return None;
                },
                Some(sub) => {
                    let ghost sub_view = sub@;
                    let mut sub = sub;
                    acc.push(c);
                    acc.append(&mut sub);
                    proof {
                        let t = cs@.take(i + 1);
                        assert(walk(g, c, fuel as nat) == Some(sub_view));
                        assert(walk_list(g, t, fuel as nat) == Some(acc@));
                    }
                },
            }
            i = i + 1;
        }
        assert(cs@.take(cs@.len() as int) =~= cs@);
        Some(acc)
    }

    /// Everything below the children `cs`, in pre-order.
    pub fn descendants_of(&self, cs: &Vec<InstanceRef>) -> (result: Vec<InstanceRef>)
        requires
            traversal_finishes(self.graph(), cs@),
        ensures
            result@ == descendants(self.graph(), cs@),
    {
        proof {
            crate::graph::lemma_descendants_at_len(self.graph(), cs@);
        }
        match self.walk_exec(cs, self.nodes.len()) {
            Some(v) => v,
            None => {
                assert(false);
                Vec::new()
            },
        }
    }

    /// Everything below the children `cs`, in pre-order, or `None` where the
    /// traversal would not finish (a handle that is not in the scene, or a
    /// cycle below `cs`).
    pub fn try_descendants_of(&self, cs: &Vec<InstanceRef>) -> (result: Option<Vec<InstanceRef>>)
        ensures
            result is Some <==> traversal_finishes(self.graph(), cs@),
            result matches Some(v) ==> v@ == descendants(self.graph(), cs@),
    {
        let r = self.walk_exec(cs, self.nodes.len());
        proof {
            if traversal_finishes(self.graph(), cs@) {
                crate::graph::lemma_descendants_at_len(self.graph(), cs@);
            }
        }
        r
    }
}

/// Adding `c` as the last child of the instance behind `p` (by `add_child`
/// or by a push onto `get_children_mut`), where `p` does not occur in or
/// below `c`, lists below `p` what was listed before, then `c`, then
/// everything below `c`; no other instance changes its children.
pub proof fn law_scene_add_child(before: Scene, after: Scene, p: InstanceRef, c: InstanceRef)
    requires
        p < before@.len(),
        after@ == before@.update(p as int, after@[p as int]),
        after@[p as int].children_view() == before@[p as int].children_view().push(c),
        traversal_finishes(before.graph(), before@[p as int].children_view()),
        traversal_finishes(before.graph(), seq![c]),
        !descendants(before.graph(), seq![c]).contains(p),
    ensures
        after.graph() == before.graph().update(p as int, before.graph()[p as int].push(c)),
        traversal_finishes(after.graph(), after@[p as int].children_view()),
        descendants(after.graph(), after@[p as int].children_view())
            == descendants(before.graph(), before@[p as int].children_view())
            + descendants(before.graph(), seq![c]),
{
    let g = before.graph();
    assert(after.graph() =~= g.update(p as int, g[p as int].push(c)));
    law_add_child_descendants(g, p, c);
}

/// An instance held as a `Node` reports exactly what the workspace or part
/// inside it reports: its name, its children and its parent.
pub proof fn law_node_reports_its_instance(node: Node)
    ensures
        match node {
            Node::Workspace(w) => {
                &&& node.name_view() == w.name_view()
                &&& node.name_view() == "Workspace"@
                &&& node.children_view() == w.children_view()
                &&& node.parent_view() == w.parent_view()
                &&& node.parent_view() is None
            },
            Node::Part(p) => {
                &&& node.name_view() == p.name_view()
                &&& node.children_view() == p.children_view()
                &&& node.parent_view() == p.parent_view()
            },
        },
{
}

/// The colour a part reports is the value of its `color` field: what was
/// last written to the field is what `get_color` returns, and a new part's
/// field holds red. (Private: `Part` has private fields, so no public
/// clause may read one of its fields.)
proof fn law_color_is_the_field(p: Part)
    ensures
        p.color_view() == p.color,
{
}

} // verus!
