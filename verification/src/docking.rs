use vstd::prelude::*;
use crate::pool::{Handle, Pool};
use crate::rect::SplitDirection;

verus! {

/// The axis along which a splitter divides its area.
#[derive(Clone, Copy, Debug, PartialEq, Eq, Structural)]
pub enum Direction {
    Horizontal,
    Vertical,
}

/// The axis of a split: top and bottom splits stack areas vertically
/// (horizontal cut), left and right splits put them side by side.
pub open spec fn direction_of(d: SplitDirection) -> Direction {
    match d {
        SplitDirection::Top | SplitDirection::Bottom => Direction::Horizontal,
        SplitDirection::Left | SplitDirection::Right => Direction::Vertical,
    }
}

impl From<SplitDirection> for Direction {
    fn from(split_direction: SplitDirection) -> (r: Self)
        ensures
            r == Direction::Horizontal <==> (split_direction == SplitDirection::Top || split_direction
                == SplitDirection::Bottom),
            r == Direction::Vertical <==> (split_direction == SplitDirection::Left || split_direction
                == SplitDirection::Right),
    {
        match split_direction {
            SplitDirection::Top | SplitDirection::Bottom => Self::Horizontal,
            SplitDirection::Left | SplitDirection::Right => Self::Vertical,
        }
    }
}

impl vstd::std_specs::convert::FromSpecImpl<SplitDirection> for Direction {
    open spec fn obeys_from_spec() -> bool {
        true
    }

    open spec fn from_spec(v: SplitDirection) -> Direction {
        direction_of(v)
    }
}

/// A split's direction depends only on its axis: the two sides of one axis
/// give the same direction, the two axes give different ones, top and bottom
/// splits stack areas (horizontal cut) and left and right splits put them
/// side by side (vertical cut).
pub proof fn law_split_direction_by_axis(d1: SplitDirection, d2: SplitDirection)
    ensures
        direction_of(d1) == Direction::Horizontal <==> (d1 == SplitDirection::Top || d1
            == SplitDirection::Bottom),
        direction_of(d1) == Direction::Vertical <==> (d1 == SplitDirection::Left || d1
            == SplitDirection::Right),
        (direction_of(d1) == direction_of(d2)) <==> ((d1 == SplitDirection::Top || d1
            == SplitDirection::Bottom) == (d2 == SplitDirection::Top || d2 == SplitDirection::Bottom)),
{
}

/// An inner node of the docking tree: two children side by side or stacked,
/// and the layout data the drawing side keeps for it.
pub struct AreaSplitter<L> {
    pub direction: Direction,
    pub left_child: Handle<Area<L>>,
    pub right_child: Handle<Area<L>>,
    pub layout: L,
}

/// A leaf of the docking tree: the tabs it holds (indices of tab views), the
/// selected one, and the layout data the drawing side keeps for it.
pub struct AreaContainer<L> {
    pub tabviews: Vec<usize>,
    pub selected: Option<usize>,
    pub layout: L,
}

/// A node of the docking tree.
pub enum Area<L> {
    Splitter(AreaSplitter<L>),
    Container(AreaContainer<L>),
}

impl<L> Area<L> {
    pub fn splitter(&self) -> (r: Option<&AreaSplitter<L>>)
        ensures
            r == (match self {
                Area::Splitter(inner) => Some(inner),
                Area::Container(_) => None,
            }),
    {
        match self {
            Area::Splitter(inner) => Some(inner),
            _ => None,
        }
    }

    pub fn splitter_mut(&mut self) -> (r: Option<&mut AreaSplitter<L>>)
        ensures
            match *old(self) {
                Area::Splitter(inner) => r is Some && *r->0 == inner && *final(self) == Area::Splitter(
                    *final(r->0),
                ),
                Area::Container(_) => r is None && *final(self) == *old(self),
            },
    {
        match self {
            Area::Splitter(inner) => Some(inner),
            _ => None,
        }
    }

    pub fn container(&self) -> (r: Option<&AreaContainer<L>>)
        ensures
            r == (match self {
                Area::Container(inner) => Some(inner),
                Area::Splitter(_) => None,
            }),
    {
        match self {
            Area::Container(inner) => Some(inner),
            _ => None,
        }
    }

    pub fn container_mut(&mut self) -> (r: Option<&mut AreaContainer<L>>)
        ensures
            match *old(self) {
                Area::Container(inner) => r is Some && *r->0 == inner && *final(self)
                    == Area::Container(*final(r->0)),
                Area::Splitter(_) => r is None && *final(self) == *old(self),
            },
    {
        match self {
            Area::Container(inner) => Some(inner),
            _ => None,
        }
    }
}

/// `b` is a copy of `a`: the same kind of node with the same children or
/// tabs, and a clone of its layout.
pub open spec fn area_cloned<L: Clone>(a: Area<L>, b: Area<L>) -> bool {
    match (a, b) {
        (Area::Splitter(sa), Area::Splitter(sb)) => sb.direction == sa.direction && sb.left_child
            == sa.left_child && sb.right_child == sa.right_child && cloned(sa.layout, sb.layout),
        (Area::Container(ca), Area::Container(cb)) => cb.tabviews@ == ca.tabviews@ && cb.selected
            == ca.selected && cloned(ca.layout, cb.layout),
        _ => false,
    }
}

/// A copy of a list of tab indices.
fn clone_tabs(v: &Vec<usize>) -> (r: Vec<usize>)
    ensures
        r@ == v@,
{
    let mut r: Vec<usize> = Vec::new();
    let n = v.len();
    let mut i: usize = 0;
    while i < n
        invariant
            n == v@.len(),
            i <= n,
            r@ == v@.subrange(0, i as int),
        decreases n - i,
    {
        r.push(v[i]);
        i = i + 1;
    }
    assert(r@ =~= v@);
    r
}

impl<L: Clone> Clone for Area<L> {
    fn clone(&self) -> (r: Self)
        ensures
            area_cloned(*self, r),
    {
        match self {
            Area::Splitter(sp) => Area::Splitter(
                AreaSplitter {
                    direction: sp.direction,
                    left_child: sp.left_child,
                    right_child: sp.right_child,
                    layout: sp.layout.clone(),
                },
            ),
            Area::Container(c) => Area::Container(
                AreaContainer {
                    tabviews: clone_tabs(&c.tabviews),
                    selected: c.selected,
                    layout: c.layout.clone(),
                },
            ),
        }
    }
}

/// A dockable tab: its title and the container that holds it.
pub struct TabView<L> {
    pub title: String,
    pub area: Handle<Area<L>>,
}

/// A tab dropped on a container.
pub struct DropTabEvent<L> {
    pub i_tabview: usize,
    pub in_container: Handle<Area<L>>,
}

impl<L> Clone for DropTabEvent<L> {
    fn clone(&self) -> (r: Self)
        ensures
            r == *self,
    {
        DropTabEvent { i_tabview: self.i_tabview, in_container: self.in_container }
    }
}

impl<L> Copy for DropTabEvent<L> {

}

/// What the user did to the docking layout during a frame.
pub enum DockingEvent<L> {
    DropTab(DropTabEvent<L>),
    DetachTab(usize),
    Split(SplitDirection, usize, Handle<Area<L>>),
}

impl<L> Clone for DockingEvent<L> {
    fn clone(&self) -> (r: Self)
        ensures
            r == *self,
    {
        match self {
            DockingEvent::DropTab(e) => DockingEvent::DropTab(*e),
            DockingEvent::DetachTab(i) => DockingEvent::DetachTab(*i),
            DockingEvent::Split(d, i, h) => DockingEvent::Split(*d, *i, *h),
        }
    }
}

impl<L> Copy for DockingEvent<L> {

}

/// The docking layout: a tree of areas (splitters and containers of tabs) in a
/// pool, the tab views, the floating containers, the tab being dragged and the
/// events of the frame.
pub struct Docking<L> {
    area_pool: Pool<Area<L>>,
    root: Handle<Area<L>>,
    default_area: Handle<Area<L>>,
    tabviews: Vec<TabView<L>>,
    floating_containers: Vec<Handle<Area<L>>>,
    active_tab: Option<usize>,
    events: Vec<DockingEvent<L>>,
    /// Every splitter outranks its children.
    rank: Ghost<Map<(u32, u32), nat>>,
}

/// Whether `x` is a direct child of the splitter at `h`.
pub open spec fn is_child_of<L>(areas: Map<(u32, u32), Area<L>>, x: (u32, u32), h: (u32, u32)) -> bool {
    areas.contains_key(h) && match areas[h] {
        Area::Splitter(sp) => sp.left_child@ == x || sp.right_child@ == x,
        Area::Container(_) => false,
    }
}

/// Whether the area at `h` is a container.
pub open spec fn is_container<L>(areas: Map<(u32, u32), Area<L>>, h: (u32, u32)) -> bool {
    areas.contains_key(h) && areas[h] is Container
}

/// The tabs of the container at `h`.
pub open spec fn tabs_of<L>(areas: Map<(u32, u32), Area<L>>, h: (u32, u32)) -> Seq<usize> {
    match areas[h] {
        Area::Container(c) => c.tabviews@,
        Area::Splitter(_) => Seq::empty(),
    }
}

/// The first position of `x` in `v`.
fn position_of(v: &Vec<usize>, x: usize) -> (r: Option<usize>)
    ensures
        match r {
            Some(p) => p < v@.len() && v@[p as int] == x && forall|j: int| 0 <= j < p ==> v@[j] != x,
            None => !v@.contains(x),
        },
{
    let n = v.len();
    let mut p: usize = 0;
    while p < n
        invariant
            n == v@.len(),
            p <= n,
            forall|j: int| 0 <= j < p ==> v@[j] != x,
        decreases n - p,
    {
        if v[p] == x {
            return Some(p);
        }
        p = p + 1;
    }
    None
}

/// `b` is the container `a` with its tab list replaced by `tabs`.
pub open spec fn container_with_tabs<L>(a: Area<L>, b: Area<L>, tabs: Seq<usize>) -> bool {
    match (a, b) {
        (Area::Container(ca), Area::Container(cb)) => cb.tabviews@ == tabs && cb.selected
            == ca.selected && cb.layout == ca.layout,
        _ => false,
    }
}

/// The list `tabs` with `x` swapped out: the last element takes its place.
pub open spec fn swap_removed(tabs: Seq<usize>, x: usize) -> Seq<usize> {
    let p = tabs.index_of(x);
    tabs.update(p, tabs.last()).drop_last()
}

impl<L> Docking<L> {
    /// The areas, by handle.
    pub closed spec fn areas(&self) -> Map<(u32, u32), Area<L>> {
        self.area_pool@
    }

    pub closed spec fn root_handle(&self) -> (u32, u32) {
        self.root@
    }

    pub closed spec fn default_handle(&self) -> (u32, u32) {
        self.default_area@
    }

    /// The tab views: title and container handle.
    pub closed spec fn tabs(&self) -> Seq<(Seq<char>, (u32, u32))> {
        self.tabviews@.map_values(|t: TabView<L>| (t.title@, t.area@))
    }

    pub closed spec fn floating(&self) -> Seq<(u32, u32)> {
        self.floating_containers@.map_values(|h: Handle<Area<L>>| h@)
    }

    pub closed spec fn spec_active_tab(&self) -> Option<usize> {
        self.active_tab
    }

    pub closed spec fn pending_events(&self) -> Seq<DockingEvent<L>> {
        self.events@
    }

    pub closed spec fn area_capacity(&self) -> nat {
        self.area_pool.spec_capacity()
    }

    /// The tree is well formed: splitters point to live areas of lower rank,
    /// each area has at most one parent, every tab view sits in a live
    /// container that lists it once, and every container lists only tab views
    /// that point back to it.
    pub closed spec fn wf(&self) -> bool {
        let areas = self.area_pool@;
        let rank = self.rank@;
        &&& self.area_pool.wf()
        &&& areas.contains_key(self.root@)
        &&& areas.contains_key(self.default_area@)
        &&& forall|h: (u32, u32)| #[trigger] areas.contains_key(h) ==> rank.contains_key(h)
        &&& forall|h: (u32, u32)|
            #[trigger] areas.contains_key(h) && areas[h] is Splitter ==> {
                let sp = areas[h]->Splitter_0;
                &&& areas.contains_key(sp.left_child@)
                &&& areas.contains_key(sp.right_child@)
                &&& rank[sp.left_child@] < rank[h]
                &&& rank[sp.right_child@] < rank[h]
                &&& sp.left_child@ != sp.right_child@
            }
        &&& forall|x: (u32, u32), h1: (u32, u32), h2: (u32, u32)|
            #[trigger] is_child_of(areas, x, h1) && #[trigger] is_child_of(areas, x, h2) ==> h1 == h2
        &&& forall|h: (u32, u32)|
            #[trigger] is_container(areas, h) ==> {
                &&& tabs_of(areas, h).no_duplicates()
                &&& forall|j: int|
                    0 <= j < tabs_of(areas, h).len() ==> {
                        &&& #[trigger] tabs_of(areas, h)[j] < self.tabviews@.len()
                        &&& self.tabviews@[tabs_of(areas, h)[j] as int].area@ == h
                    }
            }
        &&& forall|i: int|
            0 <= i < self.tabviews@.len() ==> {
                &&& is_container(areas, (#[trigger] self.tabviews@[i]).area@)
                &&& tabs_of(areas, self.tabviews@[i].area@).contains(i as usize)
            }
        &&& forall|k: int|
            0 <= k < self.floating_containers@.len() ==> areas.contains_key(
                (#[trigger] self.floating_containers@[k])@,
            )
        &&& forall|i: int, j: int|
            0 <= i < self.tabviews@.len() && 0 <= j < self.tabviews@.len() && i != j
                ==> (#[trigger] self.tabviews@[i]).title@ != (#[trigger] self.tabviews@[j]).title@
    }

    /// A docking layout with a single, empty container as its root.
    pub fn new(root_layout: L) -> (r: Self)
        ensures
            r.wf(),
            r.areas().len() == 1,
            r.areas().contains_key(r.root_handle()),
            r.areas()[r.root_handle()] matches Area::Container(c) && c.tabviews@ == Seq::<
                usize,
            >::empty() && c.selected is None && c.layout == root_layout,
            r.default_handle() == r.root_handle(),
            r.tabs() == Seq::<(Seq<char>, (u32, u32))>::empty(),
            r.floating() == Seq::<(u32, u32)>::empty(),
            r.spec_active_tab() is None,
            r.pending_events() == Seq::<DockingEvent<L>>::empty(),
            r.area_capacity() <= 2,
            forall|name: Seq<char>| #[trigger] r.can_show_tabview_spec(name),
    {
        let mut area_pool: Pool<Area<L>> = Pool::new();
        let ghost tabs: Seq<usize> = Seq::empty();
        let container = AreaContainer { tabviews: Vec::new(), selected: None, layout: root_layout };
        assert(container.tabviews@ == tabs);
        let root = area_pool.add(Area::Container(container));
        let r = Docking {
            area_pool,
            root,
            default_area: root,
            tabviews: Vec::new(),
            floating_containers: Vec::new(),
            active_tab: None,
            events: Vec::new(),
            rank: Ghost(Map::new(|h: (u32, u32)| true, |h: (u32, u32)| 0nat)),
        };
        proof {
            assert(r.areas() =~= Map::<(u32, u32), Area<L>>::empty().insert(root@, r.areas()[root@]));
            assert(r.areas().dom() =~= set![root@]);
            assert(r.tabs() =~= Seq::<(Seq<char>, (u32, u32))>::empty());
            assert(r.floating() =~= Seq::<(u32, u32)>::empty());
            assert(tabs_of(r.areas(), root@) =~= Seq::<usize>::empty());
        }
        r
    }
}

impl<L> Docking<L> {
    /// Appends tab view `i_tabview` to the container at `area_handle` and
    /// records that container as the tab view's area.
    fn insert_tabview(&mut self, i_tabview: usize, area_handle: Handle<Area<L>>)
        requires
            old(self).area_pool.wf(),
            is_container(old(self).areas(), area_handle@),
            i_tabview < old(self).tabviews@.len(),
        ensures
            final(self).area_pool.wf(),
            final(self).areas().dom() == old(self).areas().dom(),
            forall|k: (u32, u32)|
                k != area_handle@ && #[trigger] old(self).areas().contains_key(k) ==> final(self).areas()[k]
                    == old(self).areas()[k],
            container_with_tabs(
                old(self).areas()[area_handle@],
                final(self).areas()[area_handle@],
                tabs_of(old(self).areas(), area_handle@).push(i_tabview),
            ),
            final(self).tabviews@.len() == old(self).tabviews@.len(),
            forall|j: int|
                0 <= j < old(self).tabviews@.len() && j != i_tabview ==> #[trigger] final(self).tabviews@[j]
                    == old(self).tabviews@[j],
            final(self).tabviews@[i_tabview as int].title == old(self).tabviews@[i_tabview as int].title,
            final(self).tabviews@[i_tabview as int].area@ == area_handle@,
            final(self).root == old(self).root,
            final(self).default_area == old(self).default_area,
            final(self).floating_containers == old(self).floating_containers,
            final(self).active_tab == old(self).active_tab,
            final(self).events == old(self).events,
            final(self).rank == old(self).rank,
            final(self).area_pool.spec_capacity() == old(self).area_pool.spec_capacity(),
    {
        let area = self.area_pool.get_mut(area_handle);
        let container = area.container_mut().unwrap();
        container.tabviews.push(i_tabview);
        let tabview = &mut self.tabviews[i_tabview];
        tabview.area = area_handle;
    }

    /// Takes tab view `i_tabview` out of the container at `area_handle` (the
    /// last tab takes its place) and leaves the tab view without an area.
    fn remove_tabview(&mut self, i_tabview: usize, area_handle: Handle<Area<L>>)
        requires
            old(self).area_pool.wf(),
            is_container(old(self).areas(), area_handle@),
            tabs_of(old(self).areas(), area_handle@).contains(i_tabview),
            tabs_of(old(self).areas(), area_handle@).no_duplicates(),
            i_tabview < old(self).tabviews@.len(),
        ensures
            final(self).area_pool.wf(),
            final(self).areas().dom() == old(self).areas().dom(),
            forall|k: (u32, u32)|
                k != area_handle@ && #[trigger] old(self).areas().contains_key(k) ==> final(self).areas()[k]
                    == old(self).areas()[k],
            container_with_tabs(
                old(self).areas()[area_handle@],
                final(self).areas()[area_handle@],
                swap_removed(tabs_of(old(self).areas(), area_handle@), i_tabview),
            ),
            final(self).tabviews@.len() == old(self).tabviews@.len(),
            forall|j: int|
                0 <= j < old(self).tabviews@.len() && j != i_tabview ==> #[trigger] final(self).tabviews@[j]
                    == old(self).tabviews@[j],
            final(self).tabviews@[i_tabview as int].title == old(self).tabviews@[i_tabview as int].title,
            final(self).tabviews@[i_tabview as int].area@ == (u32::MAX, u32::MAX),
            final(self).root == old(self).root,
            final(self).default_area == old(self).default_area,
            final(self).floating_containers == old(self).floating_containers,
            final(self).active_tab == old(self).active_tab,
            final(self).events == old(self).events,
            final(self).rank == old(self).rank,
            final(self).area_pool.spec_capacity() == old(self).area_pool.spec_capacity(),
    {
        let ghost tabs = tabs_of(self.areas(), area_handle@);
        let area = self.area_pool.get_mut(area_handle);
        let container = area.container_mut().unwrap();
        let n = container.tabviews.len();
        proof {
            assert(tabs.len() > 0);
            let p = tabs.index_of(i_tabview);
            assert(tabs[p] == i_tabview);
        }
        if n > 1 {
            let p = position_of(&container.tabviews, i_tabview).unwrap();
            proof {
                let q = tabs.index_of(i_tabview);
                assert(tabs[q] == i_tabview);
                assert(q == p as int);
            }
            container.tabviews.swap_remove(p);
            assert(container.tabviews@ =~= swap_removed(tabs, i_tabview));
        } else if n == 1 {
            proof {
                let q = tabs.index_of(i_tabview);
                assert(tabs[q] == i_tabview);
                assert(q == 0);
                assert(tabs.update(0, tabs.last()).drop_last() =~= Seq::<usize>::empty());
            }
            container.tabviews.pop();
            assert(container.tabviews@ =~= swap_removed(tabs, i_tabview));
        }
        let tabview = &mut self.tabviews[i_tabview];
        tabview.area = Handle::invalid();
    }
}

/// Whether `x` is `node` or below it, following splitters down to children of
/// lower rank.
pub open spec fn in_subtree<L>(
    areas: Map<(u32, u32), Area<L>>,
    rank: Map<(u32, u32), nat>,
    node: (u32, u32),
    x: (u32, u32),
) -> bool
    decreases rank[node],
{
    if node == x {
        true
    } else if areas.contains_key(node) && areas[node] is Splitter {
        let sp = areas[node]->Splitter_0;
        ||| (rank[sp.left_child@] < rank[node] && in_subtree(areas, rank, sp.left_child@, x))
        ||| (rank[sp.right_child@] < rank[node] && in_subtree(areas, rank, sp.right_child@, x))
    } else {
        false
    }
}

/// The position of the tab titled `name`, if there is one.
pub open spec fn tab_named(tabs: Seq<(Seq<char>, (u32, u32))>, name: Seq<char>) -> Option<int> {
    if exists|i: int| 0 <= i < tabs.len() && (#[trigger] tabs[i]).0 == name {
        Some(choose|i: int| 0 <= i < tabs.len() && (#[trigger] tabs[i]).0 == name)
    } else {
        None
    }
}

/// The content of tab `i` is shown when its container selects it.
pub open spec fn tab_shown<L>(areas: Map<(u32, u32), Area<L>>, tabs: Seq<(Seq<char>, (u32, u32))>, i: int) -> bool {
    match areas[tabs[i].1] {
        Area::Container(c) => match c.selected {
            Some(s) => s < c.tabviews@.len() && c.tabviews@[s as int] == i,
            None => false,
        },
        Area::Splitter(_) => false,
    }
}

impl<L> Docking<L> {
    /// The rank of an area: splitters outrank their children.
    pub closed spec fn area_rank(&self, h: (u32, u32)) -> nat {
        self.rank@[h]
    }

    /// Whether `x` is `node` or one of the areas below it.
    pub closed spec fn subtree_contains(&self, node: (u32, u32), x: (u32, u32)) -> bool {
        in_subtree(self.area_pool@, self.rank@, node, x)
    }

    /// The subtree of an area is the area itself and, for a splitter, the
    /// subtrees of its two children.
    pub proof fn lemma_subtree_contains(&self, node: (u32, u32), x: (u32, u32))
        requires
            self.wf(),
            self.areas().contains_key(node),
        ensures
            self.subtree_contains(node, x) <==> (x == node || match self.areas()[node] {
                Area::Splitter(sp) => self.subtree_contains(sp.left_child@, x)
                    || self.subtree_contains(sp.right_child@, x),
                Area::Container(_) => false,
            }),
    {
        assert(self.areas()[node] is Splitter ==> self.rank@[self.areas()[node]->Splitter_0.left_child@]
            < self.rank@[node] && self.rank@[self.areas()[node]->Splitter_0.right_child@] < self.rank@[node]);
    }

    /// The first splitter, in preorder from `node` (the node itself, then its
    /// left subtree, then its right one), that has `child` as a direct child.
    pub closed spec fn first_parent_below(&self, node: (u32, u32), child: (u32, u32)) -> Option<
        (u32, u32),
    >
        decreases self.area_rank(node),
    {
        let areas = self.area_pool@;
        if areas.contains_key(node) && areas[node] is Splitter {
            let sp = areas[node]->Splitter_0;
            if sp.left_child@ == child || sp.right_child@ == child {
                Some(node)
            } else {
                let l = if self.rank@[sp.left_child@] < self.rank@[node] {
                    self.first_parent_below(sp.left_child@, child)
                } else {
                    None
                };
                if l is Some {
                    l
                } else if self.rank@[sp.right_child@] < self.rank@[node] {
                    self.first_parent_below(sp.right_child@, child)
                } else {
                    None
                }
            }
        } else {
            None
        }
    }

    /// One step of the preorder search: a splitter answers for itself when
    /// `child` is one of its children, else its left subtree answers first,
    /// then its right one; a container has no child.
    pub proof fn lemma_first_parent_below(&self, node: (u32, u32), child: (u32, u32))
        requires
            self.wf(),
            self.areas().contains_key(node),
        ensures
            self.first_parent_below(node, child) == match self.areas()[node] {
                Area::Splitter(sp) => if sp.left_child@ == child || sp.right_child@ == child {
                    Some(node)
                } else if self.first_parent_below(sp.left_child@, child) is Some {
                    self.first_parent_below(sp.left_child@, child)
                } else {
                    self.first_parent_below(sp.right_child@, child)
                },
                Area::Container(_) => None,
            },
    {
        assert(self.areas()[node] is Splitter ==> self.rank@[self.areas()[node]->Splitter_0.left_child@]
            < self.rank@[node] && self.rank@[self.areas()[node]->Splitter_0.right_child@] < self.rank@[node]);
    }

    /// The splitter at or below `node` that has `child` as a direct child:
    /// `node` itself first, then its left subtree, then its right one.
    pub fn find_parent(&self, node: Handle<Area<L>>, child: Handle<Area<L>>) -> (r: Option<
        Handle<Area<L>>,
    >)
        requires
            self.wf(),
            self.areas().contains_key(node@),
        ensures
            match r {
                Some(p) => is_child_of(self.areas(), child@, p@) && self.subtree_contains(node@, p@),
                None => forall|p: (u32, u32)|
                    !(#[trigger] is_child_of(self.areas(), child@, p) && self.subtree_contains(
                        node@,
                        p,
                    )),
            },
            self.areas()[node@] is Container ==> r is None,
            is_child_of(self.areas(), child@, node@) ==> (r matches Some(p) && p@ == node@),
            match r {
                Some(p) => self.first_parent_below(node@, child@) == Some(p@),
                None => self.first_parent_below(node@, child@) is None,
            },
        decreases self.area_rank(node@),
    {
        proof {
            self.lemma_first_parent_below(node@, child@);
        }
        let area = self.area_pool.get(node);
        if let Area::Splitter(splitter) = area {
            proof {
                assert(self.areas()[node@] is Splitter);
            }
            if splitter.left_child.same(&child) {
                return Some(node);
            }
            if splitter.right_child.same(&child) {
                return Some(node);
            }
            if let Some(found) = self.find_parent(splitter.left_child, child) {
                return Some(found);
            }
            if let Some(found) = self.find_parent(splitter.right_child, child) {
                return Some(found);
            }
            proof {
                assert forall|p: (u32, u32)|
                    !(#[trigger] is_child_of(self.areas(), child@, p) && self.subtree_contains(
                        node@,
                        p,
                    )) by {
                    if p == node@ {
                    }
                }
            }
        }
        None
    }

    /// Whether `tabview(name)` can run: a new tab needs the default area to
    /// be a container, and the selection of the tab's container must be a
    /// valid position.
    pub closed spec fn can_show_tabview_spec(&self, name: Seq<char>) -> bool {
        let areas = self.areas();
        let h = match tab_named(self.tabs(), name) {
            Some(i) => self.tabs()[i].1,
            None => self.default_handle(),
        };
        &&& is_container(areas, h)
        &&& match areas[h] {
            Area::Container(c) => match c.selected {
                Some(s) => s < tabs_of(areas, h).len() + if tab_named(self.tabs(), name) is Some {
                    0int
                } else {
                    1int
                },
                None => true,
            },
            Area::Splitter(_) => false,
        }
    }

    /// Whether the tab view titled `tab_name` is in a container whose
    /// selection is valid, or, for a new tab, whether the default area is a
    /// container.
    pub fn can_show_tabview(&self, tab_name: &str) -> (r: bool)
        requires
            self.wf(),
        ensures
            r == self.can_show_tabview_spec(tab_name@),
    {
        let name = tab_name.to_owned();
        let found = self.find_tabview(&name);
        let h = match found {
            Some(i) => self.tabviews[i].area,
            None => self.default_area,
        };
        if !self.area_pool.is_live(h) {
            return false;
        }
        match self.area_pool.get(h) {
            Area::Container(c) => match c.selected {
                Some(s) => s < c.tabviews.len() || (found.is_none() && s == c.tabviews.len()),
                None => true,
            },
            Area::Splitter(_) => false,
        }
    }

    /// The position of the tab view titled `name`.
    fn find_tabview(&self, name: &String) -> (r: Option<usize>)
        requires
            self.wf(),
        ensures
            match r {
                Some(p) => tab_named(self.tabs(), name@) == Some(p as int),
                None => tab_named(self.tabs(), name@) is None,
            },
    {
        let n = self.tabviews.len();
        let mut i: usize = 0;
        while i < n
            invariant
                n == self.tabviews@.len(),
                i <= n,
                self.wf(),
                forall|j: int| 0 <= j < i ==> (#[trigger] self.tabviews@[j]).title@ != name@,
            decreases n - i,
        {
            if self.tabviews[i].title == *name {
                proof {
                    assert(self.tabs()[i as int].0 == name@);
                    let c = choose|c: int| 0 <= c < self.tabs().len() && (#[trigger] self.tabs()[c]).0 == name@;
                    assert(self.tabs()[c].0 == self.tabviews@[c].title@);
                    if c != i {
                        assert(self.tabviews@[c].title@ != self.tabviews@[i as int].title@);
                    }
                }
                return Some(i);
            }
            i = i + 1;
        }
        proof {
            if exists|c: int| 0 <= c < self.tabs().len() && (#[trigger] self.tabs()[c]).0 == name@ {
                let c = choose|c: int| 0 <= c < self.tabs().len() && (#[trigger] self.tabs()[c]).0 == name@;
                assert(self.tabs()[c].0 == self.tabviews@[c].title@);
            }
        }
        None
    }

    /// Finds the tab view titled `tab_name`, creating it in the default area
    /// when there is none, and returns the container showing its content when
    /// that container selects it.
    pub fn tabview(&mut self, tab_name: &str) -> (r: Option<Handle<Area<L>>>)
        requires
            old(self).wf(),
            old(self).can_show_tabview_spec(tab_name@),
        ensures
            final(self).wf(),
            match tab_named(old(self).tabs(), tab_name@) {
                Some(i) => {
                    &&& final(self).tabs() == old(self).tabs()
                    &&& final(self).areas() == old(self).areas()
                    &&& (r is Some ==> r->0@ == final(self).tabs()[i].1)
                    &&& (r is Some <==> tab_shown(final(self).areas(), final(self).tabs(), i))
                },
                None => {
                    let n = old(self).tabs().len() as int;
                    let d = old(self).default_handle();
                    &&& final(self).tabs() == old(self).tabs().push((tab_name@, d))
                    &&& final(self).areas().dom() == old(self).areas().dom()
                    &&& forall|k: (u32, u32)|
                        k != d && #[trigger] old(self).areas().contains_key(k) ==> final(self).areas()[k]
                            == old(self).areas()[k]
                    &&& container_with_tabs(
                        old(self).areas()[d],
                        final(self).areas()[d],
                        tabs_of(old(self).areas(), d).push(n as usize),
                    )
                    &&& (r is Some ==> r->0@ == d)
                    &&& (r is Some <==> tab_shown(final(self).areas(), final(self).tabs(), n))
                },
            },
            final(self).root_handle() == old(self).root_handle(),
            final(self).default_handle() == old(self).default_handle(),
            final(self).floating() == old(self).floating(),
            final(self).spec_active_tab() == old(self).spec_active_tab(),
            final(self).pending_events() == old(self).pending_events(),
            final(self).area_capacity() == old(self).area_capacity(),
            final(self).can_show_tabview_spec(tab_name@),
    {
        let ghost start = *self;
        let name = tab_name.to_owned();
        let i_tabview = match self.find_tabview(&name) {
            Some(i) => {
                assert(tab_named(self.tabs(), tab_name@) == Some(i as int));
                i
            },
            None => {
                let ghost before = *self;
                self.tabviews.push(TabView { title: name, area: self.default_area });
                let i_new_tabview = self.tabviews.len() - 1;
                let default_area = self.default_area;
                self.insert_tabview(i_new_tabview, default_area);
                proof {
                    self.lemma_wf_after_new_tab(before);
                    assert(self.tabviews@.last().title@ == tab_name@);
                    assert(self.tabs() == before.tabs().push((tab_name@, before.default_area@)));
                    assert(tab_named(before.tabs(), tab_name@) is None);
                }
                i_new_tabview
            },
        };
        let h = self.tabviews[i_tabview].area;
        let area = self.area_pool.get(h);
        let container = area.container().unwrap();
        let r = match container.selected {
            Some(i_selected) => {
                if container.tabviews[i_selected] == i_tabview {
                    Some(h)
                } else {
                    None
                }
            },
            None => None,
        };
        proof {
            assert(self.tabs()[i_tabview as int].1 == h@);
            assert(self.areas()[h@] == *area);
            assert(r is Some <==> tab_shown(self.areas(), self.tabs(), i_tabview as int));
            assert(self.tabs()[i_tabview as int].0 == tab_name@);
            let c = choose|c: int| 0 <= c < self.tabs().len() && (#[trigger] self.tabs()[c]).0 == tab_name@;
            assert(self.tabs()[c].0 == self.tabviews@[c].title@);
            if c != i_tabview as int {
                assert(self.tabviews@[c].title@ != self.tabviews@[i_tabview as int].title@);
            }
            assert(tab_named(self.tabs(), tab_name@) == Some(i_tabview as int));
            if tab_named(start.tabs(), tab_name@) is None {
                assert(tabs_of(self.areas(), h@) == tabs_of(start.areas(), h@).push(i_tabview));
            }
        }
        r
    }

    /// Moving tab `i` out of its container into `target` (an existing
    /// container, or a new one holding only this tab) keeps the layout well
    /// formed.
    proof fn lemma_wf_after_move(&self, before: Self, i: int, target: (u32, u32), fresh: bool)
        requires
            before.wf(),
            0 <= i < before.tabviews@.len(),
            before.tabviews@.len() <= usize::MAX,
            target != before.tabviews@[i].area@,
            fresh ==> !before.areas().contains_key(target),
            !fresh ==> is_container(before.areas(), target),
            self.area_pool.wf(),
            self.areas().dom() == (if fresh {
                before.areas().dom().insert(target)
            } else {
                before.areas().dom()
            }),
            forall|k: (u32, u32)|
                k != target && k != before.tabviews@[i].area@ && #[trigger] before.areas().contains_key(k)
                    ==> self.areas()[k] == before.areas()[k],
            container_with_tabs(
                before.areas()[before.tabviews@[i].area@],
                self.areas()[before.tabviews@[i].area@],
                swap_removed(tabs_of(before.areas(), before.tabviews@[i].area@), i as usize),
            ),
            self.areas()[target] is Container,
            tabs_of(self.areas(), target) == (if fresh {
                seq![i as usize]
            } else {
                tabs_of(before.areas(), target).push(i as usize)
            }),
            self.tabviews@.len() == before.tabviews@.len(),
            forall|j: int|
                0 <= j < before.tabviews@.len() && j != i ==> #[trigger] self.tabviews@[j]
                    == before.tabviews@[j],
            self.tabviews@[i].title == before.tabviews@[i].title,
            self.tabviews@[i].area@ == target,
            self.root == before.root,
            self.default_area == before.default_area,
            self.floating_containers@ == before.floating_containers@ || (fresh
                && self.floating_containers@ == before.floating_containers@.push(
                self.floating_containers@.last(),
            ) && self.floating_containers@.last()@ == target),
            self.rank@ == (if fresh {
                before.rank@.insert(target, 0)
            } else {
                before.rank@
            }),
        ensures
            self.wf(),
    {
        let areas = self.areas();
        let old_areas = before.areas();
        let prev = before.tabviews@[i].area@;
        let pt = tabs_of(old_areas, prev);
        assert(is_container(old_areas, prev));
        assert(pt.contains(i as usize));
        let p = pt.index_of(i as usize);
        assert(pt[p] == i as usize);
        let nt = swap_removed(pt, i as usize);
        // the entries of the swap-removed list are the old ones but `i`
        assert forall|j: int| 0 <= j < nt.len() implies #[trigger] nt[j] != i as usize && pt.contains(nt[j]) by {
            if j == p {
                assert(nt[j] == pt[pt.len() - 1]);
                assert(pt.len() - 1 != p);
            } else {
                assert(nt[j] == pt[j]);
            }
        }
        assert(nt.no_duplicates()) by {
            assert forall|a: int, b: int| 0 <= a < nt.len() && 0 <= b < nt.len() && a != b implies nt[a] != nt[b] by {
                let oa = if a == p { pt.len() - 1 } else { a };
                let ob = if b == p { pt.len() - 1 } else { b };
                assert(nt[a] == pt[oa]);
                assert(nt[b] == pt[ob]);
            }
        }
        assert forall|x: usize| pt.contains(x) && x != i as usize implies #[trigger] nt.contains(x) by {
            let q = choose|q: int| 0 <= q < pt.len() && pt[q] == x;
            if q == pt.len() - 1 {
                assert(nt[p] == x);
            } else {
                assert(nt[q] == x);
            }
        }
        assert forall|h: (u32, u32)| #[trigger] areas.contains_key(h) && areas[h] is Splitter implies {
            let sp = areas[h]->Splitter_0;
            &&& areas.contains_key(sp.left_child@)
            &&& areas.contains_key(sp.right_child@)
            &&& self.rank@[sp.left_child@] < self.rank@[h]
            &&& self.rank@[sp.right_child@] < self.rank@[h]
            &&& sp.left_child@ != sp.right_child@
        } by {
            assert(h != target && h != prev);
            assert(old_areas.contains_key(h));
            assert(areas[h] == old_areas[h]);
            let sp = areas[h]->Splitter_0;
            if fresh {
                assert(sp.left_child@ != target && sp.right_child@ != target);
            }
        }
        assert forall|x: (u32, u32), h: (u32, u32)| #[trigger] is_child_of(areas, x, h) implies is_child_of(old_areas, x, h) by {
            assert(h != target && h != prev);
            assert(areas[h] == old_areas[h]);
        }
        assert forall|h: (u32, u32)| #[trigger] is_container(areas, h) implies {
            &&& tabs_of(areas, h).no_duplicates()
            &&& forall|j: int|
                0 <= j < tabs_of(areas, h).len() ==> {
                    &&& #[trigger] tabs_of(areas, h)[j] < self.tabviews@.len()
                    &&& self.tabviews@[tabs_of(areas, h)[j] as int].area@ == h
                }
        } by {
            if h == target {
                let t = tabs_of(areas, h);
                if fresh {
                    assert(t.len() == 1);
                } else {
                    let ot = tabs_of(old_areas, target);
                    assert forall|j: int| 0 <= j < ot.len() implies #[trigger] ot[j] != i as usize by {
                        assert(before.tabviews@[ot[j] as int].area@ == target);
                    }
                    assert forall|a: int, b: int| 0 <= a < t.len() && 0 <= b < t.len() && a != b implies t[a] != t[b] by {
                        if a < ot.len() && b < ot.len() {
                        } else if a < ot.len() {
                            assert(ot[a] != i as usize);
                        } else {
                            assert(ot[b] != i as usize);
                        }
                    }
                    assert forall|j: int| 0 <= j < t.len() implies {
                        &&& #[trigger] t[j] < self.tabviews@.len()
                        &&& self.tabviews@[t[j] as int].area@ == h
                    } by {
                        if j < ot.len() {
                            assert(t[j] == ot[j]);
                            assert(ot[j] != i as usize);
                            assert(before.tabviews@[ot[j] as int].area@ == target);
                            assert(self.tabviews@[ot[j] as int] == before.tabviews@[ot[j] as int]);
                        } else {
                            assert(t[j] == i as usize);
                        }
                    }
                }
            } else if h == prev {
                assert(tabs_of(areas, h) == nt);
                assert forall|j: int| 0 <= j < nt.len() implies {
                    &&& #[trigger] nt[j] < self.tabviews@.len()
                    &&& self.tabviews@[nt[j] as int].area@ == h
                } by {
                    assert(pt.contains(nt[j]));
                    let q = choose|q: int| 0 <= q < pt.len() && pt[q] == nt[j];
                    assert(before.tabviews@[pt[q] as int].area@ == prev);
                }
            } else {
                assert(old_areas.contains_key(h));
                assert(areas[h] == old_areas[h]);
                assert(is_container(old_areas, h));
                let t = tabs_of(old_areas, h);
                assert(tabs_of(areas, h) == t);
                assert forall|j: int| 0 <= j < t.len() implies {
                    &&& #[trigger] t[j] < self.tabviews@.len()
                    &&& self.tabviews@[t[j] as int].area@ == h
                } by {
                    assert(before.tabviews@[t[j] as int].area@ == h);
                    assert(t[j] != i as usize);
                    assert(self.tabviews@[t[j] as int] == before.tabviews@[t[j] as int]);
                }
            }
        }
        assert forall|k: int| 0 <= k < self.tabviews@.len() implies {
            &&& is_container(areas, (#[trigger] self.tabviews@[k]).area@)
            &&& tabs_of(areas, self.tabviews@[k].area@).contains(k as usize)
        } by {
            if k == i {
                let t = tabs_of(areas, target);
                if fresh {
                    assert(t[0] == i as usize);
                } else {
                    assert(t[t.len() - 1] == i as usize);
                }
            } else {
                let h = before.tabviews@[k].area@;
                assert(self.tabviews@[k] == before.tabviews@[k]);
                assert(is_container(old_areas, h));
                let ot = tabs_of(old_areas, h);
                assert(ot.contains(k as usize));
                if h == prev {
                    assert(nt.contains(k as usize));
                } else if h == target {
                    let q = choose|q: int| 0 <= q < ot.len() && ot[q] == k as usize;
                    assert(tabs_of(areas, h)[q] == k as usize);
                } else {
                    assert(areas[h] == old_areas[h]);
                }
            }
        }
        assert forall|k: int| 0 <= k < self.floating_containers@.len() implies areas.contains_key(
            (#[trigger] self.floating_containers@[k])@,
        ) by {
            if k < before.floating_containers@.len() {
                assert(self.floating_containers@[k] == before.floating_containers@[k]);
                assert(old_areas.contains_key(before.floating_containers@[k]@));
            }
        }
        assert forall|a: int, b: int|
            0 <= a < self.tabviews@.len() && 0 <= b < self.tabviews@.len() && a != b
                implies (#[trigger] self.tabviews@[a]).title@ != (#[trigger] self.tabviews@[b]).title@ by {
            assert(before.tabviews@[a].title@ != before.tabviews@[b].title@);
        }
        assert(areas.contains_key(before.root@));
        assert(areas.contains_key(before.default_area@));
    }

    proof fn lemma_wf_after_new_tab(&self, before: Self)
        requires
            before.wf(),
            self.area_pool.wf(),
            is_container(before.areas(), before.default_area@),
            tab_named(before.tabs(), self.tabviews@.last().title@) is None,
            self.tabviews@.len() == before.tabviews@.len() + 1,
            self.tabviews@.len() <= usize::MAX,
            forall|j: int| 0 <= j < before.tabviews@.len() ==> #[trigger] self.tabviews@[j] == before.tabviews@[j],
            self.tabviews@.last().area@ == before.default_area@,
            self.areas().dom() == before.areas().dom(),
            forall|k: (u32, u32)|
                k != before.default_area@ && #[trigger] before.areas().contains_key(k) ==> self.areas()[k]
                    == before.areas()[k],
            container_with_tabs(
                before.areas()[before.default_area@],
                self.areas()[before.default_area@],
                tabs_of(before.areas(), before.default_area@).push(before.tabviews@.len() as usize),
            ),
            self.root == before.root,
            self.default_area == before.default_area,
            self.floating_containers == before.floating_containers,
            self.rank == before.rank,
        ensures
            self.wf(),
            self.tabs() == before.tabs().push((self.tabviews@.last().title@, before.default_area@)),
    {
        let areas = self.areas();
        let old_areas = before.areas();
        let d = before.default_area@;
        let n = before.tabviews@.len();
        assert forall|k: (u32, u32)| #[trigger] areas.contains_key(k) implies (areas[k] is Splitter <==> old_areas[k] is Splitter) && (areas[k] is Splitter ==> areas[k] == old_areas[k]) by {
            if k == d {
            }
        }
        assert forall|x: (u32, u32), h: (u32, u32)| #[trigger] is_child_of(areas, x, h) <==> is_child_of(old_areas, x, h) by {
            if areas.contains_key(h) && h != d {
                assert(areas[h] == old_areas[h]);
            }
        }
        assert forall|h: (u32, u32)| #[trigger] is_container(areas, h) implies {
            &&& tabs_of(areas, h).no_duplicates()
            &&& forall|j: int|
                0 <= j < tabs_of(areas, h).len() ==> {
                    &&& #[trigger] tabs_of(areas, h)[j] < self.tabviews@.len()
                    &&& self.tabviews@[tabs_of(areas, h)[j] as int].area@ == h
                }
        } by {
            assert(is_container(old_areas, h));
            if h == d {
                let t = tabs_of(old_areas, d);
                assert(tabs_of(areas, h) == t.push(n as usize));
                assert forall|j: int| 0 <= j < t.len() implies #[trigger] t[j] != n by {
                    assert(t[j] < n);
                }
                assert forall|a: int, b: int| 0 <= a < t.len() + 1 && 0 <= b < t.len() + 1 && a != b implies tabs_of(areas, h)[a] != tabs_of(areas, h)[b] by {
                    if a < t.len() && b < t.len() {
                    } else if a < t.len() {
                        assert(t[a] != n);
                    } else {
                        assert(t[b] != n);
                    }
                }
                assert(n < self.tabviews@.len());
                assert forall|j: int| 0 <= j < tabs_of(areas, h).len() implies {
                    &&& #[trigger] tabs_of(areas, h)[j] < self.tabviews@.len()
                    &&& self.tabviews@[tabs_of(areas, h)[j] as int].area@ == h
                } by {
                    if j < t.len() {
                        assert(tabs_of(areas, h)[j] == t[j]);
                        assert(self.tabviews@[t[j] as int] == before.tabviews@[t[j] as int]);
                    }
                }
            } else {
                assert(areas[h] == old_areas[h]);
                let t = tabs_of(old_areas, h);
                assert forall|j: int| 0 <= j < t.len() implies {
                    &&& #[trigger] t[j] < self.tabviews@.len()
                    &&& self.tabviews@[t[j] as int].area@ == h
                } by {
                    assert(self.tabviews@[t[j] as int] == before.tabviews@[t[j] as int]);
                }
            }
        }
        assert forall|i: int| 0 <= i < self.tabviews@.len() implies {
            &&& is_container(areas, (#[trigger] self.tabviews@[i]).area@)
            &&& tabs_of(areas, self.tabviews@[i].area@).contains(i as usize)
        } by {
            if i < n {
                assert(self.tabviews@[i] == before.tabviews@[i]);
                let h = before.tabviews@[i].area@;
                assert(is_container(old_areas, h));
                if h == d {
                    let t = tabs_of(old_areas, d);
                    let p = choose|p: int| 0 <= p < t.len() && t[p] == i as usize;
                    assert(tabs_of(areas, h)[p] == i as usize);
                } else {
                    assert(areas[h] == old_areas[h]);
                }
            } else {
                let t = tabs_of(old_areas, d);
                assert(tabs_of(areas, d)[t.len() as int] == n);
            }
        }
        assert forall|i: int, j: int|
            0 <= i < self.tabviews@.len() && 0 <= j < self.tabviews@.len() && i != j
                implies (#[trigger] self.tabviews@[i]).title@ != (#[trigger] self.tabviews@[j]).title@ by {
            if i < n && j < n {
                assert(self.tabviews@[i] == before.tabviews@[i]);
                assert(self.tabviews@[j] == before.tabviews@[j]);
            } else if i < n {
                assert(self.tabviews@[i] == before.tabviews@[i]);
                assert(before.tabs()[i].0 == before.tabviews@[i].title@);
            } else {
                assert(self.tabviews@[j] == before.tabviews@[j]);
                assert(before.tabs()[j].0 == before.tabviews@[j].title@);
            }
        }
        assert(self.tabs() =~= before.tabs().push((self.tabviews@.last().title@, d)));
    }
}

/// The splitter that replaces `previous` when `new_area` is docked on its
/// `direction` side and `copy` takes `previous`'s old content.
pub open spec fn split_node<L>(
    area: Area<L>,
    direction: SplitDirection,
    new_area: (u32, u32),
    copy: (u32, u32),
    layout: L,
) -> bool {
    match area {
        Area::Splitter(sp) => {
            &&& sp.direction == direction_of(direction)
            &&& sp.layout == layout
            &&& match direction {
                SplitDirection::Top | SplitDirection::Left => sp.left_child@ == new_area
                    && sp.right_child@ == copy,
                SplitDirection::Bottom | SplitDirection::Right => sp.left_child@ == copy
                    && sp.right_child@ == new_area,
            }
        },
        Area::Container(_) => false,
    }
}

impl<L: Clone> Docking<L> {
    /// Replaces the area at `previous_area_handle` with a splitter whose
    /// children are `new_area_handle` (on the `split_direction` side) and a
    /// copy of the previous area, stored under a new handle; tab views of a
    /// copied container follow it to the new handle. Returns the copy's
    /// handle.
    fn split_area(
        &mut self,
        previous_area_handle: Handle<Area<L>>,
        split_direction: SplitDirection,
        new_area_handle: Handle<Area<L>>,
        splitter_layout: L,
    ) -> (copy: Handle<Area<L>>)
        requires
            old(self).wf(),
            old(self).areas().contains_key(previous_area_handle@),
            is_container(old(self).areas(), new_area_handle@),
            new_area_handle@ != previous_area_handle@,
            forall|h: (u32, u32)| !#[trigger] is_child_of(old(self).areas(), new_area_handle@, h),
            old(self).area_pool.spec_capacity() < 0x8000_0000,
        ensures
            final(self).wf(),
            !old(self).areas().contains_key(copy@),
            final(self).areas().dom() == old(self).areas().dom().insert(copy@),
            area_cloned(old(self).areas()[previous_area_handle@], final(self).areas()[copy@]),
            split_node(
                final(self).areas()[previous_area_handle@],
                split_direction,
                new_area_handle@,
                copy@,
                splitter_layout,
            ),
            forall|k: (u32, u32)|
                k != previous_area_handle@ && #[trigger] old(self).areas().contains_key(k)
                    ==> final(self).areas()[k] == old(self).areas()[k],
            final(self).tabviews@.len() == old(self).tabviews@.len(),
            forall|i: int|
                0 <= i < old(self).tabviews@.len() ==> (#[trigger] final(self).tabviews@[i]).title
                    == old(self).tabviews@[i].title && final(self).tabviews@[i].area@ == if old(
                    self,
                ).tabviews@[i].area@ == previous_area_handle@ {
                    copy@
                } else {
                    old(self).tabviews@[i].area@
                },
            final(self).root == old(self).root,
            final(self).default_area == old(self).default_area,
            final(self).floating_containers == old(self).floating_containers,
            final(self).active_tab == old(self).active_tab,
            final(self).events == old(self).events,
            final(self).area_pool.spec_capacity() <= 2 * old(self).area_pool.spec_capacity() + 2,
    {
        let ghost before = *self;
        let previous_area = self.area_pool.get(previous_area_handle).clone();
        let new_old_area_handle = self.area_pool.add(previous_area);
        let ghost mid = *self;
        if let Area::Container(_) = self.area_pool.get(new_old_area_handle) {
            let n = self.tabviews.len();
            let mut i: usize = 0;
            while i < n
                invariant
                    self.area_pool == mid.area_pool,
                    self.root == mid.root,
                    self.default_area == mid.default_area,
                    self.floating_containers == mid.floating_containers,
                    self.active_tab == mid.active_tab,
                    self.events == mid.events,
                    self.rank == mid.rank,
                    n == self.tabviews@.len() == before.tabviews@.len(),
                    i <= n,
                    forall|j: int|
                        0 <= j < n ==> (#[trigger] self.tabviews@[j]).title == before.tabviews@[j].title
                            && self.tabviews@[j].area@ == if j < i && before.tabviews@[j].area@
                            == previous_area_handle@ {
                            new_old_area_handle@
                        } else {
                            before.tabviews@[j].area@
                        },
                decreases n - i,
            {
                if self.tabviews[i].area.same(&previous_area_handle) {
                    let tabview = &mut self.tabviews[i];
                    tabview.area = new_old_area_handle;
                }
                i = i + 1;
            }
        } else {
            proof {
                assert forall|i: int| 0 <= i < before.tabviews@.len() implies before.tabviews@[i].area@
                    != previous_area_handle@ by {
                    assert(is_container(before.areas(), before.tabviews@[i].area@));
                }
            }
        }
        let (left_child, right_child) = match split_direction {
            SplitDirection::Top | SplitDirection::Left => (new_area_handle, new_old_area_handle),
            SplitDirection::Bottom | SplitDirection::Right => (new_old_area_handle, new_area_handle),
        };
        let splitter = Area::Splitter(
            AreaSplitter {
                direction: Direction::from(split_direction),
                left_child,
                right_child,
                layout: splitter_layout,
            },
        );
        let slot = self.area_pool.get_mut(previous_area_handle);
        *slot = splitter;
        proof {
            let copy = new_old_area_handle@;
            let new_area = new_area_handle@;
            let prev = previous_area_handle@;
            self.rank@ = Map::new(
                |k: (u32, u32)| true,
                |k: (u32, u32)|
                    if k == copy {
                        (before.rank@[prev] + 1) as nat
                    } else if k == new_area {
                        0nat
                    } else if before.rank@[k] >= before.rank@[prev] {
                        (before.rank@[k] + 2) as nat
                    } else {
                        before.rank@[k]
                    },
            );
            assert(self.areas().dom() =~= before.areas().dom().insert(new_old_area_handle@));
            self.lemma_wf_after_split(
                before,
                previous_area_handle@,
                split_direction,
                new_area_handle@,
                new_old_area_handle@,
            );
        }
        new_old_area_handle
    }

    proof fn lemma_wf_after_split(
        &self,
        before: Self,
        prev: (u32, u32),
        dir: SplitDirection,
        new_area: (u32, u32),
        copy: (u32, u32),
    )
        requires
            before.wf(),
            before.areas().contains_key(prev),
            is_container(before.areas(), new_area),
            new_area != prev,
            forall|h: (u32, u32)| !#[trigger] is_child_of(before.areas(), new_area, h),
            self.area_pool.wf(),
            !before.areas().contains_key(copy),
            self.areas().dom() == before.areas().dom().insert(copy),
            area_cloned(before.areas()[prev], self.areas()[copy]),
            self.areas()[prev] is Splitter,
            ({
                let sp = self.areas()[prev]->Splitter_0;
                ||| (sp.left_child@ == new_area && sp.right_child@ == copy)
                ||| (sp.left_child@ == copy && sp.right_child@ == new_area)
            }),
            forall|k: (u32, u32)|
                k != prev && k != copy && #[trigger] self.areas().contains_key(k) ==> self.areas()[k]
                    == before.areas()[k],
            self.tabviews@.len() == before.tabviews@.len(),
            forall|i: int|
                0 <= i < before.tabviews@.len() ==> (#[trigger] self.tabviews@[i]).title
                    == before.tabviews@[i].title && self.tabviews@[i].area@ == if before.tabviews@[i].area@
                    == prev {
                    copy
                } else {
                    before.tabviews@[i].area@
                },
            self.root == before.root,
            self.default_area == before.default_area,
            self.floating_containers == before.floating_containers,
            self.rank@ == Map::new(
                |k: (u32, u32)| true,
                |k: (u32, u32)|
                    if k == copy {
                        (before.rank@[prev] + 1) as nat
                    } else if k == new_area {
                        0nat
                    } else if before.rank@[k] >= before.rank@[prev] {
                        (before.rank@[k] + 2) as nat
                    } else {
                        before.rank@[k]
                    },
            ),
        ensures
            self.wf(),
    {
        let areas = self.areas();
        let old_areas = before.areas();
        let r = before.rank@;
        let rank = self.rank@;
        let rp = r[prev];
        // new_area is a container, so it has no children; nobody points to copy.
        assert forall|h: (u32, u32)| #[trigger] areas.contains_key(h) && areas[h] is Splitter implies {
            let sp = areas[h]->Splitter_0;
            &&& areas.contains_key(sp.left_child@)
            &&& areas.contains_key(sp.right_child@)
            &&& rank[sp.left_child@] < rank[h]
            &&& rank[sp.right_child@] < rank[h]
            &&& sp.left_child@ != sp.right_child@
        } by {
            let sp = areas[h]->Splitter_0;
            if h == prev {
                assert(rank[prev] == rp + 2);
            } else if h == copy {
                let osp = old_areas[prev]->Splitter_0;
                assert(old_areas[prev] is Splitter);
                assert(sp.left_child == osp.left_child && sp.right_child == osp.right_child);
                assert(!is_child_of(old_areas, new_area, prev));
                assert(osp.left_child@ != copy && osp.right_child@ != copy);
            } else {
                assert(areas[h] == old_areas[h]);
                assert(old_areas.contains_key(h));
                assert(!is_child_of(old_areas, new_area, h));
                assert(sp.left_child@ != copy && sp.right_child@ != copy);
                assert(sp.left_child@ != new_area && sp.right_child@ != new_area);
            }
        }
        assert forall|x: (u32, u32), h1: (u32, u32), h2: (u32, u32)|
            #[trigger] is_child_of(areas, x, h1) && #[trigger] is_child_of(areas, x, h2) implies h1 == h2 by {
            // Reduce each parent relation of the new tree to one of the old tree.
            if h1 != h2 {
                self.lemma_child_after_split(before, prev, new_area, copy, x, h1);
                self.lemma_child_after_split(before, prev, new_area, copy, x, h2);
                if h1 == prev || h2 == prev {
                    if x == copy {
                        assert(!old_areas.contains_key(copy));
                    }
                }
            }
        }
        assert forall|h: (u32, u32)| #[trigger] is_container(areas, h) implies {
            &&& tabs_of(areas, h).no_duplicates()
            &&& forall|j: int|
                0 <= j < tabs_of(areas, h).len() ==> {
                    &&& #[trigger] tabs_of(areas, h)[j] < self.tabviews@.len()
                    &&& self.tabviews@[tabs_of(areas, h)[j] as int].area@ == h
                }
        } by {
            if h == copy {
                assert(is_container(old_areas, prev));
                assert(tabs_of(areas, copy) == tabs_of(old_areas, prev));
                let t = tabs_of(old_areas, prev);
                assert forall|j: int| 0 <= j < t.len() implies {
                    &&& #[trigger] t[j] < self.tabviews@.len()
                    &&& self.tabviews@[t[j] as int].area@ == copy
                } by {
                    assert(before.tabviews@[t[j] as int].area@ == prev);
                }
            } else {
                assert(h != prev);
                assert(areas[h] == old_areas[h]);
                assert(is_container(old_areas, h));
                let t = tabs_of(old_areas, h);
                assert forall|j: int| 0 <= j < t.len() implies {
                    &&& #[trigger] t[j] < self.tabviews@.len()
                    &&& self.tabviews@[t[j] as int].area@ == h
                } by {
                    assert(before.tabviews@[t[j] as int].area@ == h);
                }
            }
        }
        assert forall|i: int| 0 <= i < self.tabviews@.len() implies {
            &&& is_container(areas, (#[trigger] self.tabviews@[i]).area@)
            &&& tabs_of(areas, self.tabviews@[i].area@).contains(i as usize)
        } by {
            let h = before.tabviews@[i].area@;
            assert(is_container(old_areas, h));
            if h == prev {
                assert(tabs_of(areas, copy) == tabs_of(old_areas, prev));
            } else {
                assert(areas.contains_key(h));
                assert(areas[h] == old_areas[h]);
            }
        }
        assert forall|k: int| 0 <= k < self.floating_containers@.len() implies areas.contains_key(
            (#[trigger] self.floating_containers@[k])@,
        ) by {
            assert(old_areas.contains_key(before.floating_containers@[k]@));
        }
        assert forall|i: int, j: int|
            0 <= i < self.tabviews@.len() && 0 <= j < self.tabviews@.len() && i != j
                implies (#[trigger] self.tabviews@[i]).title@ != (#[trigger] self.tabviews@[j]).title@ by {
            assert(before.tabviews@[i].title@ != before.tabviews@[j].title@);
        }
    }

    /// A parent relation after a split is one of: `prev` over `new_area` or
    /// `copy`, `copy` over an old child of `prev`, or an old relation.
    proof fn lemma_child_after_split(
        &self,
        before: Self,
        prev: (u32, u32),
        new_area: (u32, u32),
        copy: (u32, u32),
        x: (u32, u32),
        h: (u32, u32),
    )
        requires
            is_child_of(self.areas(), x, h),
            before.areas().contains_key(prev),
            !before.areas().contains_key(copy),
            area_cloned(before.areas()[prev], self.areas()[copy]),
            self.areas()[prev] is Splitter,
            ({
                let sp = self.areas()[prev]->Splitter_0;
                ||| (sp.left_child@ == new_area && sp.right_child@ == copy)
                ||| (sp.left_child@ == copy && sp.right_child@ == new_area)
            }),
            forall|k: (u32, u32)|
                k != prev && k != copy && #[trigger] self.areas().contains_key(k) ==> self.areas()[k]
                    == before.areas()[k],
            self.areas().dom() == before.areas().dom().insert(copy),
        ensures
            h == prev ==> (x == new_area || x == copy),
            h == copy ==> is_child_of(before.areas(), x, prev),
            h != prev && h != copy ==> is_child_of(before.areas(), x, h),
    {
        if h != prev && h != copy {
            assert(self.areas()[h] == before.areas()[h]);
        }
    }
}

/// The areas after tab `i` left its container `prev`: the container lost it
/// (its last tab took its place), all other areas are unchanged, except those
/// in `touched`.
pub open spec fn left_container<L>(
    before: Map<(u32, u32), Area<L>>,
    after: Map<(u32, u32), Area<L>>,
    prev: (u32, u32),
    i: usize,
    touched: Set<(u32, u32)>,
) -> bool {
    &&& (!touched.contains(prev) ==> container_with_tabs(
        before[prev],
        after[prev],
        swap_removed(tabs_of(before, prev), i),
    ))
    &&& forall|k: (u32, u32)|
        k != prev && !touched.contains(k) && #[trigger] before.contains_key(k) ==> after[k] == before[k]
}

/// A new container holding only tab `i`, with its first tab selected.
pub open spec fn new_tab_container<L>(area: Area<L>, i: usize, layout: L) -> bool {
    match area {
        Area::Container(c) => c.tabviews@ == seq![i] && c.selected == Some(0usize) && c.layout
            == layout,
        Area::Splitter(_) => false,
    }
}

impl<L> Docking<L> {
    /// Whether `apply_event(event, ..)` can run: the tab exists, a drop
    /// target is a container (or the tab's own one), a split target is a live
    /// area, and the pool has room for the areas the event adds.
    pub open spec fn can_apply_event_spec(&self, event: DockingEvent<L>) -> bool {
        let tabs = self.tabs();
        match event {
            DockingEvent::DropTab(e) => e.i_tabview < tabs.len() && (e.in_container@
                == tabs[e.i_tabview as int].1 || is_container(self.areas(), e.in_container@)),
            DockingEvent::Split(_, i, c) => i < tabs.len() && self.areas().contains_key(c@)
                && self.area_capacity() < 0x4000_0000,
            DockingEvent::DetachTab(i) => i < tabs.len() && self.area_capacity() < 0x8000_0000,
        }
    }

    /// Whether `apply_event(event, ..)` can run.
    pub fn can_apply_event(&self, event: &DockingEvent<L>) -> (r: bool)
        requires
            self.wf(),
        ensures
            r == self.can_apply_event_spec(*event),
    {
        let n = self.tabviews.len();
        match event {
            DockingEvent::DropTab(e) => {
                if e.i_tabview >= n {
                    return false;
                }
                if e.in_container.same(&self.tabviews[e.i_tabview].area) {
                    return true;
                }
                self.area_pool.is_live(e.in_container) && match self.area_pool.get(e.in_container) {
                    Area::Container(_) => true,
                    Area::Splitter(_) => false,
                }
            },
            DockingEvent::Split(_, i, c) => *i < n && self.area_pool.is_live(*c)
                && self.area_pool.capacity() < 0x4000_0000,
            DockingEvent::DetachTab(i) => *i < n && self.area_pool.capacity() < 0x8000_0000,
        }
    }

    /// Queues an event of the frame.
    pub fn push_event(&mut self, event: DockingEvent<L>)
        ensures
            final(self).pending_events() == old(self).pending_events().push(event),
            final(self).areas() == old(self).areas(),
            final(self).tabs() == old(self).tabs(),
            final(self).floating() == old(self).floating(),
            final(self).spec_active_tab() == old(self).spec_active_tab(),
            final(self).area_capacity() == old(self).area_capacity(),
            old(self).wf() ==> final(self).wf(),
    {
        self.events.push(event);
    }

    /// Hands out the queued events and empties the queue.
    pub fn take_events(&mut self) -> (r: Vec<DockingEvent<L>>)
        ensures
            r@ == old(self).pending_events(),
            final(self).pending_events() == Seq::<DockingEvent<L>>::empty(),
            final(self).areas() == old(self).areas(),
            final(self).tabs() == old(self).tabs(),
            final(self).floating() == old(self).floating(),
            final(self).spec_active_tab() == old(self).spec_active_tab(),
            final(self).area_capacity() == old(self).area_capacity(),
            old(self).wf() ==> final(self).wf(),
    {
        let mut events: Vec<DockingEvent<L>> = Vec::new();
        std::mem::swap(&mut events, &mut self.events);
        events
    }

    /// The tab being dragged.
    pub fn active_tab(&self) -> (r: Option<usize>)
        ensures
            r == self.spec_active_tab(),
    {
        self.active_tab
    }

    /// Sets the tab being dragged.
    pub fn set_active_tab(&mut self, active_tab: Option<usize>)
        ensures
            final(self).spec_active_tab() == active_tab,
            final(self).areas() == old(self).areas(),
            final(self).tabs() == old(self).tabs(),
            final(self).floating() == old(self).floating(),
            final(self).pending_events() == old(self).pending_events(),
            final(self).area_capacity() == old(self).area_capacity(),
            old(self).wf() ==> final(self).wf(),
    {
        self.active_tab = active_tab;
    }
}

/// The selection a container keeps: none without tabs, the first tab when
/// there was none or it is past the end, and otherwise the same tab.
pub open spec fn fixed_selection(selected: Option<usize>, len: nat) -> Option<usize> {
    match selected {
        Some(i) => if len == 0 {
            None
        } else if i >= len {
            Some(0usize)
        } else {
            Some(i)
        },
        None => if len == 0 {
            None
        } else {
            Some(0usize)
        },
    }
}

/// `b` is `a` with another layout.
pub open spec fn same_but_layout<L>(a: Area<L>, b: Area<L>) -> bool {
    match (a, b) {
        (Area::Splitter(sa), Area::Splitter(sb)) => sb.direction == sa.direction && sb.left_child
            == sa.left_child && sb.right_child == sa.right_child,
        (Area::Container(ca), Area::Container(cb)) => cb.tabviews@ == ca.tabviews@ && cb.selected
            == ca.selected,
        _ => false,
    }
}

/// The layout of an area.
pub open spec fn layout_of<L>(a: Area<L>) -> L {
    match a {
        Area::Splitter(sp) => sp.layout,
        Area::Container(c) => c.layout,
    }
}

impl<L> Docking<L> {
    /// Keeps the selection of the container at `area_handle` on one of its
    /// tabs: none without tabs, the first tab when none or an invalid one was
    /// selected.
    pub fn update_selection(&mut self, area_handle: Handle<Area<L>>)
        requires
            old(self).wf(),
            is_container(old(self).areas(), area_handle@),
        ensures
            final(self).wf(),
            final(self).areas().dom() == old(self).areas().dom(),
            forall|k: (u32, u32)|
                k != area_handle@ && #[trigger] old(self).areas().contains_key(k) ==> final(self).areas()[k]
                    == old(self).areas()[k],
            final(self).areas()[area_handle@] matches Area::Container(c) && old(self).areas()[area_handle@] matches Area::Container(oc) && c.tabviews@ == oc.tabviews@ && c.layout == oc.layout && c.selected == fixed_selection(oc.selected, oc.tabviews@.len()),
            forall|h: (u32, u32)| #[trigger] final(self).area_rank(h) == old(self).area_rank(h),
            final(self).tabs() == old(self).tabs(),
            final(self).floating() == old(self).floating(),
            final(self).root_handle() == old(self).root_handle(),
            final(self).default_handle() == old(self).default_handle(),
            final(self).spec_active_tab() == old(self).spec_active_tab(),
            final(self).pending_events() == old(self).pending_events(),
    {
        let ghost before = *self;
        let area = self.area_pool.get_mut(area_handle);
        let container = area.container_mut().unwrap();
        match container.selected {
            Some(i_selected) => {
                if container.tabviews.len() == 0 {
                    container.selected = None;
                } else if i_selected >= container.tabviews.len() {
                    container.selected = Some(0);
                }
            },
            None => {
                if container.tabviews.len() != 0 {
                    container.selected = Some(0);
                }
            },
        }
        proof {
            assert(self.areas().dom() =~= before.areas().dom());
            self.lemma_wf_same_shape(before, area_handle@);
        }
    }

    /// Selects the `i`-th tab of the container at `area_handle`.
    pub fn select_tab(&mut self, area_handle: Handle<Area<L>>, i: usize)
        requires
            old(self).wf(),
            is_container(old(self).areas(), area_handle@),
        ensures
            final(self).wf(),
            final(self).areas().dom() == old(self).areas().dom(),
            forall|k: (u32, u32)|
                k != area_handle@ && #[trigger] old(self).areas().contains_key(k) ==> final(self).areas()[k]
                    == old(self).areas()[k],
            final(self).areas()[area_handle@] matches Area::Container(c) && old(self).areas()[area_handle@] matches Area::Container(oc) && c.tabviews@ == oc.tabviews@ && c.layout == oc.layout && c.selected == Some(i),
            final(self).tabs() == old(self).tabs(),
            final(self).floating() == old(self).floating(),
            final(self).root_handle() == old(self).root_handle(),
            final(self).default_handle() == old(self).default_handle(),
            final(self).spec_active_tab() == old(self).spec_active_tab(),
            final(self).pending_events() == old(self).pending_events(),
    {
        let ghost before = *self;
        let area = self.area_pool.get_mut(area_handle);
        let container = area.container_mut().unwrap();
        container.selected = Some(i);
        proof {
            assert(self.areas().dom() =~= before.areas().dom());
            self.lemma_wf_same_shape(before, area_handle@);
        }
    }

    /// The area at `area_handle`.
    pub fn area(&self, area_handle: Handle<Area<L>>) -> (r: &Area<L>)
        requires
            self.wf(),
            self.areas().contains_key(area_handle@),
        ensures
            *r == self.areas()[area_handle@],
    {
        self.area_pool.get(area_handle)
    }

    /// Gives the area at `area_handle` another layout.
    pub fn set_layout(&mut self, area_handle: Handle<Area<L>>, layout: L)
        requires
            old(self).wf(),
            old(self).areas().contains_key(area_handle@),
        ensures
            final(self).wf(),
            final(self).areas().dom() == old(self).areas().dom(),
            forall|k: (u32, u32)|
                k != area_handle@ && #[trigger] old(self).areas().contains_key(k) ==> final(self).areas()[k]
                    == old(self).areas()[k],
            same_but_layout(old(self).areas()[area_handle@], final(self).areas()[area_handle@]),
            layout_of(final(self).areas()[area_handle@]) == layout,
            final(self).tabs() == old(self).tabs(),
            final(self).floating() == old(self).floating(),
            final(self).root_handle() == old(self).root_handle(),
            final(self).default_handle() == old(self).default_handle(),
            final(self).spec_active_tab() == old(self).spec_active_tab(),
            final(self).pending_events() == old(self).pending_events(),
    {
        let ghost before = *self;
        let area = self.area_pool.get_mut(area_handle);
        match area {
            Area::Splitter(sp) => {
                sp.layout = layout;
            },
            Area::Container(c) => {
                c.layout = layout;
            },
        }
        proof {
            assert(self.areas().dom() =~= before.areas().dom());
            self.lemma_wf_same_shape(before, area_handle@);
        }
    }

    /// The number of tab views.
    pub fn tab_count(&self) -> (r: usize)
        ensures
            r == self.tabs().len(),
    {
        self.tabviews.len()
    }

    /// The `i`-th tab view.
    pub fn tab(&self, i: usize) -> (r: &TabView<L>)
        requires
            i < self.tabs().len(),
        ensures
            r.title@ == self.tabs()[i as int].0,
            r.area@ == self.tabs()[i as int].1,
    {
        &self.tabviews[i]
    }

    /// The root of the docked layout.
    pub fn root(&self) -> (r: Handle<Area<L>>)
        ensures
            r@ == self.root_handle(),
    {
        self.root
    }

    /// The roots of the floating containers.
    pub fn floating_containers(&self) -> (r: Vec<Handle<Area<L>>>)
        ensures
            r@.map_values(|h: Handle<Area<L>>| h@) == self.floating(),
    {
        let mut r: Vec<Handle<Area<L>>> = Vec::new();
        let n = self.floating_containers.len();
        let mut i: usize = 0;
        while i < n
            invariant
                n == self.floating_containers@.len(),
                i <= n,
                r@ == self.floating_containers@.subrange(0, i as int),
            decreases n - i,
        {
            r.push(self.floating_containers[i]);
            i = i + 1;
        }
        assert(r@ =~= self.floating_containers@);
        r
    }

    proof fn lemma_wf_same_shape(&self, before: Self, h: (u32, u32))
        requires
            before.wf(),
            self.area_pool.wf(),
            before.areas().contains_key(h),
            self.areas().dom() == before.areas().dom(),
            forall|k: (u32, u32)|
                k != h && #[trigger] before.areas().contains_key(k) ==> self.areas()[k] == before.areas()[k],
            match (before.areas()[h], self.areas()[h]) {
                (Area::Splitter(sa), Area::Splitter(sb)) => sb.left_child == sa.left_child
                    && sb.right_child == sa.right_child,
                (Area::Container(ca), Area::Container(cb)) => cb.tabviews@ == ca.tabviews@,
                _ => false,
            },
            self.tabviews == before.tabviews,
            self.root == before.root,
            self.default_area == before.default_area,
            self.floating_containers == before.floating_containers,
            self.rank == before.rank,
        ensures
            self.wf(),
    {
        let areas = self.areas();
        let old_areas = before.areas();
        assert forall|k: (u32, u32)| #[trigger] areas.contains_key(k) implies (areas[k] is Splitter
            <==> old_areas[k] is Splitter) && (areas[k] is Splitter ==> areas[k]->Splitter_0.left_child
            == old_areas[k]->Splitter_0.left_child && areas[k]->Splitter_0.right_child
            == old_areas[k]->Splitter_0.right_child) && (areas[k] is Container ==> tabs_of(areas, k)
            == tabs_of(old_areas, k)) by {}
        assert forall|x: (u32, u32), k: (u32, u32)| #[trigger] is_child_of(areas, x, k) <==> is_child_of(old_areas, x, k) by {
            if areas.contains_key(k) {
                assert(areas[k] is Splitter <==> old_areas[k] is Splitter);
            }
        }
        assert forall|k: (u32, u32)| #[trigger] is_container(areas, k) <==> is_container(old_areas, k) by {}
    }
}

/// `b` is the area `a` once its selection is kept on one of its tabs: a
/// container with the same tabs and layout and the selection
/// `fixed_selection` gives, or the same splitter.
pub open spec fn selection_fixed<L>(a: Area<L>, b: Area<L>) -> bool {
    match (a, b) {
        (Area::Container(ca), Area::Container(cb)) => cb.tabviews@ == ca.tabviews@ && cb.layout
            == ca.layout && cb.selected == fixed_selection(ca.selected, ca.tabviews@.len()),
        (Area::Splitter(_), Area::Splitter(_)) => b == a,
        _ => false,
    }
}

/// Both maps have the same areas, the same splitters and the same children.
spec fn same_splitters<L>(a1: Map<(u32, u32), Area<L>>, a2: Map<(u32, u32), Area<L>>) -> bool {
    &&& a1.dom() == a2.dom()
    &&& forall|k: (u32, u32)|
        #[trigger] a1.contains_key(k) ==> {
            &&& (a1[k] is Splitter <==> a2[k] is Splitter)
            &&& a1[k] is Splitter ==> a1[k]->Splitter_0.left_child == a2[k]->Splitter_0.left_child
                && a1[k]->Splitter_0.right_child == a2[k]->Splitter_0.right_child
        }
}

/// Subtrees depend on the splitters and the ranks alone.
proof fn lemma_in_subtree_same_splitters<L>(
    a1: Map<(u32, u32), Area<L>>,
    a2: Map<(u32, u32), Area<L>>,
    rank1: Map<(u32, u32), nat>,
    rank2: Map<(u32, u32), nat>,
    node: (u32, u32),
    x: (u32, u32),
)
    requires
        same_splitters(a1, a2),
        forall|h: (u32, u32)| #[trigger] rank1[h] == rank2[h],
    ensures
        in_subtree(a1, rank1, node, x) == in_subtree(a2, rank2, node, x),
    decreases rank1[node],
{
    if node != x && a1.contains_key(node) && a1[node] is Splitter {
        let sp = a1[node]->Splitter_0;
        assert(rank1[sp.left_child@] == rank2[sp.left_child@]);
        assert(rank1[sp.right_child@] == rank2[sp.right_child@]);
        assert(rank1[node] == rank2[node]);
        if rank1[sp.left_child@] < rank1[node] {
            lemma_in_subtree_same_splitters(a1, a2, rank1, rank2, sp.left_child@, x);
        }
        if rank1[sp.right_child@] < rank1[node] {
            lemma_in_subtree_same_splitters(a1, a2, rank1, rank2, sp.right_child@, x);
        }
    }
}

/// Keeping a selection that is already kept changes nothing.
proof fn lemma_selection_fixed_twice<L>(a: Area<L>, b: Area<L>, c: Area<L>)
    requires
        selection_fixed(a, b),
        selection_fixed(b, c),
    ensures
        selection_fixed(a, c),
{
}

/// The selection `fixed_selection` keeps is valid: none exactly when there
/// are no tabs, else a position among them; and a valid selection is kept
/// as it is.
pub proof fn law_fixed_selection_valid(selected: Option<usize>, len: nat)
    ensures
        fixed_selection(selected, len) is None <==> len == 0,
        fixed_selection(selected, len) matches Some(i) ==> i < len,
        selected matches Some(i) && i < len ==> fixed_selection(selected, len) == selected,
{
}

impl<L> Docking<L> {
    /// Keeps the selection of every container at or below `node` on one of
    /// its tabs, as `update_selection` does for one container; areas outside
    /// that subtree, and the tree's shape, stay as they were.
    pub fn update_selections(&mut self, node: Handle<Area<L>>)
        requires
            old(self).wf(),
            old(self).areas().contains_key(node@),
        ensures
            final(self).wf(),
            final(self).areas().dom() == old(self).areas().dom(),
            forall|k: (u32, u32)|
                #[trigger] old(self).areas().contains_key(k) ==> if old(self).subtree_contains(node@, k) {
                    selection_fixed(old(self).areas()[k], final(self).areas()[k])
                } else {
                    final(self).areas()[k] == old(self).areas()[k]
                },
            forall|h: (u32, u32)| #[trigger] final(self).area_rank(h) == old(self).area_rank(h),
            forall|a: (u32, u32), x: (u32, u32)|
                #[trigger] final(self).subtree_contains(a, x) == old(self).subtree_contains(a, x),
            final(self).tabs() == old(self).tabs(),
            final(self).floating() == old(self).floating(),
            final(self).root_handle() == old(self).root_handle(),
            final(self).default_handle() == old(self).default_handle(),
            final(self).spec_active_tab() == old(self).spec_active_tab(),
            final(self).pending_events() == old(self).pending_events(),
        decreases old(self).area_rank(node@),
    {
        let ghost before = *self;
        let children = match self.area_pool.get(node) {
            Area::Splitter(sp) => Some((sp.left_child, sp.right_child)),
            Area::Container(_) => None,
        };
        proof {
            self.lemma_subtree_contains(node@, node@);
        }
        match children {
            None => {
                self.update_selection(node);
                proof {
                    assert(same_splitters(before.areas(), self.areas()));
                    assert forall|a: (u32, u32), x: (u32, u32)|
                        #[trigger] self.subtree_contains(a, x) == before.subtree_contains(a, x) by {
                        assert forall|h: (u32, u32)| #[trigger] before.rank@[h] == self.rank@[h] by {
                            assert(self.area_rank(h) == before.area_rank(h));
                        }
                        lemma_in_subtree_same_splitters(before.areas(), self.areas(), before.rank@, self.rank@, a, x);
                    }
                    assert forall|k: (u32, u32)| #[trigger] before.areas().contains_key(k)
                        && before.subtree_contains(node@, k) implies k == node@ by {
                        before.lemma_subtree_contains(node@, k);
                    }
                }
            },
            Some((left, right)) => {
                proof {
                    assert(before.areas()[node@] is Splitter);
                    assert(before.area_rank(left@) < before.area_rank(node@));
                    assert(before.area_rank(right@) < before.area_rank(node@));
                }
                self.update_selections(left);
                let ghost mid = *self;
                self.update_selections(right);
                proof {
                    assert forall|k: (u32, u32)| #[trigger] before.areas().contains_key(k) implies
                        if before.subtree_contains(node@, k) {
                            selection_fixed(before.areas()[k], self.areas()[k])
                        } else {
                            self.areas()[k] == before.areas()[k]
                        } by {
                        before.lemma_subtree_contains(node@, k);
                        if before.subtree_contains(left@, k) && before.subtree_contains(right@, k) {
                            lemma_selection_fixed_twice(before.areas()[k], mid.areas()[k], self.areas()[k]);
                        }
                        if k == node@ {
                            assert(mid.areas()[k] == before.areas()[k] || selection_fixed(before.areas()[k], mid.areas()[k]));
                        }
                    }
                }
            },
        }
    }
}

impl<L: Clone> Docking<L> {
    /// Applies one event of the frame. Dropping a tab on another container
    /// moves it there; splitting moves the tab to a new container docked on
    /// one side of the target area; detaching moves it to a new floating
    /// container. `split_container_layout`, `floating_layout` and
    /// `splitter_layout` are the layouts given to the areas the event creates.
    pub fn apply_event(
        &mut self,
        event: DockingEvent<L>,
        split_container_layout: L,
        floating_layout: L,
        splitter_layout: L,
    )
        requires
            old(self).wf(),
            old(self).can_apply_event_spec(event),
        ensures
            final(self).wf(),
            final(self).root_handle() == old(self).root_handle(),
            final(self).default_handle() == old(self).default_handle(),
            final(self).spec_active_tab() == old(self).spec_active_tab(),
            final(self).pending_events() == old(self).pending_events(),
            match event {
                DockingEvent::DropTab(e) => {
                    let i = e.i_tabview;
                    let prev = old(self).tabs()[i as int].1;
                    let target = e.in_container@;
                    &&& final(self).floating() == old(self).floating()
                    &&& final(self).areas().dom() == old(self).areas().dom()
                    &&& if target == prev {
                        &&& final(self).areas() == old(self).areas()
                        &&& final(self).tabs() == old(self).tabs()
                    } else {
                        &&& final(self).tabs() == old(self).tabs().update(
                            i as int,
                            (old(self).tabs()[i as int].0, target),
                        )
                        &&& left_container(old(self).areas(), final(self).areas(), prev, i, set![target])
                        &&& !tabs_of(final(self).areas(), prev).contains(i)
                        &&& container_with_tabs(
                            old(self).areas()[target],
                            final(self).areas()[target],
                            tabs_of(old(self).areas(), target).push(i),
                        )
                    }
                },
                DockingEvent::DetachTab(i) => {
                    let prev = old(self).tabs()[i as int].1;
                    let n = final(self).tabs()[i as int].1;
                    &&& !old(self).areas().contains_key(n)
                    &&& final(self).areas().dom() == old(self).areas().dom().insert(n)
                    &&& final(self).tabs() == old(self).tabs().update(i as int, (old(self).tabs()[i as int].0, n))
                    &&& left_container(old(self).areas(), final(self).areas(), prev, i, Set::empty())
                    &&& !tabs_of(final(self).areas(), prev).contains(i)
                    &&& new_tab_container(final(self).areas()[n], i, floating_layout)
                    &&& final(self).floating() == old(self).floating().push(n)
                },
                DockingEvent::Split(direction, i, c) => {
                    let prev = old(self).tabs()[i as int].1;
                    let n = final(self).tabs()[i as int].1;
                    let copy = if direction == SplitDirection::Top || direction == SplitDirection::Left {
                        final(self).areas()[c@]->Splitter_0.right_child@
                    } else {
                        final(self).areas()[c@]->Splitter_0.left_child@
                    };
                    &&& !old(self).areas().contains_key(n)
                    &&& !old(self).areas().contains_key(copy)
                    &&& n != copy
                    &&& final(self).areas().dom() == old(self).areas().dom().insert(n).insert(copy)
                    &&& left_container(old(self).areas(), final(self).areas(), prev, i, set![c@])
                    &&& !tabs_of(final(self).areas(), prev).contains(i)
                    &&& new_tab_container(final(self).areas()[n], i, split_container_layout)
                    &&& split_node(final(self).areas()[c@], direction, n, copy, splitter_layout)
                    &&& (c@ != prev ==> area_cloned(old(self).areas()[c@], final(self).areas()[copy]))
                    &&& (c@ == prev ==> {
                        &&& final(self).areas()[copy] is Container
                        &&& tabs_of(final(self).areas(), copy) == swap_removed(tabs_of(old(self).areas(), prev), i)
                    })
                    &&& final(self).tabs().len() == old(self).tabs().len()
                    &&& forall|j: int|
                        0 <= j < old(self).tabs().len() ==> #[trigger] final(self).tabs()[j] == if j == i {
                            (old(self).tabs()[j].0, n)
                        } else if old(self).tabs()[j].1 == c@ {
                            (old(self).tabs()[j].0, copy)
                        } else {
                            old(self).tabs()[j]
                        }
                    &&& final(self).floating() == old(self).floating()
                },
            },
    {
        let n_tabs = self.tabviews.len();
        let ghost start = *self;
        match event {
            DockingEvent::DropTab(e) => {
                let previous_area = self.tabviews[e.i_tabview].area;
                assert(previous_area@ == start.tabs()[e.i_tabview as int].1);
                if !e.in_container.same(&previous_area) {
                    let ghost before = *self;
                    self.remove_tabview(e.i_tabview, previous_area);
                    let ghost after_remove = *self;
                    self.insert_tabview(e.i_tabview, e.in_container);
                    proof {
                        assert(after_remove.areas()[e.in_container@] == before.areas()[e.in_container@]);
                        self.lemma_wf_after_move(before, e.i_tabview as int, e.in_container@, false);
                        assert(self.tabs() =~= before.tabs().update(
                            e.i_tabview as int,
                            (before.tabs()[e.i_tabview as int].0, e.in_container@),
                        ));
                        assert(self.floating() =~= before.floating());
                        assert(self.areas().dom() =~= before.areas().dom());
                        assert(!set![e.in_container@].contains(previous_area@));
                        assert(left_container(before.areas(), self.areas(), previous_area@, e.i_tabview, set![e.in_container@]));
                        assert(container_with_tabs(
                            before.areas()[e.in_container@],
                            self.areas()[e.in_container@],
                            tabs_of(before.areas(), e.in_container@).push(e.i_tabview),
                        ));
                        assert(previous_area@ == before.tabs()[e.i_tabview as int].1);
                    }
                }
                proof {
                    let i = e.i_tabview;
                    let prev = start.tabs()[i as int].1;
                    let target = e.in_container@;
                    assert(self.floating() == start.floating());
                    assert(self.areas().dom() == start.areas().dom());
                    if target == prev {
                        assert(self.areas() == start.areas());
                        assert(self.tabs() == start.tabs());
                    } else {
                        assert(self.tabs() == start.tabs().update(i as int, (start.tabs()[i as int].0, target)));
                        assert(left_container(start.areas(), self.areas(), prev, i, set![target]));
                        assert(container_with_tabs(
                            start.areas()[target],
                            self.areas()[target],
                            tabs_of(start.areas(), target).push(i),
                        ));
                    }
                    assert(self.wf());
                    assert(self.root_handle() == start.root_handle());
                    assert(self.default_handle() == start.default_handle());
                    assert(self.spec_active_tab() == start.spec_active_tab());
                    assert(self.pending_events() == start.pending_events());
                }
            },
            DockingEvent::DetachTab(i_tabview) => {
                let ghost before = *self;
                let container_handle = self.tabviews[i_tabview].area;
                self.remove_tabview(i_tabview, container_handle);
                let mut tabs: Vec<usize> = Vec::new();
                tabs.push(i_tabview);
                let new_container = self.area_pool.add(
                    Area::Container(
                        AreaContainer { selected: Some(0), tabviews: tabs, layout: floating_layout },
                    ),
                );
                let tabview = &mut self.tabviews[i_tabview];
                tabview.area = new_container;
                self.floating_containers.push(new_container);
                proof {
                    self.rank@ = before.rank@.insert(new_container@, 0);
                    assert(self.areas().dom() =~= before.areas().dom().insert(new_container@));
                    self.lemma_wf_after_move(before, i_tabview as int, new_container@, true);
                    assert(self.tabs() =~= before.tabs().update(
                        i_tabview as int,
                        (before.tabs()[i_tabview as int].0, new_container@),
                    ));
                    assert(self.floating() =~= before.floating().push(new_container@));
                }
            },
            DockingEvent::Split(direction, i_dropped_tab, container_handle) => {
                let ghost before = *self;
                let previous_area = self.tabviews[i_dropped_tab].area;
                self.remove_tabview(i_dropped_tab, previous_area);
                let ghost after_remove = *self;
                let new_container = self.area_pool.add(
                    Area::Container(
                        AreaContainer {
                            selected: Some(0),
                            tabviews: Vec::new(),
                            layout: split_container_layout,
                        },
                    ),
                );
                proof {
                    self.rank@ = before.rank@.insert(new_container@, 0);
                }
                let ghost after_add = *self;
                self.insert_tabview(i_dropped_tab, new_container);
                proof {
                    assert(self.areas().dom() =~= before.areas().dom().insert(new_container@));
                    assert(tabs_of(self.areas(), new_container@) =~= seq![i_dropped_tab]);
                    assert forall|k: (u32, u32)|
                        k != new_container@ && k != previous_area@ && #[trigger] before.areas().contains_key(k)
                            implies self.areas()[k] == before.areas()[k] by {
                        assert(after_remove.areas().contains_key(k));
                        assert(after_add.areas().contains_key(k));
                        assert(self.areas()[k] == after_add.areas()[k]);
                        assert(after_add.areas()[k] == after_remove.areas()[k]);
                    }
                    assert(after_remove.areas().contains_key(previous_area@));
                    assert(previous_area@ != new_container@);
                    assert(after_add.areas().contains_key(previous_area@));
                    assert(self.areas()[previous_area@] == after_add.areas()[previous_area@]);
                    assert(after_add.areas()[previous_area@] == after_remove.areas()[previous_area@]);
                    self.lemma_wf_after_move(before, i_dropped_tab as int, new_container@, true);
                    assert forall|h: (u32, u32)| !#[trigger] is_child_of(self.areas(), new_container@, h) by {
                        if is_child_of(self.areas(), new_container@, h) {
                            assert(h != new_container@);
                            assert(self.areas()[h] == before.areas()[h] || h == previous_area@);
                        }
                    }
                }
                let ghost mid = *self;
                proof {
                    assert(new_tab_container(mid.areas()[new_container@], i_dropped_tab, split_container_layout));
                    assert(mid.tabviews@[i_dropped_tab as int].area@ == new_container@);
                    assert(before.areas().contains_key(container_handle@));
                    assert(container_handle@ != new_container@);
                }
                let copy = self.split_area(container_handle, direction, new_container, splitter_layout);
                proof {
                    let c = container_handle@;
                    let n = new_container@;
                    let prev = previous_area@;
                    let i = i_dropped_tab;
                    assert(self.areas().dom() =~= before.areas().dom().insert(n).insert(copy@));
                    assert(self.tabs()[i as int].1 == n);
                    assert(self.tabs().len() == before.tabs().len());
                    assert(mid.areas().contains_key(n));
                    assert(self.areas()[n] == mid.areas()[n]);
                    assert forall|k: (u32, u32)|
                        k != prev && k != c && #[trigger] before.areas().contains_key(k) implies self.areas()[k]
                            == before.areas()[k] by {
                        assert(k != n);
                        assert(mid.areas().contains_key(k));
                        assert(self.areas()[k] == mid.areas()[k]);
                    }
                    if prev != c {
                        assert(mid.areas().contains_key(prev));
                        assert(self.areas()[prev] == mid.areas()[prev]);
                        assert(mid.areas()[c] == before.areas()[c]);
                    }
                    assert(left_container(before.areas(), self.areas(), prev, i, set![c]));
                    assert forall|j: int| 0 <= j < before.tabs().len() implies #[trigger] self.tabs()[j] == if j == i {
                        (before.tabs()[j].0, n)
                    } else if before.tabs()[j].1 == c {
                        (before.tabs()[j].0, copy@)
                    } else {
                        before.tabs()[j]
                    } by {
                        if j != i {
                            assert(mid.tabviews@[j] == before.tabviews@[j]);
                        }
                    }
                    assert(self.floating() =~= before.floating());
                }
            },
        }
        proof {
            match event {
                DockingEvent::DropTab(e) => {
                    let prev = start.tabs()[e.i_tabview as int].1;
                    if e.in_container@ != prev {
                        law_tab_listed_only_by_its_container(*self, e.i_tabview as int, prev);
                    }
                },
                DockingEvent::DetachTab(i) => {
                    law_tab_listed_only_by_its_container(*self, i as int, start.tabs()[i as int].1);
                },
                DockingEvent::Split(_, i, _) => {
                    law_tab_listed_only_by_its_container(*self, i as int, start.tabs()[i as int].1);
                },
            }
        }
    }
}

/// In a well-formed layout each tab view sits in exactly one container, which
/// lists it.
pub proof fn law_tab_in_one_container<L>(d: Docking<L>, i: int, h: (u32, u32))
    requires
        d.wf(),
        0 <= i < d.tabs().len(),
        is_container(d.areas(), h),
        tabs_of(d.areas(), h).contains(i as usize),
    ensures
        h == d.tabs()[i].1,
        is_container(d.areas(), d.tabs()[i].1),
        tabs_of(d.areas(), d.tabs()[i].1).contains(i as usize),
{
    let t = tabs_of(d.areas(), h);
    let j = choose|j: int| 0 <= j < t.len() && t[j] == i as usize;
    assert(d.tabviews@[t[j] as int].area@ == h);
    assert(d.tabs()[i].1 == d.tabviews@[i].area@);
}

/// No area lists a tab view but the container the tab view points to.
pub proof fn law_tab_listed_only_by_its_container<L>(d: Docking<L>, i: int, h: (u32, u32))
    requires
        d.wf(),
        0 <= i < d.tabs().len(),
        d.areas().contains_key(h),
        h != d.tabs()[i].1,
    ensures
        !tabs_of(d.areas(), h).contains(i as usize),
{
    if tabs_of(d.areas(), h).contains(i as usize) {
        if is_container(d.areas(), h) {
            law_tab_in_one_container(d, i, h);
        }
    }
}

/// In a well-formed layout the children of a splitter are live areas, and no
/// area is the child of two splitters.
pub proof fn law_tree_shape<L>(d: Docking<L>, x: (u32, u32), h1: (u32, u32), h2: (u32, u32))
    requires
        d.wf(),
    ensures
        is_child_of(d.areas(), x, h1) ==> d.areas().contains_key(x),
        is_child_of(d.areas(), x, h1) && is_child_of(d.areas(), x, h2) ==> h1 == h2,
{
    if is_child_of(d.areas(), x, h1) {
        assert(d.areas().contains_key(h1) && d.areas()[h1] is Splitter);
    }
}

} // verus!
