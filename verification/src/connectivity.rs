//! Which cells and sides a player's stones connect.
//!
//! The stones of one player span a graph: its nodes are the cells of the
//! board and the three sides; two cells are linked when both hold a stone and
//! are neighbours, and a cell is linked to a side when it holds a stone and
//! lies on that side. The player has joined the three sides when all three
//! are connected in this graph. The sides are nodes like the cells: a path
//! may pass through a side, so two stones on one side are connected by it.
//! A `Connectivity` follows this relation stone by stone in a
//! `DisjointSets` with one element for each node.

use vstd::prelude::*;
use crate::coordinates::{cells_in_rows, lemma_room_for_three, triangle, Coordinates, Side};
use crate::disjoint_sets::DisjointSets;

verus! {

/// A node of the graph of one player's stones.
pub enum Node {
    Cell(Coordinates),
    Side(Side),
}

impl Node {
    /// The node belongs to the graph of a board of side `size`.
    pub open spec fn on_board(self, size: nat) -> bool {
        match self {
            Node::Cell(c) => c.valid(size),
            Node::Side(_) => true,
        }
    }

    /// The number of the node: a cell's index in row-major order, or the
    /// number of cells plus the side's number.
    pub open spec fn id(self, size: nat) -> int {
        match self {
            Node::Cell(c) => c.index(size),
            Node::Side(s) => (triangle(size) + s.index()) as int,
        }
    }

    /// Nodes of the board are numbered below the number of cells plus three.
    pub proof fn lemma_id_in_range(self, size: nat)
        requires
            self.on_board(size),
        ensures
            0 <= self.id(size) < triangle(size) + 3,
    {
        if let Node::Cell(c) = self {
            c.lemma_index_in_range(size);
        }
    }

    /// Two nodes of the board with one number are one node.
    pub proof fn lemma_id_injective(self, other: Node, size: nat)
        requires
            self.on_board(size),
            other.on_board(size),
            self.id(size) == other.id(size),
        ensures
            self == other,
    {
        self.lemma_id_in_range(size);
        other.lemma_id_in_range(size);
        match (self, other) {
            (Node::Cell(c), Node::Cell(d)) => {
                c.lemma_index_in_range(size);
                d.lemma_index_in_range(size);
                c.lemma_index_injective(d, size);
            },
            (Node::Cell(c), Node::Side(_)) => {
                c.lemma_index_in_range(size);
            },
            (Node::Side(_), Node::Cell(d)) => {
                d.lemma_index_in_range(size);
            },
            (Node::Side(_), Node::Side(_)) => {},
        }
    }
}

/// The stones `stones` on a board of side `size` link `a` and `b` directly.
pub open spec fn linked(size: nat, stones: Set<Coordinates>, a: Node, b: Node) -> bool {
    match (a, b) {
        (Node::Cell(c), Node::Cell(d)) => c.valid(size) && d.valid(size) && stones.contains(c)
            && stones.contains(d) && c.adjacent(d),
        (Node::Cell(c), Node::Side(s)) => c.valid(size) && stones.contains(c) && c.on_side(s),
        (Node::Side(s), Node::Cell(c)) => c.valid(size) && stones.contains(c) && c.on_side(s),
        (Node::Side(_), Node::Side(_)) => false,
    }
}

/// The nodes at places `i` and `i + 1` of `path` are linked.
pub open spec fn step(size: nat, stones: Set<Coordinates>, path: Seq<Node>, i: int) -> bool {
    linked(size, stones, path[i], path[i + 1])
}

/// `path` leads from `a` to `b` over links.
pub open spec fn connects(
    size: nat,
    stones: Set<Coordinates>,
    path: Seq<Node>,
    a: Node,
    b: Node,
) -> bool {
    &&& path.len() >= 1
    &&& path[0] == a
    &&& path[path.len() - 1] == b
    &&& forall|i: int| 0 <= i < path.len() - 1 ==> #[trigger] step(size, stones, path, i)
}

/// Some path leads from `a` to `b`.
pub open spec fn joined(size: nat, stones: Set<Coordinates>, a: Node, b: Node) -> bool {
    exists|path: Seq<Node>| #[trigger] connects(size, stones, path, a, b)
}

/// The stones connect all three sides.
pub open spec fn spans(size: nat, stones: Set<Coordinates>) -> bool {
    &&& joined(size, stones, Node::Side(Side::X), Node::Side(Side::Y))
    &&& joined(size, stones, Node::Side(Side::X), Node::Side(Side::Z))
}

/// Every node is joined to itself.
pub proof fn lemma_joined_reflexive(size: nat, stones: Set<Coordinates>, a: Node)
    ensures
        joined(size, stones, a, a),
{
    assert(connects(size, stones, seq![a], a, a));
}

/// Linked nodes are joined.
pub proof fn lemma_joined_link(size: nat, stones: Set<Coordinates>, a: Node, b: Node)
    requires
        linked(size, stones, a, b),
    ensures
        joined(size, stones, a, b),
{
    let path = seq![a, b];
    assert(step(size, stones, path, 0));
    assert(connects(size, stones, path, a, b));
}

/// Links have no direction.
pub proof fn lemma_linked_symmetric(size: nat, stones: Set<Coordinates>, a: Node, b: Node)
    requires
        linked(size, stones, a, b),
    ensures
        linked(size, stones, b, a),
{
    match (a, b) {
        (Node::Cell(c), Node::Cell(d)) => {
            c.lemma_adjacent_symmetric(d);
        },
        _ => {},
    }
}

/// Being joined has no direction.
pub proof fn lemma_joined_symmetric(size: nat, stones: Set<Coordinates>, a: Node, b: Node)
    requires
        joined(size, stones, a, b),
    ensures
        joined(size, stones, b, a),
{
    let path = choose|path: Seq<Node>| #[trigger] connects(size, stones, path, a, b);
    let n = path.len() as int;
    let back = Seq::new(path.len(), |i: int| path[n - 1 - i]);
    assert forall|i: int| 0 <= i < back.len() - 1 implies #[trigger] step(
        size,
        stones,
        back,
        i,
    ) by {
        assert(step(size, stones, path, n - 2 - i));
        lemma_linked_symmetric(size, stones, path[n - 2 - i], path[n - 1 - i]);
    }
    assert(connects(size, stones, back, b, a));
}

/// Two paths that meet make one.
pub proof fn lemma_joined_transitive(
    size: nat,
    stones: Set<Coordinates>,
    a: Node,
    b: Node,
    c: Node,
)
    requires
        joined(size, stones, a, b),
        joined(size, stones, b, c),
    ensures
        joined(size, stones, a, c),
{
    let p = choose|path: Seq<Node>| #[trigger] connects(size, stones, path, a, b);
    let q = choose|path: Seq<Node>| #[trigger] connects(size, stones, path, b, c);
    let n = p.len() as int;
    let path = p + q.subrange(1, q.len() as int);
    assert forall|i: int| 0 <= i < path.len() - 1 implies #[trigger] step(
        size,
        stones,
        path,
        i,
    ) by {
        if i < n - 1 {
            assert(step(size, stones, p, i));
        } else {
            assert(step(size, stones, q, i - (n - 1)));
        }
    }
    assert(connects(size, stones, path, a, c));
}

/// More stones join at least what fewer stones join.
pub proof fn lemma_joined_monotonic(
    size: nat,
    fewer: Set<Coordinates>,
    more: Set<Coordinates>,
    a: Node,
    b: Node,
)
    requires
        fewer.subset_of(more),
        joined(size, fewer, a, b),
    ensures
        joined(size, more, a, b),
{
    let path = choose|path: Seq<Node>| #[trigger] connects(size, fewer, path, a, b);
    assert forall|i: int| 0 <= i < path.len() - 1 implies #[trigger] step(
        size,
        more,
        path,
        i,
    ) by {
        assert(step(size, fewer, path, i));
    }
    assert(connects(size, more, path, a, b));
}

/// Without a stone, a node is joined to itself only.
pub proof fn lemma_joined_without_stones(size: nat, a: Node, b: Node)
    requires
        joined(size, Set::<Coordinates>::empty(), a, b),
    ensures
        a == b,
{
    let stones = Set::<Coordinates>::empty();
    let path = choose|path: Seq<Node>| #[trigger] connects(size, stones, path, a, b);
    if path.len() >= 2 {
        assert(step(size, stones, path, 0));
    }
}

/// A chain of stones that touches all three sides connects them: where a
/// stone on the side `x == 0` is joined to a stone on the side `y == 0` and to
/// a stone on the side `z == 0`, the stones span the board.
pub proof fn lemma_chain_spans(
    size: nat,
    stones: Set<Coordinates>,
    a: Coordinates,
    b: Coordinates,
    c: Coordinates,
)
    requires
        a.valid(size) && stones.contains(a) && a.on_side(Side::X),
        b.valid(size) && stones.contains(b) && b.on_side(Side::Y),
        c.valid(size) && stones.contains(c) && c.on_side(Side::Z),
        joined(size, stones, Node::Cell(a), Node::Cell(b)),
        joined(size, stones, Node::Cell(a), Node::Cell(c)),
    ensures
        spans(size, stones),
{
    let x = Node::Side(Side::X);
    let y = Node::Side(Side::Y);
    let z = Node::Side(Side::Z);
    lemma_joined_link(size, stones, x, Node::Cell(a));
    lemma_joined_link(size, stones, Node::Cell(b), y);
    lemma_joined_link(size, stones, Node::Cell(c), z);
    lemma_joined_transitive(size, stones, x, Node::Cell(a), Node::Cell(b));
    lemma_joined_transitive(size, stones, x, Node::Cell(b), y);
    lemma_joined_transitive(size, stones, x, Node::Cell(a), Node::Cell(c));
    lemma_joined_transitive(size, stones, x, Node::Cell(c), z);
}

/// Some stone lies on `side`.
pub open spec fn touches(size: nat, stones: Set<Coordinates>, side: Side) -> bool {
    exists|c: Coordinates| c.valid(size) && #[trigger] stones.contains(c) && c.on_side(side)
}

/// A path that leaves a side leaves it over a stone on that side.
proof fn lemma_leaves_side_over_stone(
    size: nat,
    stones: Set<Coordinates>,
    side: Side,
    other: Node,
)
    requires
        joined(size, stones, Node::Side(side), other),
        other != Node::Side(side),
    ensures
        touches(size, stones, side),
{
    let path = choose|path: Seq<Node>|
        #[trigger] connects(size, stones, path, Node::Side(side), other);
    assert(step(size, stones, path, 0));
    match path[1] {
        Node::Cell(c) => {
            assert(c.valid(size) && stones.contains(c) && c.on_side(side));
        },
        Node::Side(_) => {},
    }
}

/// Stones that connect the three sides touch each of them.
pub proof fn lemma_spans_touches_sides(size: nat, stones: Set<Coordinates>)
    requires
        spans(size, stones),
    ensures
        touches(size, stones, Side::X),
        touches(size, stones, Side::Y),
        touches(size, stones, Side::Z),
{
    let x = Node::Side(Side::X);
    let y = Node::Side(Side::Y);
    let z = Node::Side(Side::Z);
    lemma_joined_symmetric(size, stones, x, y);
    lemma_joined_symmetric(size, stones, x, z);
    lemma_leaves_side_over_stone(size, stones, Side::X, y);
    lemma_leaves_side_over_stone(size, stones, Side::Y, x);
    lemma_leaves_side_over_stone(size, stones, Side::Z, x);
}

/// `rep` gives linked nodes one representative.
pub open spec fn links_merged(size: nat, stones: Set<Coordinates>, rep: Seq<int>) -> bool {
    forall|a: Node, b: Node| #[trigger]
        linked(size, stones, a, b) ==> rep[a.id(size)] == rep[b.id(size)]
}

/// `rep` gives one representative only to nodes that are joined.
pub open spec fn sound(size: nat, stones: Set<Coordinates>, rep: Seq<int>) -> bool {
    forall|a: Node, b: Node|
        #![trigger joined(size, stones, a, b)]
        a.on_board(size) && b.on_board(size) && rep[a.id(size)] == rep[b.id(size)] ==> joined(
            size,
            stones,
            a,
            b,
        )
}

/// `rep` gives joined nodes one representative.
pub open spec fn complete(size: nat, stones: Set<Coordinates>, rep: Seq<int>) -> bool {
    forall|a: Node, b: Node|
        #![trigger joined(size, stones, a, b)]
        a.on_board(size) && b.on_board(size) && joined(size, stones, a, b) ==> rep[a.id(size)]
            == rep[b.id(size)]
}

/// Where linked nodes have one representative, the ends of a path have one.
proof fn lemma_path_merged(
    size: nat,
    stones: Set<Coordinates>,
    rep: Seq<int>,
    path: Seq<Node>,
    a: Node,
    b: Node,
)
    requires
        links_merged(size, stones, rep),
        connects(size, stones, path, a, b),
    ensures
        rep[a.id(size)] == rep[b.id(size)],
    decreases path.len(),
{
    if path.len() >= 2 {
        let shorter = path.drop_last();
        let m = shorter[shorter.len() - 1];
        assert forall|i: int| 0 <= i < shorter.len() - 1 implies #[trigger] step(
            size,
            stones,
            shorter,
            i,
        ) by {
            assert(step(size, stones, path, i));
        }
        assert(connects(size, stones, shorter, a, m));
        lemma_path_merged(size, stones, rep, shorter, a, m);
        assert(step(size, stones, path, path.len() - 2));
    }
}

/// Where linked nodes have one representative, joined nodes have one.
proof fn lemma_links_merged_complete(size: nat, stones: Set<Coordinates>, rep: Seq<int>)
    requires
        links_merged(size, stones, rep),
    ensures
        complete(size, stones, rep),
{
    assert forall|a: Node, b: Node|
        a.on_board(size) && b.on_board(size) && #[trigger] joined(
            size,
            stones,
            a,
            b,
        ) implies rep[a.id(size)] == rep[b.id(size)] by {
        let path = choose|path: Seq<Node>| #[trigger] connects(size, stones, path, a, b);
        lemma_path_merged(size, stones, rep, path, a, b);
    }
}

/// The stones merged the cell `c` with its neighbour in direction `dir`, if
/// that neighbour holds a stone.
spec fn neighbour_merged(
    size: nat,
    stones: Set<Coordinates>,
    rep: Seq<int>,
    c: Coordinates,
    dir: nat,
) -> bool {
    match c.neighbour_in(dir) {
        Some(d) => d.valid(size) && stones.contains(d) ==> rep[c.index(size)] == rep[d.index(
            size,
        )],
        None => true,
    }
}

/// What a `Connectivity` stands for: the side length of its board and the
/// cells that hold a stone of its player.
pub struct ConnectivityView {
    pub size: nat,
    pub stones: Set<Coordinates>,
}

/// The connections among the stones of one player.
pub struct Connectivity {
    size: u32,
    placed: Vec<bool>,
    sets: DisjointSets,
}

impl View for Connectivity {
    type V = ConnectivityView;

    closed spec fn view(&self) -> ConnectivityView {
        ConnectivityView {
            size: self.size as nat,
            stones: Set::new(
                |c: Coordinates|
                    c.valid(self.size as nat) && self.placed@[c.index(self.size as nat)],
            ),
        }
    }
}

impl Connectivity {
    /// The sizes of the parts fit the board.
    spec fn shaped(&self) -> bool {
        &&& self.size >= 1
        &&& self.placed@.len() == triangle(self.size as nat)
        &&& self.sets.wf()
        &&& self.sets@.len() == triangle(self.size as nat) + 3
    }

    /// The structure's invariant: two nodes are in one set exactly when the
    /// stones join them.
    pub closed spec fn wf(&self) -> bool {
        &&& self.shaped()
        &&& sound(self@.size, self@.stones, self.sets@)
        &&& complete(self@.size, self@.stones, self.sets@)
    }

    /// The connections on a board of side `size` without a stone.
    pub fn new(size: u32) -> (t: Connectivity)
        requires
            size >= 1,
            triangle(size as nat) <= usize::MAX,
        ensures
            t.wf(),
            t@.size == size,
            t@.stones == Set::<Coordinates>::empty(),
    {
        proof {
            lemma_room_for_three(size as nat);
        }
        let count: usize = cells_in_rows(size) as usize;
        let mut placed: Vec<bool> = Vec::new();
        let mut i: usize = 0;
        while i < count
            invariant
                i <= count,
                placed@.len() == i,
                forall|j: int| 0 <= j < i ==> !placed@[j],
            decreases count - i,
        {
            placed.push(false);
            i += 1;
        }
        let sets = DisjointSets::new(count + 3);
        let t = Connectivity { size, placed, sets };
        proof {
            let n = size as nat;
            let none = Set::<Coordinates>::empty();
            assert(t@.stones =~= none) by {
                assert forall|c: Coordinates| !t@.stones.contains(c) by {
                    if c.valid(n) {
                        c.lemma_index_in_range(n);
                    }
                }
            }
            assert forall|a: Node, b: Node|
                a.on_board(n) && b.on_board(n) && t.sets@[a.id(n)] == t.sets@[b.id(
                    n,
                )] implies #[trigger] joined(n, none, a, b) by {
                a.lemma_id_in_range(n);
                b.lemma_id_in_range(n);
                a.lemma_id_injective(b, n);
                lemma_joined_reflexive(n, none, a);
            }
            assert forall|a: Node, b: Node|
                a.on_board(n) && b.on_board(n) && #[trigger] joined(
                    n,
                    none,
                    a,
                    b,
                ) implies t.sets@[a.id(n)] == t.sets@[b.id(n)] by {
                lemma_joined_without_stones(n, a, b);
            }
        }
        t
    }

    /// The side length of the board.
    pub fn size(&self) -> (n: u32)
        ensures
            n == self@.size,
    {
        self.size
    }

    /// Whether the cell at `c` holds a stone.
    pub fn has_stone(&self, c: &Coordinates) -> (b: bool)
        requires
            self.wf(),
            c.valid(self@.size),
        ensures
            b == self@.stones.contains(*c),
    {
        let count: usize = self.placed.len();
        assert(triangle(self.size as nat) == count);
        let i: usize = c.to_index(self.size);
        self.placed[i]
    }

    /// Merges the sets of the nodes `a` and `b`, numbered `i` and `j`, which
    /// the stones join.
    fn link(&mut self, i: usize, j: usize, Ghost(a): Ghost<Node>, Ghost(b): Ghost<Node>)
        requires
            old(self).shaped(),
            a.on_board(old(self)@.size),
            b.on_board(old(self)@.size),
            i == a.id(old(self)@.size),
            j == b.id(old(self)@.size),
            joined(old(self)@.size, old(self)@.stones, a, b),
            sound(old(self)@.size, old(self)@.stones, old(self).sets@),
        ensures
            final(self).shaped(),
            final(self).size == old(self).size,
            final(self).placed == old(self).placed,
            sound(final(self)@.size, final(self)@.stones, final(self).sets@),
            final(self).sets@[i as int] == final(self).sets@[j as int],
            forall|x: int, y: int|
                #![trigger final(self).sets@[x], final(self).sets@[y]]
                0 <= x < old(self).sets@.len() && 0 <= y < old(self).sets@.len() && old(
                    self,
                ).sets@[x] == old(self).sets@[y] ==> final(self).sets@[x] == final(self).sets@[y],
    {
        let ghost size = self@.size;
        let ghost stones = self@.stones;
        let ghost before = self.sets@;
        proof {
            a.lemma_id_in_range(size);
            b.lemma_id_in_range(size);
        }
        self.sets.union(i, j);
        proof {
            let after = self.sets@;
            assert(after[i as int] == after[j as int]);
            assert forall|x: Node, y: Node|
                x.on_board(size) && y.on_board(size) && after[x.id(size)] == after[y.id(
                    size,
                )] implies #[trigger] joined(size, stones, x, y) by {
                x.lemma_id_in_range(size);
                y.lemma_id_in_range(size);
                let xi = x.id(size);
                let yi = y.id(size);
                assert(before[xi] != before[i as int] && before[xi] != before[j as int]
                    ==> after[xi] == before[xi]);
                assert(before[yi] != before[i as int] && before[yi] != before[j as int]
                    ==> after[yi] == before[yi]);
                if before[xi] == before[yi] {
                    assert(joined(size, stones, x, y));
                } else {
                    // both sets were merged by the call
                    let x_near = if before[xi] == before[i as int] {
                        a
                    } else {
                        b
                    };
                    let y_near = if before[yi] == before[i as int] {
                        a
                    } else {
                        b
                    };
                    assert(before[xi] == before[x_near.id(size)]);
                    assert(before[yi] == before[y_near.id(size)]);
                    assert(joined(size, stones, x, x_near));
                    assert(joined(size, stones, y_near, y));
                    lemma_joined_symmetric(size, stones, a, b);
                    lemma_joined_reflexive(size, stones, x_near);
                    assert(joined(size, stones, x_near, y_near));
                    lemma_joined_transitive(size, stones, x, x_near, y_near);
                    lemma_joined_transitive(size, stones, x, y_near, y);
                }
            }
        }
    }

    /// Records a stone at `c`, which may hold one already, and merges the
    /// cell with the sides it lies on and with its neighbours that hold a
    /// stone. Returns whether the stones now connect all three sides.
    pub fn place(&mut self, c: &Coordinates) -> (won: bool)
        requires
            old(self).wf(),
            c.valid(old(self)@.size),
        ensures
            final(self).wf(),
            final(self)@.size == old(self)@.size,
            final(self)@.stones == old(self)@.stones.insert(*c),
            won == spans(final(self)@.size, final(self)@.stones),
    {
        let size: u32 = self.size;
        let count: usize = self.placed.len();
        let total: usize = self.sets.len();
        assert(count + 3 == total);
        let ghost n = size as nat;
        let ghost fewer = self@.stones;
        let ghost more = fewer.insert(*c);
        let ghost rep0 = self.sets@;
        let ghost here = Node::Cell(*c);
        let i: usize = c.to_index(size);
        self.placed.set(i, true);
        proof {
            assert(self@.stones =~= more) by {
                assert forall|d: Coordinates| self@.stones.contains(d) == more.contains(d) by {
                    if d.valid(n) {
                        d.lemma_index_in_range(n);
                        if d.index(n) == c.index(n) {
                            d.lemma_index_injective(*c, n);
                        }
                    }
                }
            }
            assert forall|a: Node, b: Node|
                a.on_board(n) && b.on_board(n) && rep0[a.id(n)] == rep0[b.id(
                    n,
                )] implies #[trigger] joined(n, more, a, b) by {
                assert(joined(n, fewer, a, b));
                lemma_joined_monotonic(n, fewer, more, a, b);
            }
            lemma_joined_reflexive(n, more, here);
        }
        if c.touches(Side::X) {
            proof {
                lemma_joined_link(n, more, here, Node::Side(Side::X));
            }
            self.link(i, count, Ghost(here), Ghost(Node::Side(Side::X)));
        }
        if c.touches(Side::Y) {
            proof {
                lemma_joined_link(n, more, here, Node::Side(Side::Y));
            }
            self.link(i, count + 1, Ghost(here), Ghost(Node::Side(Side::Y)));
        }
        if c.touches(Side::Z) {
            proof {
                lemma_joined_link(n, more, here, Node::Side(Side::Z));
            }
            self.link(i, count + 2, Ghost(here), Ghost(Node::Side(Side::Z)));
        }
        let mut dir: u8 = 0;
        while dir < 6
            invariant
                dir <= 6,
                self.shaped(),
                self.size == size,
                n == size as nat,
                count == triangle(n),
                count + 3 == total,
                c.valid(n),
                i == c.index(n),
                i < count,
                here == Node::Cell(*c),
                self@.stones == more,
                more.contains(*c),
                rep0.len() == self.sets@.len(),
                sound(n, more, self.sets@),
                forall|x: int, y: int|
                    #![trigger self.sets@[x], self.sets@[y]]
                    0 <= x < rep0.len() && 0 <= y < rep0.len() && rep0[x] == rep0[y]
                        ==> self.sets@[x] == self.sets@[y],
                forall|s: Side|
                    c.on_side(s) ==> self.sets@[i as int] == #[trigger] self.sets@[Node::Side(
                        s,
                    ).id(n)],
                forall|k: nat| k < dir ==> #[trigger] neighbour_merged(n, more, self.sets@, *c, k),
            decreases 6 - dir,
        {
            let ghost rep1 = self.sets@;
            match c.neighbour(dir, size) {
                Some(d) => {
                    let j: usize = d.to_index(size);
                    if self.placed[j] {
                        proof {
                            lemma_joined_link(n, more, here, Node::Cell(d));
                        }
                        self.link(i, j, Ghost(here), Ghost(Node::Cell(d)));
                    }
                },
                None => {},
            }
            proof {
                let rep2 = self.sets@;
                assert(neighbour_merged(n, more, rep2, *c, dir as nat));
                assert forall|k: nat| k < dir implies #[trigger] neighbour_merged(
                    n,
                    more,
                    rep2,
                    *c,
                    k,
                ) by {
                    assert(neighbour_merged(n, more, rep1, *c, k));
                    if let Some(e) = c.neighbour_in(k) {
                        if e.valid(n) {
                            e.lemma_index_in_range(n);
                            assert(rep1[i as int] == rep1[e.index(n)] ==> rep2[i as int]
                                == rep2[e.index(n)]);
                        }
                    }
                }
                assert forall|s: Side| c.on_side(s) implies rep2[i as int] == #[trigger] rep2[Node::Side(
                    s,
                ).id(n)] by {
                    assert(rep1[i as int] == rep1[Node::Side(s).id(n)]);
                }
                assert forall|x: int, y: int|
                    #![trigger rep2[x], rep2[y]]
                    0 <= x < rep0.len() && 0 <= y < rep0.len() && rep0[x]
                        == rep0[y] implies rep2[x] == rep2[y] by {
                    assert(rep1[x] == rep1[y]);
                }
            }
            dir = dir + 1;
        }
        proof {
            let rep = self.sets@;
            assert forall|a: Node, b: Node| #[trigger] linked(n, more, a, b) implies rep[a.id(n)]
                == rep[b.id(n)] by {
                match (a, b) {
                    (Node::Cell(x), Node::Cell(y)) => {
                        if x == *c {
                            c.lemma_neighbour_complete(y, n);
                            let k = choose|k: nat| k < 6 && #[trigger] c.neighbour_in(k) == Some(y);
                            assert(neighbour_merged(n, more, rep, *c, k));
                        } else if y == *c {
                            x.lemma_adjacent_symmetric(y);
                            c.lemma_neighbour_complete(x, n);
                            let k = choose|k: nat| k < 6 && #[trigger] c.neighbour_in(k) == Some(x);
                            assert(neighbour_merged(n, more, rep, *c, k));
                        }
                    },
                    (Node::Cell(x), Node::Side(s)) => {
                        if x == *c {
                            assert(rep[i as int] == rep[Node::Side(s).id(n)]);
                        }
                    },
                    (Node::Side(s), Node::Cell(x)) => {
                        if x == *c {
                            assert(rep[i as int] == rep[Node::Side(s).id(n)]);
                        }
                    },
                    (Node::Side(_), Node::Side(_)) => {},
                }
                if linked(n, fewer, a, b) {
                    lemma_joined_link(n, fewer, a, b);
                    a.lemma_id_in_range(n);
                    b.lemma_id_in_range(n);
                    assert(rep0[a.id(n)] == rep0[b.id(n)]);
                    assert(rep[a.id(n)] == rep[b.id(n)]);
                }
            }
            lemma_links_merged_complete(n, more, rep);
        }
        self.joins_sides()
    }

    /// Whether the stones connect all three sides.
    pub fn joins_sides(&mut self) -> (won: bool)
        requires
            old(self).wf(),
        ensures
            final(self).wf(),
            final(self)@ == old(self)@,
            won == spans(old(self)@.size, old(self)@.stones),
    {
        let count: usize = self.placed.len();
        let total: usize = self.sets.len();
        assert(count + 3 == total);
        let xy: bool = self.sets.same_set(count, count + 1);
        let xz: bool = self.sets.same_set(count, count + 2);
        proof {
            let n = self@.size;
            let x = Node::Side(Side::X);
            let y = Node::Side(Side::Y);
            let z = Node::Side(Side::Z);
            assert(xy == joined(n, self@.stones, x, y));
            assert(xz == joined(n, self@.stones, x, z));
        }
        xy && xz
    }
}

} // verus!
