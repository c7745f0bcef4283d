//! The vertices of a Voronoi DCEL that take part in map generation, and
//! their classification into edge and interior vertices.
//!
//! A vertex is kept when it lies inside the map extents and is not a boundary
//! vertex of the DCEL.  A kept vertex with fewer than three kept neighbours is
//! an edge vertex; the others are interior vertices.  Whether a vertex lies
//! inside the extents is given per vertex index by the caller.
use vstd::prelude::*;
use crate::dcel::{Dcel, HalfEdge, Vertex, in_range, lemma_closed_scan_cycles};

verus! {

/// The two classes of kept vertices.
#[derive(Clone, Copy, PartialEq, Eq, Debug, Structural)]
pub enum VertexType {
    /// Fewer than three kept neighbours: near the edge of the map.
    Edge,
    /// At least three kept neighbours.
    Interior,
}

/// Whether vertex `i` is kept: inside the extents and not a boundary vertex.
pub open spec fn kept<P: Copy>(d: &Dcel<P>, inside: Seq<bool>, i: int) -> bool {
    inside[i] && !d.boundary_vertex(d.vertices@[i])
}

/// The kept vertex indices below `k`, in increasing order.
pub open spec fn kept_indices<P: Copy>(d: &Dcel<P>, inside: Seq<bool>, k: nat) -> Seq<int>
    decreases k,
{
    if k == 0 {
        Seq::empty()
    } else {
        let before = kept_indices(d, inside, (k - 1) as nat);
        if kept(d, inside, k - 1) {
            before.push(k - 1)
        } else {
            before
        }
    }
}

/// The vertex index at which the twin of `h` starts: the neighbour along `h`.
pub open spec fn neighbour_index<P: Copy>(d: &Dcel<P>, h: HalfEdge) -> int {
    d.edge_at(h.twin).origin.id as int
}

/// How many of the first `k` neighbours in the rotation from `h0` are kept.
pub open spec fn kept_neighbour_count<P: Copy>(
    d: &Dcel<P>,
    inside: Seq<bool>,
    h0: HalfEdge,
    k: nat,
) -> nat
    decreases k,
{
    if k == 0 {
        0
    } else {
        let before = kept_neighbour_count(d, inside, h0, (k - 1) as nat);
        if kept(d, inside, neighbour_index(d, d.spoke_walk(h0, (k - 1) as nat))) {
            before + 1
        } else {
            before
        }
    }
}

/// The vertex that the `j`-th half-edge of the rotation from `h0` leads to
/// is inside the extents and not on the boundary.
spec fn leads_to_kept<P: Copy>(d: &Dcel<P>, inside: Seq<bool>, h0: HalfEdge, j: nat) -> bool {
    let x = d.edge_at(d.spoke_walk(h0, j).twin).origin.id as int;
    inside[x] && !d.boundary_vertex(d.vertices@[x])
}

/// At least one, two or three of the first `k` neighbours are kept exactly
/// when that many distinct positions among them lead to kept vertices.
proof fn lemma_kept_count_positions<P: Copy>(d: &Dcel<P>, inside: Seq<bool>, h0: HalfEdge, k: nat)
    ensures
        (kept_neighbour_count(d, inside, h0, k) >= 1) == (exists|a: nat| a < k && #[trigger] leads_to_kept(d, inside, h0, a)),
        (kept_neighbour_count(d, inside, h0, k) >= 2) == (exists|a: nat, b: nat|
            a < b < k && #[trigger] leads_to_kept(d, inside, h0, a) && #[trigger] leads_to_kept(d, inside, h0, b)),
        (kept_neighbour_count(d, inside, h0, k) >= 3) == (exists|a: nat, b: nat, c: nat|
            a < b < c < k && #[trigger] leads_to_kept(d, inside, h0, a) && #[trigger] leads_to_kept(d, inside, h0, b)
                && #[trigger] leads_to_kept(d, inside, h0, c)),
    decreases k,
{
    if k > 0 {
        let j = (k - 1) as nat;
        lemma_kept_count_positions(d, inside, h0, j);
        let kj = leads_to_kept(d, inside, h0, j);
        assert(kj == kept(d, inside, neighbour_index(d, d.spoke_walk(h0, j))));
        if exists|a: nat| a < k && #[trigger] leads_to_kept(d, inside, h0, a) {
            let a = choose|a: nat| a < k && #[trigger] leads_to_kept(d, inside, h0, a);
            if a < j {
                assert(leads_to_kept(d, inside, h0, a));
            }
        }
        if exists|a: nat, b: nat| a < b < k && #[trigger] leads_to_kept(d, inside, h0, a) && #[trigger] leads_to_kept(d, inside, h0, b) {
            let (a, b) = choose|a: nat, b: nat|
                a < b < k && #[trigger] leads_to_kept(d, inside, h0, a) && #[trigger] leads_to_kept(d, inside, h0, b);
            assert(leads_to_kept(d, inside, h0, a));
            if b < j {
                assert(leads_to_kept(d, inside, h0, b));
            }
        }
        if exists|a: nat, b: nat, c: nat|
            a < b < c < k && #[trigger] leads_to_kept(d, inside, h0, a) && #[trigger] leads_to_kept(d, inside, h0, b)
                && #[trigger] leads_to_kept(d, inside, h0, c) {
            let (a, b, c) = choose|a: nat, b: nat, c: nat|
                a < b < c < k && #[trigger] leads_to_kept(d, inside, h0, a) && #[trigger] leads_to_kept(d, inside, h0, b)
                    && #[trigger] leads_to_kept(d, inside, h0, c);
            assert(leads_to_kept(d, inside, h0, a) && leads_to_kept(d, inside, h0, b));
            if c < j {
                assert(leads_to_kept(d, inside, h0, c));
            }
        }
        if kj {
            if kept_neighbour_count(d, inside, h0, j) >= 1 {
                let a = choose|a: nat| a < j && #[trigger] leads_to_kept(d, inside, h0, a);
                assert(a < j && j < k && leads_to_kept(d, inside, h0, a) && leads_to_kept(d, inside, h0, j));
            }
            if kept_neighbour_count(d, inside, h0, j) >= 2 {
                let (a, b) = choose|a: nat, b: nat|
                    a < b < j && #[trigger] leads_to_kept(d, inside, h0, a) && #[trigger] leads_to_kept(d, inside, h0, b);
                assert(a < b && b < j && leads_to_kept(d, inside, h0, a) && leads_to_kept(d, inside, h0, b)
                    && leads_to_kept(d, inside, h0, j));
            }
        }
    }
}

/// A vertex is of class `Interior` exactly when at least three of the
/// vertices around it (in one turn of its rotation) are kept: inside the
/// extents and not on the boundary.  In particular a vertex with fewer than
/// three such neighbours, such as one whose neighbours all lie outside the
/// extents, is an `Edge` vertex.
pub proof fn lemma_interior_has_three_kept_neighbours<P: Copy>(d: &Dcel<P>, inside: Seq<bool>, i: int, n: nat)
    requires
        0 <= i < d.vertices@.len(),
        d.spoke_cycle(d.edge_at(d.vertices@[i].incident_edge), n),
    ensures
        (vertex_type_of(d, inside, i) == VertexType::Interior) == (exists|a: nat, b: nat, c: nat|
            #![trigger d.spoke_walk(d.edge_at(d.vertices@[i].incident_edge), a), d.spoke_walk(d.edge_at(d.vertices@[i].incident_edge), b), d.spoke_walk(d.edge_at(d.vertices@[i].incident_edge), c)]
            {
                let h0 = d.edge_at(d.vertices@[i].incident_edge);
                let xa = d.edge_at(d.spoke_walk(h0, a).twin).origin.id as int;
                let xb = d.edge_at(d.spoke_walk(h0, b).twin).origin.id as int;
                let xc = d.edge_at(d.spoke_walk(h0, c).twin).origin.id as int;
                &&& a < b < c < n
                &&& inside[xa] && !d.boundary_vertex(d.vertices@[xa])
                &&& inside[xb] && !d.boundary_vertex(d.vertices@[xb])
                &&& inside[xc] && !d.boundary_vertex(d.vertices@[xc])
            }),
{
    let h0 = d.edge_at(d.vertices@[i].incident_edge);
    crate::dcel::lemma_spoke_cycle_unique(d, h0, n);
    lemma_kept_count_positions(d, inside, h0, n);
    if exists|a: nat, b: nat, c: nat|
        #![trigger d.spoke_walk(h0, a), d.spoke_walk(h0, b), d.spoke_walk(h0, c)]
        {
            let xa = d.edge_at(d.spoke_walk(h0, a).twin).origin.id as int;
            let xb = d.edge_at(d.spoke_walk(h0, b).twin).origin.id as int;
            let xc = d.edge_at(d.spoke_walk(h0, c).twin).origin.id as int;
            &&& a < b < c < n
            &&& inside[xa] && !d.boundary_vertex(d.vertices@[xa])
            &&& inside[xb] && !d.boundary_vertex(d.vertices@[xb])
            &&& inside[xc] && !d.boundary_vertex(d.vertices@[xc])
        } {
        let (a, b, c) = choose|a: nat, b: nat, c: nat|
            #![trigger d.spoke_walk(h0, a), d.spoke_walk(h0, b), d.spoke_walk(h0, c)]
            {
                let xa = d.edge_at(d.spoke_walk(h0, a).twin).origin.id as int;
                let xb = d.edge_at(d.spoke_walk(h0, b).twin).origin.id as int;
                let xc = d.edge_at(d.spoke_walk(h0, c).twin).origin.id as int;
                &&& a < b < c < n
                &&& inside[xa] && !d.boundary_vertex(d.vertices@[xa])
                &&& inside[xb] && !d.boundary_vertex(d.vertices@[xb])
                &&& inside[xc] && !d.boundary_vertex(d.vertices@[xc])
            };
        assert(leads_to_kept(d, inside, h0, a) && leads_to_kept(d, inside, h0, b) && leads_to_kept(d, inside, h0, c));
    }
    if kept_neighbour_count(d, inside, h0, n) >= 3 {
        let (a, b, c) = choose|a: nat, b: nat, c: nat|
            a < b < c < n && #[trigger] leads_to_kept(d, inside, h0, a) && #[trigger] leads_to_kept(d, inside, h0, b)
                && #[trigger] leads_to_kept(d, inside, h0, c);
        assert(leads_to_kept(d, inside, h0, a) && leads_to_kept(d, inside, h0, b) && leads_to_kept(d, inside, h0, c));
    }
}

/// The class of kept vertex `i`: edge when fewer than three of the vertices
/// around it are kept.
pub open spec fn vertex_type_of<P: Copy>(d: &Dcel<P>, inside: Seq<bool>, i: int) -> VertexType {
    let h0 = d.edge_at(d.vertices@[i].incident_edge);
    let n = choose|n: nat| d.spoke_cycle(h0, n);
    if kept_neighbour_count(d, inside, h0, n) < 3 {
        VertexType::Edge
    } else {
        VertexType::Interior
    }
}

/// The kept vertices below `k` of class `t`, in index order.
pub open spec fn kept_of_type<P: Copy>(d: &Dcel<P>, inside: Seq<bool>, k: nat, t: VertexType) -> Seq<
    Vertex<P>,
>
    decreases k,
{
    if k == 0 {
        Seq::empty()
    } else {
        let before = kept_of_type(d, inside, (k - 1) as nat, t);
        if kept(d, inside, k - 1) && vertex_type_of(d, inside, k - 1) == t {
            before.push(d.vertices@[k - 1])
        } else {
            before
        }
    }
}

/// The kept vertices of a DCEL with their classes and a lookup from vertex id
/// to position among the kept vertices.
pub struct VertexMap<P> {
    /// The kept vertices, in vertex index order.
    pub vertices: Vec<Vertex<P>>,
    /// The kept vertices of class `Edge`.
    pub edge: Vec<Vertex<P>>,
    /// The kept vertices of class `Interior`.
    pub interior: Vec<Vertex<P>>,
    vertex_id_to_map_index: Vec<i32>,
    vertex_types: Vec<VertexType>,
}

impl<P: Copy> VertexMap<P> {
    /// For each DCEL vertex id, its position among the kept vertices or `-1`.
    pub closed spec fn index_table(&self) -> Seq<i32> {
        self.vertex_id_to_map_index@
    }

    /// The class of each kept vertex, by position.
    pub closed spec fn types(&self) -> Seq<VertexType> {
        self.vertex_types@
    }

    /// The kept vertices.
    pub closed spec fn kept_vertices(&self) -> Seq<Vertex<P>> {
        self.vertices@
    }

    /// The kept vertices of class `Edge`.
    pub closed spec fn edge_vertices(&self) -> Seq<Vertex<P>> {
        self.edge@
    }

    /// The kept vertices of class `Interior`.
    pub closed spec fn interior_vertices(&self) -> Seq<Vertex<P>> {
        self.interior@
    }

    /// Every table entry is `-1` or a position of a kept vertex.
    pub closed spec fn wf(&self) -> bool {
        &&& self.vertex_types@.len() == self.vertices@.len()
        &&& forall|j: int|
            0 <= j < self.vertex_id_to_map_index@.len() ==> {
                ||| #[trigger] self.vertex_id_to_map_index@[j] == -1
                ||| 0 <= self.vertex_id_to_map_index@[j] < self.vertex_types@.len()
            }
    }

    /// In a well-formed map every table entry is `-1` or the position of a
    /// kept vertex, and the kept vertices are those of the `vertices` field.
    pub proof fn lemma_index_in_range(&self)
        requires
            self.wf(),
        ensures
            forall|j: int|
                #[trigger] self.index_at(j) == -1 || 0 <= self.index_at(j) < self.kept_vertices().len(),
    {
    }

    /// The kept vertex at position `i`.
    pub fn kept_vertex(&self, i: usize) -> (v: Vertex<P>)
        requires
            i < self.kept_vertices().len(),
        ensures
            v == self.kept_vertices()[i as int],
    {
        self.vertices[i]
    }

    /// A map with no vertices.
    pub fn new_empty() -> (m: Self)
        ensures
            m.wf(),
            m.kept_vertices().len() == 0,
            m.edge_vertices().len() == 0,
            m.interior_vertices().len() == 0,
            m.index_table().len() == 0,
    {
        VertexMap {
            vertices: Vec::new(),
            edge: Vec::new(),
            interior: Vec::new(),
            vertex_id_to_map_index: Vec::new(),
            vertex_types: Vec::new(),
        }
    }

    /// Keeps the vertices of `dcel` that are inside (`inside[i]` for vertex
    /// index `i`) and not boundary vertices, and classifies them.
    pub fn new(dcel: &Dcel<P>, inside: &Vec<bool>) -> (m: Self)
        requires
            dcel.well_linked(),
            inside@.len() == dcel.vertices@.len(),
            dcel.vertices@.len() <= i32::MAX,
        ensures
            m.wf(),
            m.kept_vertices() == kept_indices(dcel, inside@, dcel.vertices@.len()).map_values(
                |i: int| dcel.vertices@[i],
            ),
            m.types() == kept_indices(dcel, inside@, dcel.vertices@.len()).map_values(
                |i: int| vertex_type_of(dcel, inside@, i),
            ),
            m.edge_vertices() == kept_of_type(dcel, inside@, dcel.vertices@.len(), VertexType::Edge),
            m.interior_vertices() == kept_of_type(
                dcel,
                inside@,
                dcel.vertices@.len(),
                VertexType::Interior,
            ),
            m.index_table().len() == dcel.vertices@.len(),
            forall|j: int|
                0 <= j < dcel.vertices@.len() ==> #[trigger] m.index_table()[j] == if kept(
                    dcel,
                    inside@,
                    j,
                ) {
                    kept_indices(dcel, inside@, j as nat).len() as i32
                } else {
                    -1i32
                },
    {
        let n = dcel.vertices.len();
        let mut vertex_id_to_map_index: Vec<i32> = Vec::new();
        let mut j: usize = 0;
        while j < n
            invariant
                j <= n,
                vertex_id_to_map_index@.len() == j,
                forall|t: int| 0 <= t < j ==> vertex_id_to_map_index@[t] == -1,
            decreases n - j,
        {
            vertex_id_to_map_index.push(-1);
            j = j + 1;
        }
        let mut vertices: Vec<Vertex<P>> = Vec::new();
        let mut edge: Vec<Vertex<P>> = Vec::new();
        let mut interior: Vec<Vertex<P>> = Vec::new();
        let mut vertex_types: Vec<VertexType> = Vec::new();
        let ghost ins = inside@;
        let mut i: usize = 0;
        while i < n
            invariant
                dcel.well_linked(),
                n == dcel.vertices@.len(),
                n <= i32::MAX,
                ins == inside@,
                inside@.len() == n,
                i <= n,
                vertices@ == kept_indices(dcel, ins, i as nat).map_values(|t: int| dcel.vertices@[t]),
                vertex_types@ == kept_indices(dcel, ins, i as nat).map_values(
                    |t: int| vertex_type_of(dcel, ins, t),
                ),
                edge@ == kept_of_type(dcel, ins, i as nat, VertexType::Edge),
                interior@ == kept_of_type(dcel, ins, i as nat, VertexType::Interior),
                kept_indices(dcel, ins, i as nat).len() <= i,
                vertex_id_to_map_index@.len() == n,
                forall|t: int|
                    0 <= t < n ==> #[trigger] vertex_id_to_map_index@[t] == if t < i && kept(
                        dcel,
                        ins,
                        t,
                    ) {
                        kept_indices(dcel, ins, t as nat).len() as i32
                    } else {
                        -1i32
                    },
            decreases n - i,
        {
            let v = dcel.vertices[i];
            assert(v.id.id == i);
            if !inside[i] || dcel.is_boundary_vertex_check(v) {
                assert(!kept(dcel, ins, i as int));
                assert(kept_indices(dcel, ins, (i + 1) as nat) == kept_indices(dcel, ins, i as nat));
            } else {
                assert(kept(dcel, ins, i as int));
                let ghost before = kept_indices(dcel, ins, i as nat);
                vertices.push(v);
                vertex_id_to_map_index.set(v.id.id as usize, (vertices.len() - 1) as i32);
                let vtype = get_vertex_type(dcel, inside, v);
                vertex_types.push(vtype);
                match vtype {
                    VertexType::Interior => interior.push(v),
                    VertexType::Edge => edge.push(v),
                }
                assert(kept_indices(dcel, ins, (i + 1) as nat) == before.push(i as int));
                assert(vertices@ =~= kept_indices(dcel, ins, (i + 1) as nat).map_values(
                    |t: int| dcel.vertices@[t],
                ));
                assert(vertex_types@ =~= kept_indices(dcel, ins, (i + 1) as nat).map_values(
                    |t: int| vertex_type_of(dcel, ins, t),
                ));
            }
            i = i + 1;
        }
        let m = VertexMap { vertices, edge, interior, vertex_id_to_map_index, vertex_types };
        proof {
            assert forall|t: int|
                0 <= t < m.vertex_id_to_map_index@.len() implies {
                ||| #[trigger] m.vertex_id_to_map_index@[t] == -1
                ||| 0 <= m.vertex_id_to_map_index@[t] < m.vertex_types@.len()
            } by {
                if kept(dcel, ins, t) {
                    lemma_kept_indices_grow(dcel, ins, (t + 1) as nat, n as nat);
                }
            }
        }
        m
    }

    /// The number of kept vertices.
    pub fn size(&self) -> (s: usize)
        ensures
            s == self.kept_vertices().len(),
    {
        self.vertices.len()
    }

    /// The position of `v` among the kept vertices, by its id; `-1` when the
    /// id is out of the table or the vertex is not kept.
    pub fn get_vertex_index(&self, v: Vertex<P>) -> (r: i32)
        ensures
            r == self.index_at(v.id.id as int),
    {
        if v.id.id < 0 || v.id.id as usize >= self.vertex_id_to_map_index.len() {
            return -1;
        }
        self.vertex_id_to_map_index[v.id.id as usize]
    }

    /// The table entry for vertex id `id`, or `-1` outside the table.
    pub open spec fn index_at(&self, id: int) -> i32 {
        if 0 <= id < self.index_table().len() {
            self.index_table()[id]
        } else {
            -1i32
        }
    }

    /// The position of the vertex with id `id` among the kept vertices; `-1`
    /// when the id is out of the table or the vertex is not kept.
    pub fn get_vertex_index_by_id(&self, id: i32) -> (r: i32)
        ensures
            r == self.index_at(id as int),
    {
        if id < 0 || id as usize >= self.vertex_id_to_map_index.len() {
            return -1;
        }
        self.vertex_id_to_map_index[id as usize]
    }

    /// Whether `v` is one of the kept vertices.
    pub fn is_vertex(&self, v: Vertex<P>) -> (b: bool)
        ensures
            b == (self.index_at(v.id.id as int) != -1),
    {
        self.get_vertex_index(v) != -1
    }

    /// Whether `v` is a kept vertex of class `Edge`.
    pub fn is_edge_vertex(&self, v: Vertex<P>) -> (b: bool)
        requires
            self.wf(),
        ensures
            b == (self.index_at(v.id.id as int) >= 0 && self.types()[self.index_at(
                v.id.id as int,
            ) as int] == VertexType::Edge),
    {
        let idx = self.get_vertex_index(v);
        if idx < 0 {
            return false;
        }
        self.vertex_types[idx as usize] == VertexType::Edge
    }

    /// Whether `v` is a kept vertex of class `Interior`.
    pub fn is_interior_vertex(&self, v: Vertex<P>) -> (b: bool)
        requires
            self.wf(),
        ensures
            b == (self.index_at(v.id.id as int) >= 0 && self.types()[self.index_at(
                v.id.id as int,
            ) as int] == VertexType::Interior),
    {
        let idx = self.get_vertex_index(v);
        if idx < 0 {
            return false;
        }
        self.vertex_types[idx as usize] == VertexType::Interior
    }

    /// The positions of the kept neighbours of `v`, in rotation order from its
    /// incident edge.
    pub fn get_neighbour_indices(&self, dcel: &Dcel<P>, v: Vertex<P>) -> (r: Vec<usize>)
        requires
            v.incident_edge.id >= 0 ==> {
                &&& in_range(v.incident_edge, dcel.edges@.len())
                &&& dcel.well_linked()
                &&& exists|n: nat| dcel.spoke_cycle(dcel.edge_at(v.incident_edge), n)
            },
        ensures
            v.incident_edge.id < 0 ==> r@.len() == 0,
            v.incident_edge.id >= 0 ==> forall|n: nat|
                dcel.spoke_cycle(dcel.edge_at(v.incident_edge), n) ==> r@ == self.kept_neighbours(
                    dcel,
                    dcel.edge_at(v.incident_edge),
                    n,
                ),
    {
        let mut nbs: Vec<usize> = Vec::new();
        if !v.incident_edge.is_valid() {
            return nbs;
        }
        let ghost h0 = dcel.edge_at(v.incident_edge);
        let ghost n = choose|n: nat| dcel.spoke_cycle(h0, n);
        proof {
            crate::dcel::lemma_spoke_cycle_unique(dcel, h0, n);
        }
        let first = dcel.incident_edge(v);
        let start = first.id;
        let mut h = first;
        let ghost mut k: nat = 0;
        loop
            invariant
                dcel.well_linked(),
                dcel.spoke_cycle(h0, n),
                forall|m: nat| dcel.spoke_cycle(h0, m) ==> m == n,
                h0 == first,
                h0 == dcel.edge_at(v.incident_edge),
                v.incident_edge.id >= 0,
                start == h0.id,
                k < n,
                h == dcel.spoke_walk(h0, k),
                nbs@ == self.kept_neighbours(dcel, h0, k),
            decreases n - k,
        {
            assert(in_range(dcel.spoke_walk(h0, k).twin, dcel.edges@.len()));
            let tw = dcel.twin(h);
            assert(in_range(dcel.edges@[h.twin.id as int].origin, dcel.vertices@.len()));
            let nb = dcel.origin(tw);
            if self.is_vertex(nb) {
                let idx = self.get_vertex_index(nb);
                if idx >= 0 {
                    nbs.push(idx as usize);
                }
            }
            assert(nbs@ == self.kept_neighbours(dcel, h0, k + 1));
            h = dcel.next(tw);
            assert(h == dcel.spoke_walk(h0, k + 1));
            if h.id == start {
                return nbs;
            }
            proof {
                k = k + 1;
            }
        }
    }

    /// The table positions of the first `k` neighbours in the rotation from
    /// `h0` that have a position.
    pub open spec fn kept_neighbours(&self, d: &Dcel<P>, h0: HalfEdge, k: nat) -> Seq<usize>
        decreases k,
    {
        if k == 0 {
            Seq::empty()
        } else {
            let before = self.kept_neighbours(d, h0, (k - 1) as nat);
            let nb = d.vertices@[neighbour_index(d, d.spoke_walk(h0, (k - 1) as nat))];
            let idx = self.index_at(nb.id.id as int);
            if idx >= 0 {
                before.push(idx as usize)
            } else {
                before
            }
        }
    }
}

/// The number of kept indices only grows with the bound, and stays below it.
proof fn lemma_kept_indices_grow<P: Copy>(d: &Dcel<P>, inside: Seq<bool>, a: nat, b: nat)
    requires
        a <= b,
    ensures
        kept_indices(d, inside, a).len() <= kept_indices(d, inside, b).len(),
        kept_indices(d, inside, b).len() <= b,
    decreases b,
{
    if b > 0 {
        if a < b {
            lemma_kept_indices_grow(d, inside, a, (b - 1) as nat);
        } else {
            lemma_kept_indices_grow(d, inside, (b - 1) as nat, (b - 1) as nat);
        }
    }
}

/// Classifies kept vertex `v` by counting the kept vertices around it.
fn get_vertex_type<P: Copy>(dcel: &Dcel<P>, inside: &Vec<bool>, v: Vertex<P>) -> (t: VertexType)
    requires
        dcel.well_linked(),
        inside@.len() == dcel.vertices@.len(),
        0 <= v.id.id < dcel.vertices@.len(),
        dcel.vertices@[v.id.id as int] == v,
        !dcel.boundary_vertex(v),
    ensures
        t == vertex_type_of(dcel, inside@, v.id.id as int),
{
    let ghost h0 = dcel.edge_at(v.incident_edge);
    proof {
        assert(dcel.edges@[v.incident_edge.id as int] == h0);
        lemma_closed_scan_cycles(dcel, h0, 0);
    }
    let ghost n = choose|n: nat| dcel.spoke_cycle(h0, n);
    proof {
        crate::dcel::lemma_spoke_cycle_unique(dcel, h0, n);
    }
    let first = dcel.incident_edge(v);
    let start = first.id;
    let mut h = first;
    let mut ncount: usize = 0;
    let ghost mut k: nat = 0;
    loop
        invariant
            dcel.well_linked(),
            inside@.len() == dcel.vertices@.len(),
            dcel.spoke_cycle(h0, n),
            n <= 1001,
            forall|m: nat| dcel.spoke_cycle(h0, m) ==> m == n,
            h0 == first,
            h0 == dcel.edge_at(dcel.vertices@[v.id.id as int].incident_edge),
            0 <= v.id.id < dcel.vertices@.len(),
            start == h0.id,
            k < n,
            h == dcel.spoke_walk(h0, k),
            ncount == kept_neighbour_count(dcel, inside@, h0, k),
            ncount <= k,
        decreases n - k,
    {
        assert(in_range(dcel.spoke_walk(h0, k).twin, dcel.edges@.len()));
        let tw = dcel.twin(h);
        assert(in_range(dcel.edges@[h.twin.id as int].origin, dcel.vertices@.len()));
        let nb = dcel.origin(tw);
        let oi = tw.origin.id as usize;
        assert(nb.id.id == oi);
        assert(oi as int == neighbour_index(dcel, dcel.spoke_walk(h0, k)));
        if inside[oi] && !dcel.is_boundary_vertex_check(nb) {
            ncount += 1;
        }
        h = dcel.next(tw);
        assert(h == dcel.spoke_walk(h0, k + 1));
        if h.id == start {
            assert(k + 1 == n);
            if ncount < 3 {
                return VertexType::Edge;
            } else {
                return VertexType::Interior;
            }
        }
        proof {
            k = k + 1;
        }
    }
}

} // verus!
