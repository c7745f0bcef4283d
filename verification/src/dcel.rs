//! Doubly connected edge list (DCEL).
//!
//! A DCEL stores a planar subdivision as vertices, half-edges and faces that
//! refer to one another by integer index.  An index of `-1` is the null
//! reference.  Each vertex carries a position of type `P`; the topology never
//! looks at it.
use vstd::prelude::*;

verus! {

/// A reference to a vertex, half-edge or face by index; negative means none.
#[derive(Clone, Copy, Debug, Default, PartialEq, Eq, Structural)]
pub struct Ref {
    pub id: i32,
}

impl Ref {
    /// A reference to the element with index `id`.
    pub fn new(id: i32) -> (r: Self)
        ensures
            r.id == id,
    {
        Ref { id }
    }

    /// The null reference, `-1`.
    pub fn invalid() -> (r: Self)
        ensures
            r.id == -1,
    {
        Ref { id: -1 }
    }

    /// Whether the reference names an element (its index is not negative).
    pub fn is_valid(&self) -> (b: bool)
        ensures
            b == (self.id >= 0),
    {
        self.id >= 0
    }
}

/// The null reference.
pub open spec fn null_ref() -> Ref {
    Ref { id: -1i32 }
}

/// One of the two directed halves of an edge.
#[derive(Clone, Copy, Debug, Default)]
pub struct HalfEdge {
    /// Vertex the half-edge starts at.
    pub origin: Ref,
    /// The opposite half of the same edge.
    pub twin: Ref,
    /// Face to the left of the half-edge; `-1` on the boundary.
    pub incident_face: Ref,
    /// Next half-edge along the face boundary.
    pub next: Ref,
    /// Previous half-edge along the face boundary.
    pub prev: Ref,
    /// The half-edge's own index.
    pub id: Ref,
}

impl HalfEdge {
    /// A half-edge whose references are all null.
    pub fn new() -> (e: Self)
        ensures
            e == blank_half_edge(),
    {
        HalfEdge {
            origin: Ref::invalid(),
            twin: Ref::invalid(),
            incident_face: Ref::invalid(),
            next: Ref::invalid(),
            prev: Ref::invalid(),
            id: Ref::invalid(),
        }
    }
}

/// The half-edge with every reference null.
pub open spec fn blank_half_edge() -> HalfEdge {
    HalfEdge {
        origin: null_ref(),
        twin: null_ref(),
        incident_face: null_ref(),
        next: null_ref(),
        prev: null_ref(),
        id: null_ref(),
    }
}

/// A face of the subdivision.
#[derive(Clone, Copy, Debug, Default)]
pub struct Face {
    /// Some half-edge on the face's outer boundary.
    pub outer_component: Ref,
    /// The face's own index.
    pub id: Ref,
}

impl Face {
    /// A face whose references are null.
    pub fn new() -> (f: Self)
        ensures
            f == blank_face(),
    {
        Face { outer_component: Ref::invalid(), id: Ref::invalid() }
    }
}

/// The face with both references null.
pub open spec fn blank_face() -> Face {
    Face { outer_component: null_ref(), id: null_ref() }
}

/// A vertex with its position.
#[derive(Clone, Copy, Debug, Default)]
pub struct Vertex<P> {
    /// Where the vertex lies.
    pub position: P,
    /// Some half-edge that starts at this vertex.
    pub incident_edge: Ref,
    /// The vertex's own index.
    pub id: Ref,
}

impl<P: Copy> Vertex<P> {
    /// A vertex at `position` with null references.
    pub fn new(position: P) -> (v: Self)
        ensures
            v == blank_vertex(position),
    {
        Vertex { position, incident_edge: Ref::invalid(), id: Ref::invalid() }
    }
}

/// The vertex at `position` with null references.
pub open spec fn blank_vertex<P>(position: P) -> Vertex<P> {
    Vertex { position, incident_edge: null_ref(), id: null_ref() }
}

/// Whether `r` indexes one of `n` elements.
pub open spec fn in_range(r: Ref, n: nat) -> bool {
    0 <= r.id < n
}

/// Whether `r` is either null (negative) or indexes one of `n` elements.
pub open spec fn null_or_in_range(r: Ref, n: nat) -> bool {
    r.id < 0 || r.id < n
}

/// Whether `r` is the null reference `-1` or indexes one of `n` elements.
pub open spec fn face_ref_ok(r: Ref, n: nat) -> bool {
    r.id == -1 || in_range(r, n)
}

/// The doubly connected edge list.
#[derive(Clone, Debug, Default)]
pub struct Dcel<P> {
    pub vertices: Vec<Vertex<P>>,
    pub edges: Vec<HalfEdge>,
    pub faces: Vec<Face>,
}

impl<P: Copy> Dcel<P> {
    /// The half-edge that `r` indexes.
    pub open spec fn edge_at(&self, r: Ref) -> HalfEdge {
        self.edges@[r.id as int]
    }

    /// The half-edge reached from `h` by following `next` `k` times.
    pub open spec fn next_walk(&self, h: HalfEdge, k: nat) -> HalfEdge
        decreases k,
    {
        if k == 0 {
            h
        } else {
            self.edge_at(self.next_walk(h, (k - 1) as nat).next)
        }
    }

    /// Following `next` from `h`, every step stays in range and the walk first
    /// comes back to a half-edge with `h`'s id after exactly `n` steps.
    pub open spec fn next_cycle(&self, h: HalfEdge, n: nat) -> bool {
        &&& n >= 1
        &&& forall|k: nat| k < n ==> in_range(#[trigger] self.next_walk(h, k).next, self.edges@.len())
        &&& self.next_walk(h, n).id == h.id
        &&& forall|k: nat| 0 < k < n ==> #[trigger] self.next_walk(h, k).id != h.id
    }

    /// The half-edge after `h` around its origin: the `next` of its `twin`.
    pub open spec fn rotate(&self, h: HalfEdge) -> HalfEdge {
        self.edge_at(self.edge_at(h.twin).next)
    }

    /// The half-edge reached from `h` by `k` rotations around its origin.
    pub open spec fn spoke_walk(&self, h: HalfEdge, k: nat) -> HalfEdge
        decreases k,
    {
        if k == 0 {
            h
        } else {
            self.rotate(self.spoke_walk(h, (k - 1) as nat))
        }
    }

    /// Rotating from `h`, each `twin` and `next` stays in range and the walk
    /// first comes back to a half-edge with `h`'s id after exactly `n` steps.
    pub open spec fn spoke_cycle(&self, h: HalfEdge, n: nat) -> bool {
        &&& n >= 1
        &&& forall|k: nat|
            k < n ==> {
                &&& in_range(#[trigger] self.spoke_walk(h, k).twin, self.edges@.len())
                &&& in_range(self.edge_at(self.spoke_walk(h, k).twin).next, self.edges@.len())
            }
        &&& self.spoke_walk(h, n).id == h.id
        &&& forall|k: nat| 0 < k < n ==> #[trigger] self.spoke_walk(h, k).id != h.id
    }

    /// The faces left of the first `k` half-edges of the rotation from `h`,
    /// boundary half-edges skipped.
    pub open spec fn faces_around(&self, h: HalfEdge, k: nat) -> Seq<Face>
        decreases k,
    {
        if k == 0 {
            Seq::empty()
        } else {
            let e = self.spoke_walk(h, (k - 1) as nat);
            let before = self.faces_around(h, (k - 1) as nat);
            if e.incident_face.id == -1 {
                before
            } else {
                before.push(self.faces@[e.incident_face.id as int])
            }
        }
    }

    /// Whether scanning the rotation from `h` (already `count` steps along)
    /// meets a boundary half-edge, a null twin, a null `next` of a twin, or
    /// runs past 1000 steps, before it returns to a half-edge with id `start`.
    pub open spec fn boundary_scan(&self, h: HalfEdge, start: Ref, count: nat) -> bool
        decreases 1001 - count,
    {
        if h.incident_face.id == -1 {
            true
        } else if h.twin.id < 0 {
            true
        } else if self.edge_at(h.twin).next.id < 0 {
            true
        } else if self.rotate(h).id == start {
            false
        } else if count + 1 > 1000 {
            true
        } else {
            self.boundary_scan(self.rotate(h), start, count + 1)
        }
    }

    /// Whether `v` is a boundary vertex: it has no incident edge or the scan of
    /// its rotation finds it open.
    pub open spec fn boundary_vertex(&self, v: Vertex<P>) -> bool {
        v.incident_edge.id < 0 || self.boundary_scan(
            self.edge_at(v.incident_edge),
            self.edge_at(v.incident_edge).id,
            0,
        )
    }

    /// Every reference is null or in range, every half-edge has an origin, and
    /// every vertex's id is its index.
    pub open spec fn well_linked(&self) -> bool {
        &&& self.links_in_range()
        &&& forall|i: int|
            0 <= i < self.edges@.len() ==> in_range(
                (#[trigger] self.edges@[i]).origin,
                self.vertices@.len(),
            )
        &&& forall|i: int|
            0 <= i < self.vertices@.len() ==> {
                &&& null_or_in_range((#[trigger] self.vertices@[i]).incident_edge, self.edges@.len())
                &&& self.vertices@[i].id.id == i
            }
    }

    /// Every `twin` and `next` reference of every half-edge is null or in range.
    pub open spec fn links_in_range(&self) -> bool {
        forall|i: int|
            0 <= i < self.edges@.len() ==> {
                &&& null_or_in_range((#[trigger] self.edges@[i]).twin, self.edges@.len())
                &&& null_or_in_range(self.edges@[i].next, self.edges@.len())
            }
    }

    /// An empty DCEL.
    pub fn new() -> (d: Self)
        ensures
            d.vertices@.len() == 0,
            d.edges@.len() == 0,
            d.faces@.len() == 0,
    {
        Dcel { vertices: Vec::new(), edges: Vec::new(), faces: Vec::new() }
    }

    /// Appends a vertex at `p` whose id is its index; returns it.
    pub fn create_vertex(&mut self, p: P) -> (v: Vertex<P>)
        requires
            old(self).vertices@.len() < i32::MAX,
        ensures
            v == (Vertex { id: Ref { id: old(self).vertices@.len() as i32 }, ..blank_vertex(p) }),
            final(self).vertices@ == old(self).vertices@.push(v),
            final(self).edges@ == old(self).edges@,
            final(self).faces@ == old(self).faces@,
    {
        let mut v = Vertex::new(p);
        v.id = Ref::new(self.vertices.len() as i32);
        self.vertices.push(v);
        v
    }

    /// Appends a half-edge with null links whose id is its index; returns it.
    pub fn create_half_edge(&mut self) -> (e: HalfEdge)
        requires
            old(self).edges@.len() < i32::MAX,
        ensures
            e == (HalfEdge { id: Ref { id: old(self).edges@.len() as i32 }, ..blank_half_edge() }),
            final(self).edges@ == old(self).edges@.push(e),
            final(self).vertices@ == old(self).vertices@,
            final(self).faces@ == old(self).faces@,
    {
        let mut e = HalfEdge::new();
        e.id = Ref::new(self.edges.len() as i32);
        self.edges.push(e);
        e
    }

    /// Appends a face with a null boundary whose id is its index; returns it.
    pub fn create_face(&mut self) -> (f: Face)
        requires
            old(self).faces@.len() < i32::MAX,
        ensures
            f == (Face { id: Ref { id: old(self).faces@.len() as i32 }, ..blank_face() }),
            final(self).faces@ == old(self).faces@.push(f),
            final(self).vertices@ == old(self).vertices@,
            final(self).edges@ == old(self).edges@,
    {
        let mut f = Face::new();
        f.id = Ref::new(self.faces.len() as i32);
        self.faces.push(f);
        f
    }

    /// The vertex that `id` indexes.
    pub fn vertex(&self, id: Ref) -> (v: Vertex<P>)
        requires
            in_range(id, self.vertices@.len()),
        ensures
            v == self.vertices@[id.id as int],
    {
        self.vertices[id.id as usize]
    }

    /// The half-edge that `id` indexes.
    pub fn edge(&self, id: Ref) -> (e: HalfEdge)
        requires
            in_range(id, self.edges@.len()),
        ensures
            e == self.edges@[id.id as int],
    {
        self.edges[id.id as usize]
    }

    /// The face that `id` indexes.
    pub fn face(&self, id: Ref) -> (f: Face)
        requires
            in_range(id, self.faces@.len()),
        ensures
            f == self.faces@[id.id as int],
    {
        self.faces[id.id as usize]
    }

    /// Stores `v` at the index its id names.
    pub fn update_vertex(&mut self, v: Vertex<P>)
        requires
            in_range(v.id, old(self).vertices@.len()),
        ensures
            final(self).vertices@ == old(self).vertices@.update(v.id.id as int, v),
            final(self).edges@ == old(self).edges@,
            final(self).faces@ == old(self).faces@,
    {
        self.vertices.set(v.id.id as usize, v);
    }

    /// Stores `e` at the index its id names.
    pub fn update_edge(&mut self, e: HalfEdge)
        requires
            in_range(e.id, old(self).edges@.len()),
        ensures
            final(self).edges@ == old(self).edges@.update(e.id.id as int, e),
            final(self).vertices@ == old(self).vertices@,
            final(self).faces@ == old(self).faces@,
    {
        self.edges.set(e.id.id as usize, e);
    }

    /// Stores `f` at the index its id names.
    pub fn update_face(&mut self, f: Face)
        requires
            in_range(f.id, old(self).faces@.len()),
        ensures
            final(self).faces@ == old(self).faces@.update(f.id.id as int, f),
            final(self).vertices@ == old(self).vertices@,
            final(self).edges@ == old(self).edges@,
    {
        self.faces.set(f.id.id as usize, f);
    }

    /// The vertex `h` starts at.
    pub fn origin(&self, h: HalfEdge) -> (v: Vertex<P>)
        requires
            in_range(h.origin, self.vertices@.len()),
        ensures
            v == self.vertices@[h.origin.id as int],
    {
        self.vertex(h.origin)
    }

    /// The opposite half of `h`.
    pub fn twin(&self, h: HalfEdge) -> (e: HalfEdge)
        requires
            in_range(h.twin, self.edges@.len()),
        ensures
            e == self.edge_at(h.twin),
    {
        self.edge(h.twin)
    }

    /// The half-edge after `h` along its face.
    pub fn next(&self, h: HalfEdge) -> (e: HalfEdge)
        requires
            in_range(h.next, self.edges@.len()),
        ensures
            e == self.edge_at(h.next),
    {
        self.edge(h.next)
    }

    /// The half-edge before `h` along its face.
    pub fn prev(&self, h: HalfEdge) -> (e: HalfEdge)
        requires
            in_range(h.prev, self.edges@.len()),
        ensures
            e == self.edge_at(h.prev),
    {
        self.edge(h.prev)
    }

    /// The half-edge that `f` names on its outer boundary.
    pub fn outer_component(&self, f: &Face) -> (e: HalfEdge)
        requires
            in_range(f.outer_component, self.edges@.len()),
        ensures
            e == self.edge_at(f.outer_component),
    {
        self.edge(f.outer_component)
    }

    /// The half-edge that `v` names as starting at it.
    pub fn incident_edge(&self, v: Vertex<P>) -> (e: HalfEdge)
        requires
            in_range(v.incident_edge, self.edges@.len()),
        ensures
            e == self.edge_at(v.incident_edge),
    {
        self.edge(v.incident_edge)
    }

    /// The face to the left of `h`.
    pub fn incident_face(&self, h: HalfEdge) -> (f: Face)
        requires
            in_range(h.incident_face, self.faces@.len()),
        ensures
            f == self.faces@[h.incident_face.id as int],
    {
        self.face(h.incident_face)
    }

    /// Whether `h` has no face to its left (its face reference is `-1`).
    pub fn is_boundary(&self, h: HalfEdge) -> (b: bool)
        ensures
            b == (h.incident_face.id == -1),
    {
        h.incident_face.id == -1
    }

    /// The half-edges of the boundary of `f`, in `next` order, starting at its
    /// outer component.
    pub fn get_outer_components(&self, f: &Face) -> (r: Vec<HalfEdge>)
        requires
            in_range(f.outer_component, self.edges@.len()),
            exists|n: nat| self.next_cycle(self.edge_at(f.outer_component), n),
        ensures
            forall|n: nat|
                self.next_cycle(self.edge_at(f.outer_component), n) ==> r@ == Seq::new(
                    n,
                    |k: int| self.next_walk(self.edge_at(f.outer_component), k as nat),
                ),
    {
        let ghost h0 = self.edge_at(f.outer_component);
        let ghost n = choose|n: nat| self.next_cycle(h0, n);
        proof {
            assert forall|m: nat| self.next_cycle(h0, m) implies m == n by {
                if m < n {
                    assert(self.next_walk(h0, m).id != h0.id);
                } else if m > n {
                    assert(self.next_walk(h0, n).id != h0.id);
                }
            }
        }
        let mut edges: Vec<HalfEdge> = Vec::new();
        let first = self.outer_component(f);
        let start = first.id;
        let mut h = first;
        let ghost mut i: nat = 0;
        loop
            invariant
                self.next_cycle(h0, n),
                h0 == first,
                start == h0.id,
                i < n,
                h == self.next_walk(h0, i),
                h0 == self.edge_at(f.outer_component),
                forall|m: nat| self.next_cycle(h0, m) ==> m == n,
                edges@ == Seq::new(i, |k: int| self.next_walk(h0, k as nat)),
            decreases n - i,
        {
            edges.push(h);
            assert(in_range(self.next_walk(h0, i).next, self.edges@.len()));
            h = self.next(h);
            assert(h == self.next_walk(h0, i + 1));
            if h.id == start {
                assert(i + 1 == n);
                assert(edges@ =~= Seq::new(i + 1, |k: int| self.next_walk(h0, k as nat)));
                return edges;
            }
            assert(i + 1 != n);
            assert(edges@ =~= Seq::new(i + 1, |k: int| self.next_walk(h0, k as nat)));
            proof {
                i = i + 1;
            }
        }
    }

    /// The half-edges that start at `v`, in rotation order (`twin` then
    /// `next`), starting at its incident edge.
    pub fn get_incident_edges(&self, v: Vertex<P>) -> (r: Vec<HalfEdge>)
        requires
            in_range(v.incident_edge, self.edges@.len()),
            exists|n: nat| self.spoke_cycle(self.edge_at(v.incident_edge), n),
        ensures
            forall|n: nat|
                self.spoke_cycle(self.edge_at(v.incident_edge), n) ==> r@ == Seq::new(
                    n,
                    |k: int| self.spoke_walk(self.edge_at(v.incident_edge), k as nat),
                ),
    {
        let ghost h0 = self.edge_at(v.incident_edge);
        let ghost n = choose|n: nat| self.spoke_cycle(h0, n);
        proof {
            lemma_spoke_cycle_unique(self, h0, n);
        }
        let mut edges: Vec<HalfEdge> = Vec::new();
        let first = self.incident_edge(v);
        let start = first.id;
        let mut h = first;
        let ghost mut i: nat = 0;
        loop
            invariant
                self.spoke_cycle(h0, n),
                h0 == first,
                start == h0.id,
                i < n,
                h == self.spoke_walk(h0, i),
                h0 == self.edge_at(v.incident_edge),
                forall|m: nat| self.spoke_cycle(h0, m) ==> m == n,
                edges@ == Seq::new(i, |k: int| self.spoke_walk(h0, k as nat)),
            decreases n - i,
        {
            edges.push(h);
            assert(in_range(self.spoke_walk(h0, i).twin, self.edges@.len()));
            let tw = self.twin(h);
            h = self.next(tw);
            assert(h == self.spoke_walk(h0, i + 1));
            if h.id == start {
                assert(i + 1 == n);
                assert(edges@ =~= Seq::new(i + 1, |k: int| self.spoke_walk(h0, k as nat)));
                return edges;
            }
            assert(i + 1 != n);
            assert(edges@ =~= Seq::new(i + 1, |k: int| self.spoke_walk(h0, k as nat)));
            proof {
                i = i + 1;
            }
        }
    }

    /// The faces around `v`: the face left of each half-edge of the rotation
    /// from its incident edge, boundary half-edges skipped.
    pub fn get_incident_faces(&self, v: Vertex<P>) -> (r: Vec<Face>)
        requires
            in_range(v.incident_edge, self.edges@.len()),
            exists|n: nat|
                {
                    &&& self.spoke_cycle(self.edge_at(v.incident_edge), n)
                    &&& forall|k: nat|
                        k < n ==> face_ref_ok(
                            #[trigger] self.spoke_walk(self.edge_at(v.incident_edge), k).incident_face,
                            self.faces@.len(),
                        )
                },
        ensures
            forall|n: nat|
                self.spoke_cycle(self.edge_at(v.incident_edge), n) ==> r@ == self.faces_around(
                    self.edge_at(v.incident_edge),
                    n,
                ),
    {
        let ghost h0 = self.edge_at(v.incident_edge);
        let ghost n = choose|n: nat|
            {
                &&& self.spoke_cycle(h0, n)
                &&& forall|k: nat|
                    k < n ==> face_ref_ok(#[trigger] self.spoke_walk(h0, k).incident_face, self.faces@.len())
            };
        proof {
            lemma_spoke_cycle_unique(self, h0, n);
        }
        let mut faces: Vec<Face> = Vec::new();
        let first = self.incident_edge(v);
        let start = first.id;
        let mut h = first;
        let ghost mut i: nat = 0;
        loop
            invariant
                self.spoke_cycle(h0, n),
                forall|k: nat|
                    k < n ==> face_ref_ok(#[trigger] self.spoke_walk(h0, k).incident_face, self.faces@.len()),
                h0 == first,
                start == h0.id,
                i < n,
                h == self.spoke_walk(h0, i),
                h0 == self.edge_at(v.incident_edge),
                forall|m: nat| self.spoke_cycle(h0, m) ==> m == n,
                faces@ == self.faces_around(h0, i),
            decreases n - i,
        {
            assert(face_ref_ok(self.spoke_walk(h0, i).incident_face, self.faces@.len()));
            if !self.is_boundary(h) {
                faces.push(self.incident_face(h));
            }
            assert(faces@ == self.faces_around(h0, i + 1));
            assert(in_range(self.spoke_walk(h0, i).twin, self.edges@.len()));
            let tw = self.twin(h);
            h = self.next(tw);
            assert(h == self.spoke_walk(h0, i + 1));
            if h.id == start {
                assert(i + 1 == n);
                return faces;
            }
            assert(i + 1 != n);
            proof {
                i = i + 1;
            }
        }
    }

    /// Whether `v` lies on the boundary: it has no incident edge, or the
    /// rotation around it meets a half-edge without a face, a null twin or a
    /// twin with a null `next`, or does not close within 1000 steps.
    pub fn is_boundary_vertex_check(&self, v: Vertex<P>) -> (b: bool)
        requires
            null_or_in_range(v.incident_edge, self.edges@.len()),
            self.links_in_range(),
        ensures
            b == self.boundary_vertex(v),
    {
        if !v.incident_edge.is_valid() {
            return true;
        }
        let h0 = self.incident_edge(v);
        let start = h0.id;
        let mut h = h0;
        let mut count: usize = 0;
        let ghost mut hi: int = v.incident_edge.id as int;
        loop
            invariant
                self.links_in_range(),
                count <= 1000,
                0 <= hi < self.edges@.len(),
                self.edges@[hi] == h,
                v.incident_edge.id >= 0,
                h0 == self.edge_at(v.incident_edge),
                start == h0.id,
                self.boundary_scan(h0, start, 0) == self.boundary_scan(h, start, count as nat),
            decreases 1001 - count,
        {
            if h.incident_face.id == -1 {
                return true;
            }
            if !h.twin.is_valid() {
                return true;
            }
            let tw = self.twin(h);
            if !tw.next.is_valid() {
                return true;
            }
            proof {
                hi = tw.next.id as int;
            }
            let ghost prev_h = h;
            h = self.next(tw);
            assert(h == self.rotate(prev_h));
            if h.id == start {
                assert(self.boundary_scan(prev_h, start, count as nat) == false);
                return false;
            }
            count += 1;
            if count > 1000 {
                return true;
            }
        }
    }
}

/// A rotation around a vertex that the boundary scan finds closed returns
/// to its start within 1001 steps, with every `twin` and `next` in range.
pub proof fn lemma_closed_scan_cycles<P: Copy>(d: &Dcel<P>, h0: HalfEdge, c: nat)
    requires
        d.links_in_range(),
        exists|j: int| 0 <= j < d.edges@.len() && d.edges@[j] == h0,
        c <= 1000,
        !d.boundary_scan(d.spoke_walk(h0, c), h0.id, c),
        forall|k: nat|
            k < c ==> {
                &&& in_range(#[trigger] d.spoke_walk(h0, k).twin, d.edges@.len())
                &&& in_range(d.edge_at(d.spoke_walk(h0, k).twin).next, d.edges@.len())
            },
        forall|k: nat| 0 < k <= c ==> #[trigger] d.spoke_walk(h0, k).id != h0.id,
        forall|k: nat| k < c ==> (#[trigger] d.spoke_walk(h0, k)).incident_face.id != -1,
    ensures
        exists|n: nat|
            n <= 1001 && d.spoke_cycle(h0, n) && forall|k: nat|
                k < n ==> (#[trigger] d.spoke_walk(h0, k)).incident_face.id != -1,
    decreases 1000 - c,
{
    let h = d.spoke_walk(h0, c);
    if c == 0 {
        let j = choose|j: int| 0 <= j < d.edges@.len() && d.edges@[j] == h0;
        assert(d.edges@[j] == h);
    } else {
        let prev = d.spoke_walk(h0, (c - 1) as nat);
        assert(h == d.edges@[d.edge_at(prev.twin).next.id as int]);
    }
    assert(exists|j: int| 0 <= j < d.edges@.len() && d.edges@[j] == h);
    let j = choose|j: int| 0 <= j < d.edges@.len() && d.edges@[j] == h;
    assert(null_or_in_range(d.edges@[j].twin, d.edges@.len()));
    assert(in_range(h.twin, d.edges@.len()));
    let tw = d.edge_at(h.twin);
    assert(null_or_in_range(d.edges@[h.twin.id as int].next, d.edges@.len()));
    assert(in_range(tw.next, d.edges@.len()));
    assert(d.spoke_walk(h0, c + 1) == d.rotate(h));
    if d.rotate(h).id == h0.id {
        assert(d.spoke_cycle(h0, c + 1));
        assert(forall|k: nat| k < c + 1 ==> (#[trigger] d.spoke_walk(h0, k)).incident_face.id != -1);
    } else {
        lemma_closed_scan_cycles(d, h0, c + 1);
    }
}

/// A rotation returns to its start after one number of steps only.
pub proof fn lemma_spoke_cycle_unique<P: Copy>(d: &Dcel<P>, h0: HalfEdge, n: nat)
    requires
        d.spoke_cycle(h0, n),
    ensures
        forall|m: nat| d.spoke_cycle(h0, m) ==> m == n,
{
    assert forall|m: nat| d.spoke_cycle(h0, m) implies m == n by {
        if m < n {
            assert(d.spoke_walk(h0, m).id != h0.id);
        } else if m > n {
            assert(d.spoke_walk(h0, n).id != h0.id);
        }
    }
}

} // verus!
