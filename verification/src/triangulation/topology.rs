use vstd::prelude::*;

use crate::ids::{EdgeId, FaceId, VertexId};

verus! {

broadcast use vstd::seq_lib::group_seq_properties;

/// Local edge `k` of a face is the edge opposite its vertex `k`:
/// `k = 0` is `(v1, v2)`, `k = 1` is `(v2, v0)`, `k = 2` is `(v0, v1)`.
pub open spec fn local_edge(face: [VertexId; 3], k: int) -> (VertexId, VertexId) {
    if k == 0 {
        (face[1], face[2])
    } else if k == 1 {
        (face[2], face[0])
    } else {
        (face[0], face[1])
    }
}

/// Two vertex pairs name the same undirected edge.
pub open spec fn same_edge(a: (VertexId, VertexId), b: (VertexId, VertexId)) -> bool {
    (a.0 == b.0 && a.1 == b.1) || (a.0 == b.1 && a.1 == b.0)
}

/// The edge of incidence `t`: local edge `t % 3` of face `t / 3`.
/// Incidences are numbered face by face, three per face.
pub open spec fn incidence_edge(faces: Seq<[VertexId; 3]>, t: int) -> (VertexId, VertexId) {
    local_edge(faces[t / 3], t % 3)
}

/// Among the first `m` incidences, those lying on the undirected edge
/// `key`, in increasing order.
pub open spec fn incidences_upto(faces: Seq<[VertexId; 3]>, key: (VertexId, VertexId), m: int) -> Seq<int> {
    Seq::new(m as nat, |t: int| t).filter(|t: int| same_edge(incidence_edge(faces, t), key))
}

/// Every incidence of the face list lying on the undirected edge `key`,
/// in increasing order.
pub open spec fn incidences(faces: Seq<[VertexId; 3]>, key: (VertexId, VertexId)) -> Seq<int> {
    incidences_upto(faces, key, 3 * faces.len() as int)
}

/// The face that incidence `t` belongs to.
pub open spec fn face_of_incidence(t: int) -> FaceId {
    FaceId((t / 3) as u32)
}

/// The neighbor across incidence `t`: the face of the other incidence of
/// the same edge when that edge has exactly two incidences, otherwise
/// none.
pub open spec fn spec_neighbor(faces: Seq<[VertexId; 3]>, t: int) -> Option<FaceId> {
    let inc = incidences(faces, incidence_edge(faces, t));
    if inc.len() == 2 {
        Some(face_of_incidence(if inc[0] == t { inc[1] } else { inc[0] }))
    } else {
        None
    }
}

/// The first incident face of edge `key`.
pub open spec fn spec_first_face(faces: Seq<[VertexId; 3]>, key: (VertexId, VertexId)) -> Option<FaceId> {
    Some(face_of_incidence(incidences(faces, key)[0]))
}

/// The second incident face of edge `key`, if it has one.
pub open spec fn spec_second_face(faces: Seq<[VertexId; 3]>, key: (VertexId, VertexId)) -> Option<FaceId> {
    let inc = incidences(faces, key);
    if inc.len() >= 2 {
        Some(face_of_incidence(inc[1]))
    } else {
        None
    }
}

/// Each listed edge lies on at least one incidence, is oriented as at
/// its first one, and records its first two incident faces.
pub open spec fn edges_recorded(
    faces: Seq<[VertexId; 3]>,
    edges: Seq<(VertexId, VertexId)>,
    edge_faces: Seq<[Option<FaceId>; 2]>,
) -> bool {
    forall|e: int| 0 <= e < edges.len() ==> {
        let inc = #[trigger] incidences(faces, edges[e]);
        &&& inc.len() >= 1
        &&& edges[e] == incidence_edge(faces, inc[0])
        &&& edge_faces[e][0] == spec_first_face(faces, edges[e])
        &&& edge_faces[e][1] == spec_second_face(faces, edges[e])
    }
}

/// Edges are listed in order of first incidence.
pub open spec fn edges_ordered(faces: Seq<[VertexId; 3]>, edges: Seq<(VertexId, VertexId)>) -> bool {
    forall|e1: int, e2: int|
        0 <= e1 < e2 < edges.len() ==> incidences(faces, #[trigger] edges[e1])[0] < incidences(
            faces,
            #[trigger] edges[e2],
        )[0]
}

/// No undirected edge is listed twice.
pub open spec fn edges_distinct(edges: Seq<(VertexId, VertexId)>) -> bool {
    forall|e1: int, e2: int|
        0 <= e1 < edges.len() && 0 <= e2 < edges.len() && e1 != e2 ==> !same_edge(
            #[trigger] edges[e1],
            #[trigger] edges[e2],
        )
}

/// Every incidence's edge is listed.
pub open spec fn edges_cover(faces: Seq<[VertexId; 3]>, edges: Seq<(VertexId, VertexId)>) -> bool {
    forall|t: int| 0 <= t < 3 * faces.len() ==> #[trigger] is_listed(edges, incidence_edge(faces, t))
}

/// The undirected edge `key` appears in `edges`.
pub open spec fn is_listed(edges: Seq<(VertexId, VertexId)>, key: (VertexId, VertexId)) -> bool {
    exists|e: int| 0 <= e < edges.len() && same_edge(#[trigger] edges[e], key)
}

/// The neighbor across each local edge is given by [`spec_neighbor`].
pub open spec fn neighbors_match(faces: Seq<[VertexId; 3]>, face_neighbors: Seq<[Option<FaceId>; 3]>) -> bool {
    forall|i: int, k: int|
        0 <= i < faces.len() && 0 <= k < 3 ==> #[trigger] face_neighbors[i][k] == spec_neighbor(
            faces,
            3 * i + k,
        )
}

/// What `assemble_triangulation(.., faces)` builds, stated over its five
/// tables: the edge table lists every undirected edge of the faces once,
/// oriented as at its first incidence and ordered by first incidence;
/// each edge's face pair is its first two incident faces; and the
/// neighbor across each local edge is given by [`spec_neighbor`].
pub open spec fn is_assembled_from(
    faces: Seq<[VertexId; 3]>,
    face_neighbors: Seq<[Option<FaceId>; 3]>,
    edges: Seq<(VertexId, VertexId)>,
    edge_faces: Seq<[Option<FaceId>; 2]>,
) -> bool {
    &&& face_neighbors.len() == faces.len()
    &&& edge_faces.len() == edges.len()
    &&& edges_recorded(faces, edges, edge_faces)
    &&& edges_ordered(faces, edges)
    &&& edges_distinct(edges)
    &&& edges_cover(faces, edges)
    &&& neighbors_match(faces, face_neighbors)
}

/// A triangulation's topology: a vertex list carrying one payload per
/// vertex (its coordinate, for a geometric triangulation), the faces as
/// vertex triples, each face's neighbor across each of its local edges,
/// and a deduplicated undirected edge table with each edge's incident
/// faces.
#[derive(Debug)]
pub struct Triangulation2<P> {
    vertices: Vec<P>,
    faces: Vec<[VertexId; 3]>,
    face_neighbors: Vec<[Option<FaceId>; 3]>,
    edges: Vec<(VertexId, VertexId)>,
    edge_faces: Vec<[Option<FaceId>; 2]>,
}

impl<P> Triangulation2<P> {
    /// The vertex payloads; `VertexId(i)` names the `i`-th.
    pub closed spec fn spec_vertices(&self) -> Seq<P> {
        self.vertices@
    }

    /// The faces as vertex triples; `FaceId(i)` names the `i`-th.
    pub closed spec fn spec_faces(&self) -> Seq<[VertexId; 3]> {
        self.faces@
    }

    /// Each face's neighbor across its local edges 0, 1, 2.
    pub closed spec fn spec_face_neighbors(&self) -> Seq<[Option<FaceId>; 3]> {
        self.face_neighbors@
    }

    /// The undirected edge table; `EdgeId(i)` names the `i`-th.
    pub closed spec fn spec_edges(&self) -> Seq<(VertexId, VertexId)> {
        self.edges@
    }

    /// Each edge's incident faces, the second `None` on the boundary.
    pub closed spec fn spec_edge_faces(&self) -> Seq<[Option<FaceId>; 2]> {
        self.edge_faces@
    }

    /// The tables are those [`assemble_triangulation`] builds from the
    /// face list, and every handle fits its `u32`. Every value of this
    /// type satisfies it.
    #[verifier::type_invariant]
    pub open spec fn well_formed(&self) -> bool {
        &&& is_assembled_from(
            self.spec_faces(),
            self.spec_face_neighbors(),
            self.spec_edges(),
            self.spec_edge_faces(),
        )
        &&& 3 * self.spec_faces().len() <= u32::MAX
    }

    /// A copy of the face table.
    pub(crate) fn face_table(&self) -> (r: Vec<[VertexId; 3]>)
        ensures
            r@ == self.spec_faces(),
    {
        copy_vec(&self.faces)
    }

    /// A copy of the neighbor table.
    pub(crate) fn neighbor_table(&self) -> (r: Vec<[Option<FaceId>; 3]>)
        ensures
            r@ == self.spec_face_neighbors(),
    {
        copy_vec(&self.face_neighbors)
    }

    /// The vertex payloads, taking the triangulation apart.
    pub(crate) fn into_vertices(self) -> (r: Vec<P>)
        ensures
            r@ == self.spec_vertices(),
    {
        self.vertices
    }

    /// The number of vertices.
    pub fn vertex_count(&self) -> (r: usize)
        ensures
            r == self.spec_vertices().len(),
    {
        self.vertices.len()
    }

    /// The number of faces (triangles).
    pub fn len(&self) -> (r: usize)
        ensures
            r == self.spec_faces().len(),
    {
        self.faces.len()
    }

    /// `true` iff there are no faces.
    pub fn is_empty(&self) -> (r: bool)
        ensures
            r == (self.spec_faces().len() == 0),
    {
        self.faces.len() == 0
    }

    /// `edge`'s two endpoints, as first met in the face list.
    pub fn edge_vertices(&self, edge: EdgeId) -> (r: (VertexId, VertexId))
        requires
            edge.0 < self.spec_edges().len(),
        ensures
            r == self.spec_edges()[edge.0 as int],
    {
        self.edges[edge.0 as usize]
    }

    /// The 1 (boundary) or 2 (interior) faces incident to `edge`; `None`
    /// in the second slot at the boundary.
    pub fn adjacent_faces(&self, edge: EdgeId) -> (r: [Option<FaceId>; 2])
        requires
            edge.0 < self.spec_edges().len(),
        ensures
            r == self.spec_edge_faces()[edge.0 as int],
    {
        proof {
            use_type_invariant(self);
        }
        self.edge_faces[edge.0 as usize]
    }

    /// `face`'s 3 vertices, in their stored order.
    pub fn face_vertices(&self, face: FaceId) -> (r: [VertexId; 3])
        requires
            face.0 < self.spec_faces().len(),
        ensures
            r == self.spec_faces()[face.0 as int],
    {
        self.faces[face.0 as usize]
    }

    /// `face`'s neighbor across each local edge: index `k` is the face
    /// across the edge opposite `face_vertices(face)[k]`; `None` where
    /// there is none.
    pub fn neighboring_faces(&self, face: FaceId) -> (r: [Option<FaceId>; 3])
        requires
            face.0 < self.spec_faces().len(),
        ensures
            r == self.spec_face_neighbors()[face.0 as int],
    {
        proof {
            use_type_invariant(self);
        }
        self.face_neighbors[face.0 as usize]
    }

    /// Every face's id, in order.
    pub fn faces(&self) -> (r: Vec<FaceId>)
        ensures
            r@.len() == self.spec_faces().len(),
            forall|i: int| 0 <= i < r@.len() ==> #[trigger] r@[i] == FaceId(i as u32),
    {
        proof {
            use_type_invariant(self);
        }
        let mut r: Vec<FaceId> = Vec::new();
        let mut i: usize = 0;
        while i < self.faces.len()
            invariant
                i <= self.faces.len(),
                3 * self.faces.len() <= u32::MAX,
                r@.len() == i,
                forall|j: int| 0 <= j < i ==> #[trigger] r@[j] == FaceId(j as u32),
            decreases self.faces.len() - i,
        {
            r.push(FaceId(i as u32));
            i += 1;
        }
        r
    }

    /// Every undirected edge's id, in order.
    pub fn edges(&self) -> (r: Vec<EdgeId>)
        ensures
            r@.len() == self.spec_edges().len(),
            self.spec_edges().len() <= u32::MAX,
            forall|i: int| 0 <= i < r@.len() ==> #[trigger] r@[i] == EdgeId(i as u32),
    {
        proof {
            use_type_invariant(self);
            lemma_well_formed_edge_bound(self.spec_faces(), self.spec_edges(), self.spec_edge_faces());
        }
        let mut r: Vec<EdgeId> = Vec::new();
        let mut i: usize = 0;
        while i < self.edges.len()
            invariant
                i <= self.edges.len(),
                self.edges.len() <= u32::MAX,
                r@.len() == i,
                forall|j: int| 0 <= j < i ==> #[trigger] r@[j] == EdgeId(j as u32),
            decreases self.edges.len() - i,
        {
            r.push(EdgeId(i as u32));
            i += 1;
        }
        r
    }

    /// Every edge with exactly one incident face -- the outer boundary --
    /// in edge order.
    pub fn boundary_edges(&self) -> (r: Vec<EdgeId>)
        ensures
            r@ == self.spec_edge_ids().filter(|id: EdgeId| self.spec_edge_faces()[id.0 as int][1] is None),
    {
        proof {
            use_type_invariant(self);
            lemma_well_formed_edge_bound(self.spec_faces(), self.spec_edges(), self.spec_edge_faces());
        }
        let ghost pred = |id: EdgeId| self.spec_edge_faces()[id.0 as int][1] is None;
        let mut r: Vec<EdgeId> = Vec::new();
        let mut i: usize = 0;
        while i < self.edges.len()
            invariant
                i <= self.edges.len(),
                self.edges.len() <= u32::MAX,
                self.edge_faces.len() == self.edges.len(),
                pred == (|id: EdgeId| self.spec_edge_faces()[id.0 as int][1] is None),
                r@ == self.spec_edge_ids().take(i as int).filter(pred),
            decreases self.edges.len() - i,
        {
            proof {
                let ids = self.spec_edge_ids();
                assert(ids.take(i + 1) =~= ids.take(i as int).push(EdgeId(i as u32)));
                ids.take(i as int).lemma_filter_push(EdgeId(i as u32), pred);
            }
            if self.edge_faces[i][1].is_none() {
                r.push(EdgeId(i as u32));
            }
            i += 1;
        }
        proof {
            assert(self.spec_edge_ids().take(i as int) =~= self.spec_edge_ids());
        }
        r
    }

    /// The ids of all edges, in order.
    pub open spec fn spec_edge_ids(&self) -> Seq<EdgeId> {
        Seq::new(self.spec_edges().len(), |i: int| EdgeId(i as u32))
    }

    /// The empty triangulation: no vertices, faces or edges.
    pub fn empty() -> (t: Self)
        ensures
            t.spec_vertices().len() == 0,
            t.spec_faces().len() == 0,
            t.spec_edges().len() == 0,
    {
        Triangulation2 {
            vertices: Vec::new(),
            faces: Vec::new(),
            face_neighbors: Vec::new(),
            edges: Vec::new(),
            edge_faces: Vec::new(),
        }
    }
}


impl<P: Copy> Triangulation2<P> {
    /// Every vertex, paired with its payload, in order.
    pub fn vertices(&self) -> (r: Vec<(VertexId, P)>)
        requires
            self.spec_vertices().len() <= u32::MAX + 1,
        ensures
            r@.len() == self.spec_vertices().len(),
            forall|i: int| 0 <= i < r@.len() ==> #[trigger] r@[i] == (VertexId(i as u32), self.spec_vertices()[i]),
    {
        let mut r: Vec<(VertexId, P)> = Vec::new();
        let mut i: usize = 0;
        while i < self.vertices.len()
            invariant
                i <= self.vertices.len(),
                self.vertices.len() <= u32::MAX + 1,
                r@.len() == i,
                forall|j: int| 0 <= j < i ==> #[trigger] r@[j] == (VertexId(j as u32), self.vertices@[j]),
            decreases self.vertices.len() - i,
        {
            r.push((VertexId(i as u32), self.vertices[i]));
            i += 1;
        }
        r
    }
}

impl<P: Clone> Clone for Triangulation2<P> {
    /// A copy with the same topology tables and cloned payloads.
    fn clone(&self) -> (r: Self)
        ensures
            r.spec_faces() == self.spec_faces(),
            r.spec_face_neighbors() == self.spec_face_neighbors(),
            r.spec_edges() == self.spec_edges(),
            r.spec_edge_faces() == self.spec_edge_faces(),
            r.spec_vertices().len() == self.spec_vertices().len(),
    {
        proof {
            use_type_invariant(self);
        }
        Triangulation2 {
            vertices: self.vertices.clone(),
            faces: copy_vec(&self.faces),
            face_neighbors: copy_vec(&self.face_neighbors),
            edges: copy_vec(&self.edges),
            edge_faces: copy_vec(&self.edge_faces),
        }
    }
}

/// A copy of the vertex payloads of `t`.
pub(crate) fn vertex_positions<P: Copy>(t: &Triangulation2<P>) -> (r: Vec<P>)
    ensures
        r@ == t.spec_vertices(),
{
    copy_vec(&t.vertices)
}

/// An element-by-element copy of `v`.
pub fn copy_vec<T: Copy>(v: &Vec<T>) -> (r: Vec<T>)
    ensures
        r@ == v@,
{
    let mut r: Vec<T> = Vec::new();
    let mut i: usize = 0;
    while i < v.len()
        invariant
            i <= v.len(),
            r@ == v@.take(i as int),
        decreases v.len() - i,
    {
        r.push(v[i]);
        proof {
            assert(v@.take(i + 1) =~= v@.take(i as int).push(v@[i as int]));
        }
        i += 1;
    }
    proof {
        assert(v@.take(v.len() as int) =~= v@);
    }
    r
}

/// There are at most three edges per face.
pub proof fn lemma_edge_count_bound(faces: Seq<[VertexId; 3]>, edges: Seq<(VertexId, VertexId)>)
    requires
        edges_ordered(faces, edges),
        forall|e: int| 0 <= e < edges.len() ==> (#[trigger] incidences(faces, edges[e])).len() >= 1,
    ensures
        edges.len() <= 3 * faces.len(),
{
    if edges.len() > 0 {
        let last = edges.len() - 1;
        lemma_first_incidence_at_least_index(faces, edges, last);
        assert(incidences(faces, edges[last]).len() >= 1);
        lemma_listed_incidence_on_edge(faces, edges[last], 3 * faces.len() as int, 0);
    }
}

/// The `e`-th edge's first incidence is at least `e`.
proof fn lemma_first_incidence_at_least_index(faces: Seq<[VertexId; 3]>, edges: Seq<(VertexId, VertexId)>, e: int)
    requires
        edges_ordered(faces, edges),
        forall|e2: int| 0 <= e2 < edges.len() ==> (#[trigger] incidences(faces, edges[e2])).len() >= 1,
        0 <= e < edges.len(),
    ensures
        incidences(faces, edges[e])[0] >= e,
    decreases e,
{
    assert(incidences(faces, edges[e]).len() >= 1);
    lemma_listed_incidence_on_edge(faces, edges[e], 3 * faces.len() as int, 0);
    if e > 0 {
        lemma_first_incidence_at_least_index(faces, edges, e - 1);
        assert(incidences(faces, edges[e - 1])[0] < incidences(faces, edges[e])[0]);
    }
}

/// In a recorded edge table there are at most three edges per face.
pub proof fn lemma_well_formed_edge_bound(
    faces: Seq<[VertexId; 3]>,
    edges: Seq<(VertexId, VertexId)>,
    edge_faces: Seq<[Option<FaceId>; 2]>,
)
    requires
        edges_recorded(faces, edges, edge_faces),
        edges_ordered(faces, edges),
    ensures
        edges.len() <= 3 * faces.len(),
{
    lemma_edge_count_bound(faces, edges);
}


/// The index of a present face handle (`-1` for none).
pub open spec fn face_index(f: Option<FaceId>) -> int {
    match f {
        Some(x) => x.0 as int,
        None => -1,
    }
}

/// The incidences listed for an edge are strictly increasing and below
/// `m`.
pub proof fn lemma_incidences_sorted(faces: Seq<[VertexId; 3]>, key: (VertexId, VertexId), m: int)
    requires
        0 <= m,
    ensures
        forall|j1: int, j2: int|
            0 <= j1 < j2 < incidences_upto(faces, key, m).len() ==> #[trigger] incidences_upto(faces, key, m)[j1]
                < #[trigger] incidences_upto(faces, key, m)[j2],
        forall|j: int| 0 <= j < incidences_upto(faces, key, m).len() ==> 0 <= #[trigger] incidences_upto(faces, key, m)[j] < m,
    decreases m,
{
    if m > 0 {
        lemma_incidences_sorted(faces, key, m - 1);
        lemma_incidences_step(faces, key, m - 1);
    }
}

/// Adjacency is reciprocal: if face `i`'s neighbor across its local edge
/// `k` is `g`, then `g` has `i` as neighbor across one of its own local
/// edges, and the two local edges are the same undirected edge.
pub proof fn lemma_neighbors_reciprocal(faces: Seq<[VertexId; 3]>, face_neighbors: Seq<[Option<FaceId>; 3]>, i: int, k: int)
    requires
        neighbors_match(faces, face_neighbors),
        face_neighbors.len() == faces.len(),
        3 * faces.len() <= u32::MAX,
        0 <= i < faces.len(),
        0 <= k < 3,
        face_neighbors[i][k] is Some,
    ensures
        ({
            let g = face_index(face_neighbors[i][k]);
            &&& 0 <= g < faces.len()
            &&& exists|k2: int|
                0 <= k2 < 3 && face_neighbors[g][k2] == Some(FaceId(i as u32)) && same_edge(
                    local_edge(faces[i], k),
                    local_edge(faces[g], k2),
                ) && (g, k2) != (i, k)
        }),
{
    let x = 3 * i + k;
    assert(x / 3 == i && x % 3 == k);
    let n3 = 3 * faces.len() as int;
    assert(face_neighbors[i][k] == spec_neighbor(faces, x));
    let key = incidence_edge(faces, x);
    let inc = incidences(faces, key);
    lemma_same_edge_equivalence(key, key, key);
    lemma_incidence_listed(faces, key, n3, x);
    lemma_incidences_sorted(faces, key, n3);
    assert(inc.len() == 2);
    let j = choose|j: int| 0 <= j < inc.len() && inc[j] == x;
    let o = if inc[0] == x { inc[1] } else { inc[0] };
    assert(o != x);
    assert(0 <= o < n3);
    let g = o / 3;
    let k2 = o % 3;
    assert(o == 3 * g + k2);
    lemma_listed_incidence_on_edge(faces, key, n3, if inc[0] == x { 1 } else { 0 });
    assert(face_neighbors[g][k2] == spec_neighbor(faces, o));
    lemma_same_edge_equivalence(incidence_edge(faces, o), key, key);
    lemma_incidences_congruent(faces, incidence_edge(faces, o), key, n3);
    assert(face_neighbors[g][k2] == Some(face_of_incidence(x)));
    assert(face_of_incidence(x) == FaceId(i as u32));
    assert(face_neighbors[i][k] == Some(face_of_incidence(o)));
    assert(face_index(face_neighbors[i][k]) == g);
    lemma_same_edge_equivalence(key, incidence_edge(faces, o), incidence_edge(faces, o));
    assert(local_edge(faces[i], k) == key);
    assert(local_edge(faces[g], k2) == incidence_edge(faces, o));
}

/// Each face recorded against an edge has that edge as one of its local
/// edges.
pub proof fn lemma_edge_faces_contain_edge(
    faces: Seq<[VertexId; 3]>,
    edges: Seq<(VertexId, VertexId)>,
    edge_faces: Seq<[Option<FaceId>; 2]>,
    e: int,
    j: int,
)
    requires
        edges_recorded(faces, edges, edge_faces),
        3 * faces.len() <= u32::MAX,
        0 <= e < edges.len(),
        0 <= j < 2,
        edge_faces[e][j] is Some,
    ensures
        ({
            let g = face_index(edge_faces[e][j]);
            &&& 0 <= g < faces.len()
            &&& exists|k: int| 0 <= k < 3 && same_edge(local_edge(faces[g], k), edges[e])
        }),
{
    let n3 = 3 * faces.len() as int;
    let inc = incidences(faces, edges[e]);
    assert(inc.len() >= 1);
    if j == 1 {
        assert(edge_faces[e][1] == spec_second_face(faces, edges[e]));
        assert(inc.len() >= 2);
    }
    assert(edge_faces[e][j] == Some(face_of_incidence(inc[j])));
    lemma_listed_incidence_on_edge(faces, edges[e], n3, j);
    let o = inc[j];
    let g = o / 3;
    assert(0 <= g < faces.len());
    assert(face_index(edge_faces[e][j]) == g);
    assert(o == 3 * g + o % 3);
    assert(same_edge(local_edge(faces[g], o % 3), edges[e]));
}

/// `same_edge` is symmetric and transitive.
pub proof fn lemma_same_edge_equivalence(a: (VertexId, VertexId), b: (VertexId, VertexId), c: (VertexId, VertexId))
    ensures
        same_edge(a, a),
        same_edge(a, b) ==> same_edge(b, a),
        same_edge(a, b) && same_edge(b, c) ==> same_edge(a, c),
{
}

/// Incidences of two names of the same undirected edge coincide.
pub proof fn lemma_incidences_congruent(
    faces: Seq<[VertexId; 3]>,
    k1: (VertexId, VertexId),
    k2: (VertexId, VertexId),
    m: int,
)
    requires
        same_edge(k1, k2),
    ensures
        incidences_upto(faces, k1, m) == incidences_upto(faces, k2, m),
{
    let p1 = |t: int| same_edge(incidence_edge(faces, t), k1);
    let p2 = |t: int| same_edge(incidence_edge(faces, t), k2);
    assert(p1 =~= p2);
}

/// One more incidence extends the list exactly when it lies on the edge.
pub proof fn lemma_incidences_step(faces: Seq<[VertexId; 3]>, key: (VertexId, VertexId), m: int)
    requires
        0 <= m,
    ensures
        incidences_upto(faces, key, m + 1) == if same_edge(incidence_edge(faces, m), key) {
            incidences_upto(faces, key, m).push(m)
        } else {
            incidences_upto(faces, key, m)
        },
{
    let pred = |t: int| same_edge(incidence_edge(faces, t), key);
    let s = Seq::new(m as nat, |t: int| t);
    assert(Seq::new((m + 1) as nat, |t: int| t) =~= s.push(m));
    s.lemma_filter_push(m, pred);
}

/// No incidence below `m` on the edge: the list is empty.
proof fn lemma_incidences_none(faces: Seq<[VertexId; 3]>, key: (VertexId, VertexId), m: int)
    requires
        0 <= m,
        forall|x: int| 0 <= x < m ==> !same_edge(#[trigger] incidence_edge(faces, x), key),
    ensures
        incidences_upto(faces, key, m).len() == 0,
    decreases m,
{
    if m > 0 {
        lemma_incidences_none(faces, key, m - 1);
        lemma_incidences_step(faces, key, m - 1);
    }
}

/// An incidence on the edge, below `m`, is in its list.
pub proof fn lemma_incidence_listed(faces: Seq<[VertexId; 3]>, key: (VertexId, VertexId), m: int, x: int)
    requires
        0 <= x < m,
        same_edge(incidence_edge(faces, x), key),
    ensures
        incidences_upto(faces, key, m).contains(x),
{
    let pred = |t: int| same_edge(incidence_edge(faces, t), key);
    let s = Seq::new(m as nat, |t: int| t);
    assert(s[x] == x);
    s.lemma_filter_contains(pred, x);
}

/// Every listed incidence lies on the edge.
pub proof fn lemma_listed_incidence_on_edge(faces: Seq<[VertexId; 3]>, key: (VertexId, VertexId), m: int, j: int)
    requires
        0 <= m,
        0 <= j < incidences_upto(faces, key, m).len(),
    ensures
        same_edge(incidence_edge(faces, incidences_upto(faces, key, m)[j]), key),
        0 <= incidences_upto(faces, key, m)[j] < m,
{
    let pred = |t: int| same_edge(incidence_edge(faces, t), key);
    let s = Seq::new(m as nat, |t: int| t);
    s.lemma_filter_pred(pred, j);
    let f = s.filter(pred);
    assert(f.contains(f[j]));
    s.lemma_filter_contains_rev(pred, f[j]);
}

pub(crate) fn same_edge_exec(a: (VertexId, VertexId), b: (VertexId, VertexId)) -> (r: bool)
    ensures
        r == same_edge(a, b),
{
    (a.0 == b.0 && a.1 == b.1) || (a.0 == b.1 && a.1 == b.0)
}

pub(crate) fn local_edge_exec(face: [VertexId; 3], k: usize) -> (r: (VertexId, VertexId))
    requires
        k < 3,
    ensures
        r == local_edge(face, k as int),
{
    if k == 0 {
        (face[1], face[2])
    } else if k == 1 {
        (face[2], face[0])
    } else {
        (face[0], face[1])
    }
}


/// The entry of a neighbor table for incidence `x`.
pub open spec fn slot(nb: Seq<[Option<FaceId>; 3]>, x: int) -> Option<FaceId> {
    nb[x / 3][x % 3]
}


/// One edge-table entry after the first `t` incidences: `key` lies on
/// `count` of them, the first being `first` (where `key` is oriented as
/// there) and the second, when there is one, `second`.
pub open spec fn entry_ok(
    faces: Seq<[VertexId; 3]>,
    key: (VertexId, VertexId),
    first: usize,
    second: usize,
    count: usize,
    t: int,
) -> bool {
    let inc = incidences_upto(faces, key, t);
    &&& inc.len() == count
    &&& 1 <= count <= t
    &&& inc[0] == first
    &&& first < t
    &&& second < t
    &&& key == incidence_edge(faces, first as int)
    &&& count >= 2 ==> inc[1] == second && first < second
}

/// Every incidence below `t` has its edge index recorded.
pub open spec fn eidx_ok(faces: Seq<[VertexId; 3]>, edges: Seq<(VertexId, VertexId)>, eidx: Seq<int>, t: int) -> bool {
    &&& eidx.len() == t
    &&& forall|x: int|
        0 <= x < t ==> 0 <= #[trigger] eidx[x] < edges.len() && same_edge(edges[eidx[x]], incidence_edge(faces, x))
}

/// The first incidences strictly increase.
pub open spec fn firsts_increasing(firsts: Seq<usize>) -> bool {
    forall|e1: int, e2: int| 0 <= e1 < e2 < firsts.len() ==> #[trigger] firsts[e1] < #[trigger] firsts[e2]
}

/// The state of the edge table after the first `t` incidences: the
/// distinct edges met so far, in order of first incidence, each with its
/// first and second incidence and its incidence count, and the edge index
/// of every incidence met.
pub open spec fn edge_table_inv(
    faces: Seq<[VertexId; 3]>,
    edges: Seq<(VertexId, VertexId)>,
    firsts: Seq<usize>,
    seconds: Seq<usize>,
    counts: Seq<usize>,
    eidx: Seq<int>,
    t: int,
) -> bool {
    &&& edges.len() == firsts.len()
    &&& edges.len() == seconds.len()
    &&& edges.len() == counts.len()
    &&& edges.len() <= t
    &&& forall|e: int|
        0 <= e < edges.len() ==> #[trigger] entry_ok(faces, edges[e], firsts[e], seconds[e], counts[e], t)
    &&& firsts_increasing(firsts)
    &&& edges_distinct(edges)
    &&& eidx_ok(faces, edges, eidx, t)
}

/// Incidence `t` lies on the already-listed edge `e`.
#[verifier::rlimit(30)]
proof fn lemma_inv_extend_existing(
    faces: Seq<[VertexId; 3]>,
    edges: Seq<(VertexId, VertexId)>,
    firsts: Seq<usize>,
    seconds: Seq<usize>,
    counts: Seq<usize>,
    eidx: Seq<int>,
    t: int,
    e: int,
)
    requires
        0 <= t < u32::MAX,
        edge_table_inv(faces, edges, firsts, seconds, counts, eidx, t),
        0 <= e < edges.len(),
        same_edge(edges[e], incidence_edge(faces, t)),
    ensures
        counts[e] <= t,
        edge_table_inv(
            faces,
            edges,
            firsts,
            if counts[e] == 1 { seconds.update(e, t as usize) } else { seconds },
            counts.update(e, (counts[e] + 1) as usize),
            eidx.push(e),
            t + 1,
        ),
{
    let seconds2 = if counts[e] == 1 { seconds.update(e, t as usize) } else { seconds };
    let counts2 = counts.update(e, (counts[e] + 1) as usize);
    let eidx2 = eidx.push(e);
    assert(entry_ok(faces, edges[e], firsts[e], seconds[e], counts[e], t));
    assert forall|e2: int| 0 <= e2 < edges.len() implies #[trigger] entry_ok(
        faces,
        edges[e2],
        firsts[e2],
        seconds2[e2],
        counts2[e2],
        t + 1,
    ) by {
        assert(entry_ok(faces, edges[e2], firsts[e2], seconds[e2], counts[e2], t));
        lemma_incidences_step(faces, edges[e2], t);
        let old_inc = incidences_upto(faces, edges[e2], t);
        let inc = incidences_upto(faces, edges[e2], t + 1);
        if e2 != e {
            if same_edge(incidence_edge(faces, t), edges[e2]) {
                lemma_same_edge_equivalence(edges[e], incidence_edge(faces, t), edges[e2]);
                assert(same_edge(edges[e], edges[e2]));
            }
            assert(inc == old_inc);
            assert(counts2[e2] == counts[e2]);
            assert(seconds2[e2] == seconds[e2]);
        } else {
            lemma_same_edge_equivalence(edges[e], incidence_edge(faces, t), edges[e]);
            assert(inc == old_inc.push(t));
            assert(counts2[e2] == counts[e2] + 1);
            assert(inc[0] == old_inc[0]);
            if counts[e2] == 1 {
                assert(seconds2[e2] == t);
                assert(inc[1] == t);
            } else {
                assert(seconds2[e2] == seconds[e2]);
                assert(inc[1] == old_inc[1]);
            }
        }
    }
    assert forall|x: int| 0 <= x < t + 1 implies 0 <= #[trigger] eidx2[x] < edges.len() && same_edge(
        edges[eidx2[x]],
        incidence_edge(faces, x),
    ) by {
        if x < t {
            assert(eidx2[x] == eidx[x]);
        }
    }
    assert(eidx_ok(faces, edges, eidx2, t + 1));
}

/// Incidence `t` lies on no listed edge: it starts a new one.
#[verifier::rlimit(30)]
proof fn lemma_inv_extend_new(
    faces: Seq<[VertexId; 3]>,
    edges: Seq<(VertexId, VertexId)>,
    firsts: Seq<usize>,
    seconds: Seq<usize>,
    counts: Seq<usize>,
    eidx: Seq<int>,
    t: int,
)
    requires
        0 <= t < u32::MAX,
        edge_table_inv(faces, edges, firsts, seconds, counts, eidx, t),
        forall|e: int| 0 <= e < edges.len() ==> !same_edge(#[trigger] edges[e], incidence_edge(faces, t)),
    ensures
        edge_table_inv(
            faces,
            edges.push(incidence_edge(faces, t)),
            firsts.push(t as usize),
            seconds.push(t as usize),
            counts.push(1usize),
            eidx.push(edges.len() as int),
            t + 1,
        ),
{
    let key = incidence_edge(faces, t);
    let edges2 = edges.push(key);
    let firsts2 = firsts.push(t as usize);
    let seconds2 = seconds.push(t as usize);
    let counts2 = counts.push(1usize);
    let eidx2 = eidx.push(edges.len() as int);
    assert forall|x: int| 0 <= x < t implies !same_edge(#[trigger] incidence_edge(faces, x), key) by {
        if same_edge(incidence_edge(faces, x), key) {
            lemma_same_edge_equivalence(edges[eidx[x]], incidence_edge(faces, x), key);
        }
    }
    lemma_incidences_none(faces, key, t);
    lemma_incidences_step(faces, key, t);
    lemma_same_edge_equivalence(key, key, key);
    assert forall|e2: int| 0 <= e2 < edges2.len() implies #[trigger] entry_ok(
        faces,
        edges2[e2],
        firsts2[e2],
        seconds2[e2],
        counts2[e2],
        t + 1,
    ) by {
        lemma_incidences_step(faces, edges2[e2], t);
        if e2 < edges.len() {
            assert(entry_ok(faces, edges[e2], firsts[e2], seconds[e2], counts[e2], t));
            if same_edge(key, edges2[e2]) {
                lemma_same_edge_equivalence(edges2[e2], key, key);
            }
            assert(incidences_upto(faces, edges2[e2], t + 1) == incidences_upto(faces, edges[e2], t));
        } else {
            assert(incidences_upto(faces, edges2[e2], t + 1) =~= seq![t]);
        }
    }
    assert forall|e1: int, e2: int| 0 <= e1 < e2 < firsts2.len() implies #[trigger] firsts2[e1] < #[trigger] firsts2[e2] by {
        if e2 == edges.len() {
            assert(entry_ok(faces, edges[e1], firsts[e1], seconds[e1], counts[e1], t));
        }
    }
    assert(firsts_increasing(firsts2));
    assert forall|e1: int, e2: int|
        0 <= e1 < edges2.len() && 0 <= e2 < edges2.len() && e1 != e2 implies !same_edge(
            #[trigger] edges2[e1],
            #[trigger] edges2[e2],
        ) by {
        if e2 == edges.len() {
            assert(!same_edge(edges[e1], key));
        } else if e1 == edges.len() {
            assert(!same_edge(edges[e2], key));
            lemma_same_edge_equivalence(key, edges[e2], key);
        }
    }
    assert(edges_distinct(edges2));
    assert forall|x: int| 0 <= x < t + 1 implies 0 <= #[trigger] eidx2[x] < edges2.len() && same_edge(
        edges2[eidx2[x]],
        incidence_edge(faces, x),
    ) by {
        if x < t {
            assert(eidx2[x] == eidx[x]);
        }
    }
    assert(eidx_ok(faces, edges2, eidx2, t + 1));
}

/// An edge's face pair holds the faces of its first and (when it has
/// one) second incidence.
pub open spec fn edge_face_entry_ok(ef: [Option<FaceId>; 2], first: usize, second: usize, count: usize) -> bool {
    &&& ef[0] == Some(face_of_incidence(first as int))
    &&& ef[1] == if count >= 2 {
        Some(face_of_incidence(second as int))
    } else {
        None
    }
}

/// The neighbor-table entry of incidence `x` once the edges below `e`
/// have been processed.
pub open spec fn expected_slot(
    firsts: Seq<usize>,
    seconds: Seq<usize>,
    counts: Seq<usize>,
    eidx: Seq<int>,
    e: int,
    x: int,
) -> Option<FaceId> {
    let g = eidx[x];
    if g < e && counts[g] == 2 {
        Some(face_of_incidence(if firsts[g] == x { seconds[g] as int } else { firsts[g] as int }))
    } else {
        None
    }
}

/// The incidences of edge `e` are exactly those the index map sends to
/// `e`; its first and second are two of them.
proof fn lemma_edge_slots(
    faces: Seq<[VertexId; 3]>,
    edges: Seq<(VertexId, VertexId)>,
    firsts: Seq<usize>,
    seconds: Seq<usize>,
    counts: Seq<usize>,
    eidx: Seq<int>,
    n3: int,
    e: int,
)
    requires
        0 <= n3,
        edge_table_inv(faces, edges, firsts, seconds, counts, eidx, n3),
        0 <= e < edges.len(),
    ensures
        eidx[firsts[e] as int] == e,
        counts[e] >= 2 ==> eidx[seconds[e] as int] == e,
        firsts[e] < n3,
        seconds[e] < n3,
        counts[e] >= 2 ==> firsts[e] != seconds[e],
        forall|x: int|
            0 <= x < n3 && #[trigger] eidx[x] == e && counts[e] == 2 ==> x == firsts[e] || x == seconds[e],
{
    let inc = incidences_upto(faces, edges[e], n3);
    assert(entry_ok(faces, edges[e], firsts[e], seconds[e], counts[e], n3));
    let f = firsts[e] as int;
    let g = eidx[f];
    lemma_same_edge_equivalence(edges[g], incidence_edge(faces, f), edges[e]);
    lemma_same_edge_equivalence(edges[e], edges[e], edges[g]);
    if counts[e] >= 2 {
        lemma_listed_incidence_on_edge(faces, edges[e], n3, 1);
        let s2 = seconds[e] as int;
        let g2 = eidx[s2];
        lemma_same_edge_equivalence(edges[g2], incidence_edge(faces, s2), edges[e]);
        lemma_same_edge_equivalence(edges[e], edges[g2], edges[g2]);
    }
    assert forall|x: int|
        0 <= x < n3 && #[trigger] eidx[x] == e && counts[e] == 2 implies x == firsts[e] || x == seconds[e] by {
        lemma_same_edge_equivalence(edges[e], incidence_edge(faces, x), incidence_edge(faces, x));
        lemma_incidence_listed(faces, edges[e], n3, x);
        let j = choose|j: int| 0 <= j < inc.len() && inc[j] == x;
        assert(j == 0 || j == 1);
    }
}

/// The finished tables satisfy [`is_assembled_from`].
proof fn lemma_assembled(
    faces: Seq<[VertexId; 3]>,
    edges: Seq<(VertexId, VertexId)>,
    firsts: Seq<usize>,
    seconds: Seq<usize>,
    counts: Seq<usize>,
    eidx: Seq<int>,
    n3: int,
    nb: Seq<[Option<FaceId>; 3]>,
    edge_faces: Seq<[Option<FaceId>; 2]>,
)
    requires
        n3 == 3 * faces.len(),
        edge_table_inv(faces, edges, firsts, seconds, counts, eidx, n3),
        nb.len() == faces.len(),
        edge_faces.len() == edges.len(),
        forall|x: int|
            0 <= x < n3 ==> #[trigger] slot(nb, x) == expected_slot(
                firsts,
                seconds,
                counts,
                eidx,
                edges.len() as int,
                x,
            ),
        forall|e2: int|
            0 <= e2 < edges.len() ==> edge_face_entry_ok(#[trigger] edge_faces[e2], firsts[e2], seconds[e2], counts[e2]),
    ensures
        is_assembled_from(faces, nb, edges, edge_faces),
{
    assert forall|e: int| 0 <= e < edges.len() implies ({
        let inc = #[trigger] incidences(faces, edges[e]);
        &&& inc.len() >= 1
        &&& edges[e] == incidence_edge(faces, inc[0])
        &&& edge_faces[e][0] == spec_first_face(faces, edges[e])
        &&& edge_faces[e][1] == spec_second_face(faces, edges[e])
    }) by {
        assert(entry_ok(faces, edges[e], firsts[e], seconds[e], counts[e], n3));
        assert(edge_face_entry_ok(edge_faces[e], firsts[e], seconds[e], counts[e]));
    }
    assert forall|e1: int, e2: int| 0 <= e1 < e2 < edges.len() implies incidences(
        faces,
        #[trigger] edges[e1],
    )[0] < incidences(faces, #[trigger] edges[e2])[0] by {
        assert(entry_ok(faces, edges[e1], firsts[e1], seconds[e1], counts[e1], n3));
        assert(entry_ok(faces, edges[e2], firsts[e2], seconds[e2], counts[e2], n3));
        assert(firsts[e1] < firsts[e2]);
    }
    assert forall|t: int| 0 <= t < 3 * faces.len() implies #[trigger] is_listed(edges, incidence_edge(faces, t)) by {
        let g = eidx[t];
        assert(same_edge(edges[g], incidence_edge(faces, t)));
    }
    assert forall|i: int, k: int| 0 <= i < faces.len() && 0 <= k < 3 implies #[trigger] nb[i][k]
        == spec_neighbor(faces, 3 * i + k) by {
        let x = 3 * i + k;
        assert(x / 3 == i && x % 3 == k);
        assert(slot(nb, x) == nb[i][k]);
        let g = eidx[x];
        assert(same_edge(edges[g], incidence_edge(faces, x)));
        lemma_same_edge_equivalence(edges[g], incidence_edge(faces, x), edges[g]);
        lemma_incidences_congruent(faces, incidence_edge(faces, x), edges[g], n3);
        assert(entry_ok(faces, edges[g], firsts[g], seconds[g], counts[g], n3));
        lemma_edge_slots(faces, edges, firsts, seconds, counts, eidx, n3, g);
    }
    assert(neighbors_match(faces, nb));
    assert(edges_recorded(faces, edges, edge_faces));
    assert(edges_ordered(faces, edges));
    assert(edges_distinct(edges));
    assert(edges_cover(faces, edges));
}

/// The index of the edge in `edges` that `key` names, if any.
fn find_edge(edges: &Vec<(VertexId, VertexId)>, key: (VertexId, VertexId)) -> (r: Option<usize>)
    ensures
        match r {
            Some(e) => e < edges.len() && same_edge(edges@[e as int], key),
            None => forall|e: int| 0 <= e < edges.len() ==> !same_edge(#[trigger] edges@[e], key),
        },
{
    let mut e: usize = 0;
    while e < edges.len()
        invariant
            e <= edges.len(),
            forall|e2: int| 0 <= e2 < e ==> !same_edge(#[trigger] edges@[e2], key),
        decreases edges.len() - e,
    {
        if same_edge_exec(edges[e], key) {
            return Some(e);
        }
        e += 1;
    }
    None
}

/// Writes `v` into the neighbor table entry of incidence `x`.
fn set_slot(nb: &mut Vec<[Option<FaceId>; 3]>, x: usize, v: Option<FaceId>)
    requires
        x < 3 * old(nb).len(),
    ensures
        final(nb).len() == old(nb).len(),
        slot(final(nb)@, x as int) == v,
        forall|y: int|
            0 <= y < 3 * old(nb).len() && y != x ==> #[trigger] slot(final(nb)@, y) == slot(old(nb)@, y),
{
    let i = x / 3;
    let k = x % 3;
    let row = nb[i];
    let new_row = if k == 0 {
        [v, row[1], row[2]]
    } else if k == 1 {
        [row[0], v, row[2]]
    } else {
        [row[0], row[1], v]
    };
    nb.set(i, new_row);
    assert forall|y: int| 0 <= y < 3 * old(nb).len() && y != x implies #[trigger] slot(nb@, y) == slot(old(nb)@, y) by {
        if y / 3 == i {
            assert(y % 3 != k);
        }
    }
}

/// Builds a triangulation's topology from its vertex payloads and its
/// faces: the deduplicated undirected edge table (edges numbered in order
/// of first appearance, face by face and local edge by local edge), each
/// edge's first two incident faces, and each face's neighbor across each
/// local edge (set only where the edge has exactly two incidences).
pub fn assemble_triangulation<P>(pts: Vec<P>, faces: Vec<[VertexId; 3]>) -> (t: Triangulation2<P>)
    requires
        3 * faces.len() <= u32::MAX,
    ensures
        t.spec_vertices() == pts@,
        t.spec_faces() == faces@,
        is_assembled_from(t.spec_faces(), t.spec_face_neighbors(), t.spec_edges(), t.spec_edge_faces()),
{
    let n3: usize = faces.len() * 3;
    let mut edges: Vec<(VertexId, VertexId)> = Vec::new();
    let mut firsts: Vec<usize> = Vec::new();
    let mut seconds: Vec<usize> = Vec::new();
    let mut counts: Vec<usize> = Vec::new();
    let ghost mut eidx: Seq<int> = Seq::empty();
    let mut t: usize = 0;
    while t < n3
        invariant
            n3 == 3 * faces.len(),
            n3 <= u32::MAX,
            t <= n3,
            edge_table_inv(faces@, edges@, firsts@, seconds@, counts@, eidx, t as int),
        decreases n3 - t,
    {
        let key = local_edge_exec(faces[t / 3], t % 3);
        assert(key == incidence_edge(faces@, t as int));
        match find_edge(&edges, key) {
            Some(e) => {
                proof {
                    lemma_inv_extend_existing(faces@, edges@, firsts@, seconds@, counts@, eidx, t as int, e as int);
                }
                if counts[e] == 1 {
                    seconds.set(e, t);
                }
                let c = counts[e];
                counts.set(e, c + 1);
                proof {
                    eidx = eidx.push(e as int);
                }
            },
            None => {
                proof {
                    lemma_inv_extend_new(faces@, edges@, firsts@, seconds@, counts@, eidx, t as int);
                }
                edges.push(key);
                firsts.push(t);
                seconds.push(t);
                counts.push(1);
                proof {
                    eidx = eidx.push((edges.len() - 1) as int);
                }
            },
        }
        t += 1;
    }
    proof {
        assert forall|e2: int| 0 <= e2 < edges.len() implies #[trigger] firsts@[e2] < n3 && seconds@[e2] < n3 by {
            assert(entry_ok(faces@, edges@[e2], firsts@[e2], seconds@[e2], counts@[e2], t as int));
        }
    }
    let mut edge_faces: Vec<[Option<FaceId>; 2]> = Vec::new();
    let mut e: usize = 0;
    while e < edges.len()
        invariant
            n3 == 3 * faces.len(),
            n3 <= u32::MAX,
            edges.len() == firsts.len(),
            edges.len() == seconds.len(),
            edges.len() == counts.len(),
            e <= edges.len(),
            edge_faces.len() == e,
            edge_table_inv(faces@, edges@, firsts@, seconds@, counts@, eidx, n3 as int),
            forall|e2: int| 0 <= e2 < edges.len() ==> #[trigger] firsts@[e2] < n3 && seconds@[e2] < n3,
            forall|e2: int|
                0 <= e2 < e ==> edge_face_entry_ok(#[trigger] edge_faces@[e2], firsts@[e2], seconds@[e2], counts@[e2]),
        decreases edges.len() - e,
    {
        let f0 = Some(FaceId((firsts[e] / 3) as u32));
        let f1 = if counts[e] >= 2 {
            Some(FaceId((seconds[e] / 3) as u32))
        } else {
            None
        };
        let ghost old_ef = edge_faces@;
        edge_faces.push([f0, f1]);
        proof {
            assert(f0 == Some(face_of_incidence(firsts@[e as int] as int)));
            assert(f1 == if counts@[e as int] >= 2 {
                Some(face_of_incidence(seconds@[e as int] as int))
            } else {
                None
            });
            assert(edge_faces@[e as int][0] == f0 && edge_faces@[e as int][1] == f1);
            assert forall|e2: int|
                0 <= e2 < e + 1 implies edge_face_entry_ok(#[trigger] edge_faces@[e2], firsts@[e2], seconds@[e2], counts@[e2]) by {
                if e2 < e {
                    assert(edge_faces@[e2] == old_ef[e2]);
                }
            }
        }
        e += 1;
    }
    let mut nb: Vec<[Option<FaceId>; 3]> = Vec::new();
    let mut i: usize = 0;
    while i < faces.len()
        invariant
            i <= faces.len(),
            nb.len() == i,
            forall|j: int| 0 <= j < i ==> (#[trigger] nb@[j])[0] is None && nb@[j][1] is None && nb@[j][2] is None,
        decreases faces.len() - i,
    {
        nb.push([None, None, None]);
        i += 1;
    }
    let mut e: usize = 0;
    while e < edges.len()
        invariant
            n3 == 3 * faces.len(),
            n3 <= u32::MAX,
            e <= edges.len(),
            nb.len() == faces.len(),
            edge_table_inv(faces@, edges@, firsts@, seconds@, counts@, eidx, n3 as int),
            forall|x: int|
                0 <= x < n3 ==> #[trigger] slot(nb@, x) == expected_slot(
                    firsts@,
                    seconds@,
                    counts@,
                    eidx,
                    e as int,
                    x,
                ),
        decreases edges.len() - e,
    {
        let ghost old_nb = nb@;
        proof {
            lemma_edge_slots(faces@, edges@, firsts@, seconds@, counts@, eidx, n3 as int, e as int);
        }
        if counts[e] == 2 {
            let f = firsts[e];
            let s2 = seconds[e];
            set_slot(&mut nb, f, Some(FaceId((s2 / 3) as u32)));
            set_slot(&mut nb, s2, Some(FaceId((f / 3) as u32)));
        }
        proof {
            assert forall|x: int| 0 <= x < n3 implies #[trigger] slot(nb@, x) == expected_slot(
                firsts@,
                seconds@,
                counts@,
                eidx,
                e + 1,
                x,
            ) by {
                assert(slot(old_nb, x) == expected_slot(firsts@, seconds@, counts@, eidx, e as int, x));
            }
        }
        e += 1;
    }
    proof {
        lemma_assembled(faces@, edges@, firsts@, seconds@, counts@, eidx, n3 as int, nb@, edge_faces@);
    }
    Triangulation2 { vertices: pts, faces, face_neighbors: nb, edges, edge_faces }
}

} // verus!
