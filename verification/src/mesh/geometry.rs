//! The `Mesh` struct: vertices of whatever kind the renderer draws, and the
//! indices that join them to triangles.

use vstd::prelude::*;

verus! {

/// The indices of one triangle.
pub type TriIndexes = [u32; 3];

/// Whether `groups` are the items of `flat` taken three at a time, in
/// order; what is left over at the end, one item or two, belongs to no
/// group.
pub open spec fn in_threes<T>(flat: Seq<T>, groups: Seq<[T; 3]>) -> bool {
    &&& groups.len() == flat.len() / 3
    &&& forall|i: int|
        0 <= i < groups.len() ==> (#[trigger] groups[i])@ == seq![
            flat[3 * i],
            flat[3 * i + 1],
            flat[3 * i + 2],
        ]
}

/// Whether `groups` are the items of `flat` taken two at a time, in order;
/// an item left over at the end belongs to no group.
pub open spec fn in_twos<T>(flat: Seq<T>, groups: Seq<[T; 2]>) -> bool {
    &&& groups.len() == flat.len() / 2
    &&& forall|i: int|
        0 <= i < groups.len() ==> (#[trigger] groups[i])@ == seq![flat[2 * i], flat[2 * i + 1]]
}

/// Takes the items of `flat` three at a time.
pub fn threes<T: Copy>(flat: &[T]) -> (groups: Vec<[T; 3]>)
    ensures
        in_threes(flat@, groups@),
{
    let mut groups: Vec<[T; 3]> = Vec::new();
    let mut i: usize = 0;
    while flat.len() - i >= 3
        invariant
            i == 3 * groups@.len(),
            i <= flat@.len(),
            forall|k: int|
                0 <= k < groups@.len() ==> (#[trigger] groups@[k])@ == seq![
                    flat@[3 * k],
                    flat@[3 * k + 1],
                    flat@[3 * k + 2],
                ],
        decreases flat@.len() - i,
    {
        let group = [flat[i], flat[i + 1], flat[i + 2]];
        assert(group@ =~= seq![flat@[i as int], flat@[i + 1], flat@[i + 2]]);
        groups.push(group);
        i += 3;
    }
    groups
}

/// Takes the items of `flat` two at a time.
pub fn twos<T: Copy>(flat: &[T]) -> (groups: Vec<[T; 2]>)
    ensures
        in_twos(flat@, groups@),
{
    let mut groups: Vec<[T; 2]> = Vec::new();
    let mut i: usize = 0;
    while flat.len() - i >= 2
        invariant
            i == 2 * groups@.len(),
            i <= flat@.len(),
            forall|k: int|
                0 <= k < groups@.len() ==> (#[trigger] groups@[k])@ == seq![
                    flat@[2 * k],
                    flat@[2 * k + 1],
                ],
        decreases flat@.len() - i,
    {
        let group = [flat[i], flat[i + 1]];
        assert(group@ =~= seq![flat@[i as int], flat@[i + 1]]);
        groups.push(group);
        i += 2;
    }
    groups
}

/// Whether `out` joins the items of `a`, each with the item of the same
/// rank in `b` and in `c`, and with `b0` or `c0` where `b` or `c` holds no
/// item of that rank.
pub open spec fn joined<A, B, C>(
    a: Seq<A>,
    b: Seq<B>,
    c: Seq<C>,
    b0: B,
    c0: C,
    out: Seq<(A, B, C)>,
) -> bool {
    &&& out.len() == a.len()
    &&& forall|i: int|
        0 <= i < a.len() ==> #[trigger] out[i] == (
            a[i],
            if i < b.len() {
                b[i]
            } else {
                b0
            },
            if i < c.len() {
                c[i]
            } else {
                c0
            },
        )
}

/// Joins the items of `a`, each with the item of the same rank in `b` and
/// in `c`, and with `b0` or `c0` where `b` or `c` holds no item of that
/// rank. Items of `b` and `c` beyond the length of `a` join nothing.
pub fn with_defaults<A: Copy, B: Copy, C: Copy>(a: &[A], b: &[B], c: &[C], b0: B, c0: C) -> (out:
    Vec<(A, B, C)>)
    ensures
        joined(a@, b@, c@, b0, c0, out@),
{
    let mut out: Vec<(A, B, C)> = Vec::new();
    let mut i: usize = 0;
    while i < a.len()
        invariant
            i <= a@.len(),
            joined(a@.take(i as int), b@, c@, b0, c0, out@),
        decreases a@.len() - i,
    {
        let second = if i < b.len() {
            b[i]
        } else {
            b0
        };
        let third = if i < c.len() {
            c[i]
        } else {
            c0
        };
        out.push((a[i], second, third));
        i += 1;
    }
    proof {
        assert(a@.take(a@.len() as int) =~= a@);
    }
    out
}

/// A mesh: its vertices, of the kind `V` that the renderer draws, and the
/// indices into them.
#[derive(Clone, Debug)]
pub struct Mesh<V> {
    /// The vertices
    pub vertices: Vec<V>,
    /// The indices, three to a triangle
    pub indices: Vec<u32>,
}

impl<V> Mesh<V> {
    /// Creates a new `Mesh` with the `vertices` and `indices` preset.
    pub fn with_set_data(vertices: Vec<V>, indices: Vec<u32>) -> (mesh: Self)
        ensures
            mesh.vertices == vertices,
            mesh.indices == indices,
    {
        Self { vertices, indices }
    }

    /// Creates a new `Mesh` without vertices and indices, with room for
    /// `v_size` vertices and `i_size` indices.
    pub fn with_capacity(v_size: usize, i_size: usize) -> (mesh: Self)
        ensures
            mesh.vertices@ == Seq::<V>::empty(),
            mesh.indices@ == Seq::<u32>::empty(),
    {
        Self { vertices: Vec::with_capacity(v_size), indices: Vec::with_capacity(i_size) }
    }

    /// Adds a vertex to the mesh.
    pub fn add_vertex_data(&mut self, vd: V)
        ensures
            final(self).vertices@ == old(self).vertices@.push(vd),
            final(self).indices == old(self).indices,
    {
        self.vertices.push(vd);
    }

    /// Adds an index to the mesh.
    pub fn add_index(&mut self, i: u32)
        ensures
            final(self).indices@ == old(self).indices@.push(i),
            final(self).vertices == old(self).vertices,
    {
        self.indices.push(i);
    }

    /// Appends indices to the mesh, and leaves `indices` empty.
    pub fn add_indices(&mut self, indices: &mut Vec<u32>)
        ensures
            final(self).indices@ == old(self).indices@ + old(indices)@,
            final(indices)@ == Seq::<u32>::empty(),
            final(self).vertices == old(self).vertices,
    {
        self.indices.append(indices);
    }

    /// Converts the indices into triangles, three indices to each; indices
    /// left over at the end join no triangle.
    pub fn to_indices_tri(&self) -> (tri: Vec<TriIndexes>)
        ensures
            in_threes(self.indices@, tri@),
    {
        threes(self.indices.as_slice())
    }
}

} // verus!
