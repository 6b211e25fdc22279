//! Mesh batching: accumulates vertices and indices for rendering, keeping
//! every appended index pointing at the vertex run it arrived with.
//!
//! The kernel never interprets vertex data; a vertex is carried as the raw
//! bit patterns of its position and colour, and uploading the batch to a
//! device is the embedding's business.

use vstd::prelude::*;

verus! {

/// One vertex, as raw attribute bit patterns.
#[derive(Copy, Clone, Debug, PartialEq, Eq)]
pub struct MeshVertex {
    /// The bits of the three position coordinates.
    pub position: [u32; 3],
    /// The bits of the four colour channels.
    pub color: [u32; 4],
}

/// A growing batch of vertices and triangle indices.
pub struct MeshBuilder {
    pub vertices: Vec<MeshVertex>,
    pub indices: Vec<u32>,
}

impl MeshBuilder {
    /// An empty batch.
    pub fn new() -> (r: MeshBuilder)
        ensures
            r.vertices@ =~= Seq::<MeshVertex>::empty(),
            r.indices@ =~= Seq::<u32>::empty(),
    {
        MeshBuilder { vertices: Vec::new(), indices: Vec::new() }
    }

    /// Empties the batch.
    pub fn clear(&mut self)
        ensures
            final(self).vertices@ =~= Seq::<MeshVertex>::empty(),
            final(self).indices@ =~= Seq::<u32>::empty(),
    {
        self.vertices.clear();
        self.indices.clear();
    }

    /// Appends a vertex run and its indices; each index is shifted by the
    /// number of vertices already in the batch, so it still points at the
    /// vertex it came with.
    #[verifier::loop_isolation(false)]
    pub fn extend(&mut self, vertices: &Vec<MeshVertex>, indices: &Vec<u32>)
        requires
            old(self).vertices@.len() + vertices@.len() <= 0xFFFF_FFFFu32,
            forall|i: int|
                0 <= i < indices@.len() ==> indices@[i] + old(self).vertices@.len()
                    <= 0xFFFF_FFFFu32,
        ensures
            final(self).vertices@ == old(self).vertices@ + vertices@,
            final(self).indices@ == old(self).indices@ + indices@.map_values(
                |x: u32| (x + old(self).vertices@.len()) as u32,
            ),
    {
        let offset = self.vertices.len() as u32;
        let ghost oldv = self.vertices@;
        let ghost oldi = self.indices@;
        let n = vertices.len();
        let mut k: usize = 0;
        while k < n
            invariant
                0 <= k <= n,
                n == vertices@.len(),
                self.vertices@ == oldv + vertices@.take(k as int),
                self.indices@ == oldi,
            decreases n - k,
        {
            proof {
                assert((oldv + vertices@.take(k as int)).push(vertices@[k as int]) =~= oldv
                    + vertices@.take(k + 1));
            }
            self.vertices.push(vertices[k]);
            k = k + 1;
        }
        proof {
            assert(vertices@.take(n as int) =~= vertices@);
        }
        let ghost shifted = indices@.map_values(|x: u32| (x + oldv.len()) as u32);
        let m = indices.len();
        let mut q: usize = 0;
        while q < m
            invariant
                0 <= q <= m,
                m == indices@.len(),
                self.vertices@ == oldv + vertices@,
                offset == oldv.len(),
                self.indices@ == oldi + shifted.take(q as int),
            decreases m - q,
        {
            proof {
                assert(shifted[q as int] == (indices@[q as int] + oldv.len()) as u32);
                assert((oldi + shifted.take(q as int)).push(shifted[q as int]) =~= oldi
                    + shifted.take(q + 1));
            }
            self.indices.push(indices[q] + offset);
            q = q + 1;
        }
        proof {
            assert(shifted.take(m as int) =~= shifted);
        }
    }

    /// Appends a produced vertex run together with indices given relative
    /// to that run; the indices are shifted onto the batch like `extend`.
    pub fn extend_with(&mut self, vertices: Vec<MeshVertex>, rel_indices: Vec<u32>)
        requires
            old(self).vertices@.len() + vertices@.len() <= 0xFFFF_FFFFu32,
            forall|i: int|
                0 <= i < rel_indices@.len() ==> rel_indices@[i] + old(self).vertices@.len()
                    <= 0xFFFF_FFFFu32,
        ensures
            final(self).vertices@ == old(self).vertices@ + vertices@,
            final(self).indices@ == old(self).indices@ + rel_indices@.map_values(
                |x: u32| (x + old(self).vertices@.len()) as u32,
            ),
    {
        self.extend(&vertices, &rel_indices);
    }
}

impl Default for MeshBuilder {
    /// An empty batch.
    fn default() -> (r: MeshBuilder)
        ensures
            r.vertices@ =~= Seq::<MeshVertex>::empty(),
            r.indices@ =~= Seq::<u32>::empty(),
    {
        MeshBuilder::new()
    }
}


} // verus!
