use vstd::prelude::*;

verus! {

/// A vertex index whose three coordinates lie inside flat position and
/// normal arrays of the given lengths.
pub open spec fn vertex_fits(index: u32, positions_len: int, normals_len: int) -> bool {
    3 * index + 2 < positions_len && 3 * index + 2 < normals_len
}

/// Groups an indexed mesh's index buffer into triangles. Each vertex index
/// `v` becomes the offset `3 * v` of its first coordinate in the flat
/// position and normal arrays. `None` when the buffer does not split into
/// whole triangles or an index points past either array.
pub fn mesh_triangles(indices: &Vec<u32>, positions_len: usize, normals_len: usize) -> (r: Option<
    Vec<[usize; 3]>,
>)
    ensures
        r is Some <==> (indices.len() % 3 == 0 && forall|k: int|
            0 <= k < indices.len() ==> vertex_fits(
                #[trigger] indices@[k],
                positions_len as int,
                normals_len as int,
            )),
        r is Some ==> r->0.len() == indices.len() / 3 && forall|t: int, c: int|
            0 <= t < r->0.len() && 0 <= c < 3 ==> #[trigger] r->0@[t][c] == 3 * indices@[3 * t
                + c],
{
    if indices.len() % 3 != 0 {
        return None;
    }
    let mut k: usize = 0;
    while k < indices.len()
        invariant
            k <= indices.len(),
            forall|j: int|
                0 <= j < k ==> vertex_fits(
                    #[trigger] indices@[j],
                    positions_len as int,
                    normals_len as int,
                ),
        decreases indices.len() - k,
    {
        let last = 3 * (indices[k] as u64) + 2;
        if last >= positions_len as u64 || last >= normals_len as u64 {
            return None;
        }
        k = k + 1;
    }
    let count = indices.len() / 3;
    let mut out: Vec<[usize; 3]> = Vec::new();
    let mut t: usize = 0;
    while t < count
        invariant
            count == indices.len() / 3,
            indices.len() % 3 == 0,
            t <= count,
            out.len() == t,
            forall|j: int|
                0 <= j < indices.len() ==> vertex_fits(
                    #[trigger] indices@[j],
                    positions_len as int,
                    normals_len as int,
                ),
            forall|s: int, c: int|
                0 <= s < t && 0 <= c < 3 ==> #[trigger] out@[s][c] == 3 * indices@[3 * s + c],
        decreases count - t,
    {
        let base = 3 * t;
        let a = indices[base] as usize;
        let b = indices[base + 1] as usize;
        let c = indices[base + 2] as usize;
        assert(vertex_fits(indices@[base as int], positions_len as int, normals_len as int));
        assert(vertex_fits(indices@[base + 1], positions_len as int, normals_len as int));
        assert(vertex_fits(indices@[base + 2], positions_len as int, normals_len as int));
        let corners: [usize; 3] = [3 * a, 3 * b, 3 * c];
        out.push(corners);
        t = t + 1;
    }
    Some(out)
}

} // verus!
