use vstd::prelude::*;

verus! {

/// The chunks laid end to end.
pub open spec fn flatten(chunks: Seq<Seq<u8>>) -> Seq<u8>
    decreases chunks.len(),
{
    if chunks.len() == 0 {
        Seq::empty()
    } else {
        flatten(chunks.drop_last()) + chunks.last()
    }
}

pub open spec fn views(chunks: Seq<Vec<u8>>) -> Seq<Seq<u8>> {
    chunks.map_values(|c: Vec<u8>| c@)
}

/// Splits `blob` into consecutive chunks of `chunk_size` bytes, the last one possibly
/// shorter; an empty blob gives no chunk.
pub fn split_bytes_in_chunk(blob: &Vec<u8>, chunk_size: usize) -> (r: Vec<Vec<u8>>)
    requires
        chunk_size > 0,
    ensures
        flatten(views(r@)) == blob@,
        forall|i: int| 0 <= i < r@.len() - 1 ==> (#[trigger] r@[i])@.len() == chunk_size,
        forall|i: int| 0 <= i < r@.len() ==> 0 < (#[trigger] r@[i])@.len() <= chunk_size,
{
    let len = blob.len();
    let mut r: Vec<Vec<u8>> = Vec::new();
    let mut pos: usize = 0;
    while pos < len
        invariant_except_break
            forall|i: int| 0 <= i < r@.len() ==> (#[trigger] r@[i])@.len() == chunk_size,
        invariant
            len == blob@.len(),
            chunk_size > 0,
            0 <= pos <= len,
            flatten(views(r@)) == blob@.take(pos as int),
            forall|i: int| 0 <= i < r@.len() - 1 ==> (#[trigger] r@[i])@.len() == chunk_size,
            forall|i: int| 0 <= i < r@.len() ==> 0 < (#[trigger] r@[i])@.len() <= chunk_size,
        ensures
            flatten(views(r@)) == blob@.take(pos as int),
            pos == len,
            forall|i: int| 0 <= i < r@.len() - 1 ==> (#[trigger] r@[i])@.len() == chunk_size,
            forall|i: int| 0 <= i < r@.len() ==> 0 < (#[trigger] r@[i])@.len() <= chunk_size,
        decreases len - pos,
    {
        let n = if chunk_size < len - pos {
            chunk_size
        } else {
            len - pos
        };
        let mut chunk: Vec<u8> = Vec::new();
        let mut j: usize = 0;
        while j < n
            invariant
                len == blob@.len(),
                pos + n <= len,
                0 <= j <= n,
                chunk@ == blob@.subrange(pos as int, pos + j),
            decreases n - j,
        {
            chunk.push(blob[pos + j]);
            j = j + 1;
            assert(chunk@ =~= blob@.subrange(pos as int, pos + j));
        }
        let ghost r0 = r@;
        r.push(chunk);
        proof {
            assert(views(r@).drop_last() =~= views(r0));
            assert(blob@.take(pos + n) =~= blob@.take(pos as int) + blob@.subrange(
                pos as int,
                pos + n,
            ));
        }
        pos = pos + n;
        if n < chunk_size {
            break;
        }
    }
    assert(blob@.take(len as int) =~= blob@);
    r
}

} // verus!
