//! Partitioning a buffer into contiguous chunks that end at record
//! boundaries, for independent consumption.
use crate::model::NL;
use crate::outside::find_first;
use vstd::prelude::*;
use vstd::slice::slice_subrange;

verus! {

/// The chunks laid end to end.
pub open spec fn chunks_concat(cs: Seq<&[u8]>) -> Seq<u8> {
    cs.flat_map(|c: &[u8]| c@)
}

/// Split `input` into at most `n` contiguous chunks such that the chunks
/// laid end to end reproduce `input` exactly and every chunk except the
/// last ends right after a line feed, so no boundary falls inside a record.
/// An empty buffer or `n == 0` yields no chunks.
pub fn into_chunks<'a>(input: &'a [u8], n: usize) -> (r: Vec<&'a [u8]>)
    ensures
        (input@.len() == 0 || n == 0) ==> r@.len() == 0,
        (input@.len() > 0 && n > 0) ==> r@.len() >= 1,
        n > 0 ==> chunks_concat(r@) == input@,
        forall|i: int| 0 <= i < r@.len() ==> (#[trigger] r@[i])@.len() > 0,
        forall|i: int| 0 <= i < r@.len() - 1 ==> (#[trigger] r@[i])@.last() == NL,
{
    let mut chunks: Vec<&'a [u8]> = Vec::new();
    let mut start: usize = 0;
    proof {
        assert(chunks_concat(chunks@) =~= input@.subrange(0, 0));
    }
    if input.len() == 0 || n == 0 {
        return chunks;
    }
    let chunk_size = input.len() / n;
    while start < input.len()
        invariant
            start <= input.len(),
            chunks_concat(chunks@) == input@.subrange(0, start as int),
            forall|i: int| 0 <= i < chunks@.len() ==> (#[trigger] chunks@[i])@.len() > 0,
            forall|i: int| 0 <= i < chunks@.len() - 1 ==> (#[trigger] chunks@[i])@.last() == NL,
            chunks@.len() > 0 && start < input.len() ==> chunks@.last()@.last() == NL,
        decreases input.len() - start,
    {
        let base = if chunk_size < input.len() - start {
            start + chunk_size
        } else {
            input.len()
        };
        let end = match find_first(NL, slice_subrange(input, base, input.len())) {
            Some(off) => base + off + 1,
            None => input.len(),
        };
        let chunk = slice_subrange(input, start, end);
        proof {
            chunks@.lemma_flat_map_push(|c: &[u8]| c@, chunk);
            assert(input@.subrange(0, start as int) + chunk@ =~= input@.subrange(0, end as int));
        }
        chunks.push(chunk);
        start = end;
    }
    proof {
        assert(input@.subrange(0, input@.len() as int) =~= input@);
    }
    chunks
}

} // verus!
