use vstd::prelude::*;

verus! {

/// The concatenation of a sequence of byte chunks, in order.
pub open spec fn concat_all(chunks: Seq<Seq<u8>>) -> Seq<u8>
    decreases chunks.len(),
{
    if chunks.len() == 0 {
        Seq::<u8>::empty()
    } else {
        concat_all(chunks.drop_last()) + chunks.last()
    }
}

/// Assembles the byte chunks that a collaborator read from a remote stream
/// into the downloaded byte sequence: exactly their concatenation, in the
/// order they arrived. Reading the stream itself is the collaborator's
/// business; this is the part of a download that is pure computation.
pub fn inner_download(chunks: &Vec<Vec<u8>>) -> (r: Vec<u8>)
    ensures
        r@ == concat_all(chunks.deep_view()),
{
    let mut r: Vec<u8> = Vec::new();
    let mut i: usize = 0;
    while i < chunks.len()
        invariant
            i <= chunks.len(),
            r@ == concat_all(chunks.deep_view().take(i as int)),
        decreases chunks.len() - i,
    {
        let chunk = &chunks[i];
        let mut j: usize = 0;
        while j < chunk.len()
            invariant
                i < chunks.len(),
                j <= chunk.len(),
                chunk == chunks[i as int],
                r@ == concat_all(chunks.deep_view().take(i as int)) + chunks.deep_view()[i as int].take(j as int),
            decreases chunk.len() - j,
        {
            r.push(chunk[j]);
            proof {
                assert(chunks.deep_view()[i as int] == chunk@.map_values(|b: u8| b));
                assert(chunks.deep_view()[i as int][j as int] == chunk@[j as int]);
                assert(chunks.deep_view()[i as int].take(j as int).push(chunk@[j as int])
                    =~= chunks.deep_view()[i as int].take(j as int + 1));
            }
            j += 1;
        }
        proof {
            let dv = chunks.deep_view();
            assert(dv[i as int].take(chunk@.len() as int) =~= dv[i as int]);
            assert(dv.take(i as int + 1).drop_last() =~= dv.take(i as int));
            assert(dv.take(i as int + 1).last() == dv[i as int]);
            assert(r@ == concat_all(dv.take(i as int + 1)));
        }
        i += 1;
    }
    proof {
        assert(chunks.deep_view().take(chunks@.len() as int) =~= chunks.deep_view());
    }
    r
}

} // verus!
