//! Turning file contents into a recipe: the content-defined chunks of the
//! data, each named by its content address, and the reverse.
use vstd::prelude::*;
use crate::chunker::{lemma_scan_open_bound, scan, spec_chunk_lengths, Chunker};
use crate::file_manager::{FileKind, FileManager, FileRecipe};
use crate::hash::{chunk_address, chunk_hash};

verus! {

/// The concatenation of a sequence of chunks.
pub open spec fn concat(chunks: Seq<Seq<u8>>) -> Seq<u8>
    decreases chunks.len(),
{
    if chunks.len() == 0 {
        Seq::empty()
    } else {
        concat(chunks.drop_last()) + chunks.last()
    }
}

/// `chunks` is `data` cut at its content-defined boundaries: the lengths
/// are those the chunker gives and the pieces add up to the data.
pub open spec fn is_chunking_of(chunks: Seq<Seq<u8>>, data: Seq<u8>) -> bool {
    &&& chunks.len() == spec_chunk_lengths(data).len()
    &&& forall|i: int| 0 <= i < chunks.len() ==> #[trigger] chunks[i].len() == spec_chunk_lengths(data)[i]
    &&& concat(chunks) == data
}

/// `recipe` describes the file `data` cut into `chunks`.
pub open spec fn recipe_describes(recipe: FileRecipe, chunks: Seq<Seq<u8>>, data: Seq<u8>) -> bool {
    &&& recipe.file_size == data.len()
    &&& recipe.kind == FileKind::File
    &&& recipe.chunks.deep_view().len() == chunks.len()
    &&& forall|i: int|
        0 <= i < chunks.len() ==> #[trigger] recipe.chunks.deep_view()[i] == chunk_address(chunks[i])
}

impl FileManager {
    /// Cuts `data` into content-defined chunks and writes the recipe that
    /// rebuilds it: the file size and each chunk's content address, in
    /// order. Returns the recipe and the chunks, for the chunk store.
    pub fn create_recipe_from_data(data: &[u8]) -> (r: (FileRecipe, Vec<Vec<u8>>))
        ensures
            is_chunking_of(r.1.deep_view(), data@),
            recipe_describes(r.0, r.1.deep_view(), data@),
    {
        let mut chunker = Chunker::new();
        let mut recipe: Vec<String> = Vec::new();
        let mut chunks: Vec<Vec<u8>> = Vec::new();
        let mut current_chunk_buffer: Vec<u8> = Vec::new();
        let mut total_size: u64 = 0;
        let mut k: usize = 0;
        proof {
            assert(data@.take(0) =~= Seq::<u8>::empty());
            assert(chunks.deep_view() =~= Seq::<Seq<u8>>::empty());
            assert(concat(chunks.deep_view()) + current_chunk_buffer@ =~= data@.take(0));
        }
        while k < data.len()
            invariant
                k <= data@.len(),
                ({
                    let (cuts, h, cur) = scan(data@.take(k as int));
                    &&& chunks.deep_view().len() == cuts.len()
                    &&& forall|i: int|
                        0 <= i < cuts.len() ==> #[trigger] chunks.deep_view()[i].len() == cuts[i]
                    &&& chunker@ == h
                    &&& current_chunk_buffer@.len() == cur
                }),
                concat(chunks.deep_view()) + current_chunk_buffer@ == data@.take(k as int),
                total_size == concat(chunks.deep_view()).len(),
                recipe.deep_view().len() == chunks.deep_view().len(),
                forall|i: int|
                    0 <= i < chunks.deep_view().len() ==> #[trigger] recipe.deep_view()[i] == chunk_address(
                        chunks.deep_view()[i],
                    ),
            decreases data@.len() - k,
        {
            let byte = data[k];
            proof {
                assert(data@.take(k + 1).drop_last() =~= data@.take(k as int));
                lemma_scan_open_bound(data@.take(k as int));
            }
            current_chunk_buffer.push(byte);
            chunker.feed_byte(byte);
            proof {
                assert(data@.take(k + 1) =~= data@.take(k as int).push(byte));
                assert(concat(chunks.deep_view()) + current_chunk_buffer@ =~= data@.take(k + 1));
            }
            if chunker.should_cut(current_chunk_buffer.len()) {
                let hash = chunk_hash(current_chunk_buffer.as_slice());
                let ghost cs0 = chunks.deep_view();
                let ghost rs0 = recipe.deep_view();
                let ghost buf = current_chunk_buffer@;
                assert(current_chunk_buffer.deep_view() =~= buf);
                total_size = total_size + current_chunk_buffer.len() as u64;
                recipe.push(hash);
                chunks.push(current_chunk_buffer);
                current_chunk_buffer = Vec::new();
                chunker.reset();
                proof {
                    assert(chunks.deep_view() =~= cs0.push(buf));
                    assert(recipe.deep_view() =~= rs0.push(chunk_address(buf)));
                    assert(chunks.deep_view().drop_last() =~= cs0);
                    assert(concat(chunks.deep_view()) + current_chunk_buffer@ =~= data@.take(k + 1));
                }
            }
            k = k + 1;
        }
        proof {
            assert(data@.take(data@.len() as int) =~= data@);
        }
        if current_chunk_buffer.len() > 0 {
            let hash = chunk_hash(current_chunk_buffer.as_slice());
            let ghost cs0 = chunks.deep_view();
            let ghost rs0 = recipe.deep_view();
            let ghost buf = current_chunk_buffer@;
            assert(current_chunk_buffer.deep_view() =~= buf);
            total_size = total_size + current_chunk_buffer.len() as u64;
            recipe.push(hash);
            chunks.push(current_chunk_buffer);
            proof {
                assert(chunks.deep_view() =~= cs0.push(buf));
                assert(recipe.deep_view() =~= rs0.push(chunk_address(buf)));
                assert(chunks.deep_view().drop_last() =~= cs0);
            }
        } else {
            proof {
                assert(current_chunk_buffer@ =~= Seq::<u8>::empty());
                assert(concat(chunks.deep_view()) =~= data@);
            }
        }
        (FileRecipe { file_size: total_size, chunks: recipe, kind: FileKind::File }, chunks)
    }
}

/// The chunks joined in order.
pub fn assemble_chunks(chunks: &Vec<Vec<u8>>) -> (data: Vec<u8>)
    ensures
        data@ == concat(chunks.deep_view()),
{
    let mut data: Vec<u8> = Vec::new();
    let ghost cs = chunks.deep_view();
    let mut i: usize = 0;
    proof {
        assert(cs.take(0) =~= Seq::<Seq<u8>>::empty());
    }
    while i < chunks.len()
        invariant
            i <= chunks@.len(),
            cs == chunks.deep_view(),
            data@ == concat(cs.take(i as int)),
        decreases chunks@.len() - i,
    {
        let chunk = &chunks[i];
        let ghost d0 = data@;
        let mut j: usize = 0;
        while j < chunk.len()
            invariant
                j <= chunk@.len(),
                data@ == d0 + chunk@.take(j as int),
            decreases chunk@.len() - j,
        {
            data.push(chunk[j]);
            assert(chunk@.take(j + 1) =~= chunk@.take(j as int).push(chunk@[j as int]));
            j = j + 1;
        }
        proof {
            assert(chunk.deep_view() =~= chunk@);
            assert(chunk@.take(chunk@.len() as int) =~= chunk@);
            assert(cs.take(i + 1).drop_last() =~= cs.take(i as int));
            assert(cs[i as int] == chunk@);
        }
        i = i + 1;
    }
    assert(cs.take(chunks@.len() as int) =~= cs);
    data
}

/// Rebuilding a file from the chunks of its recipe gives the file back.
pub proof fn lemma_chunks_rebuild(chunks: Seq<Seq<u8>>, data: Seq<u8>)
    requires
        is_chunking_of(chunks, data),
    ensures
        concat(chunks) == data,
{
}

} // verus!
