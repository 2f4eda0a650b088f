use arcfs::chunker::chunk_lengths;
use arcfs::file_manager::{FileKind, FileManager};
use arcfs::hash::{chunk_hash, to_hex};
use arcfs::recipe::assemble_chunks;

fn lcg_data(n: u32) -> Vec<u8> {
    (0u32..n)
        .map(|i| {
            let x = i.wrapping_mul(1103515245).wrapping_add(12345);
            ((x / 65536) % 256) as u8
        })
        .collect()
}

#[test]
fn chunk_hash_is_lowercase_sha256_hex() {
    assert_eq!(
        chunk_hash(b"abc"),
        "ba7816bf8f01cfea414140de5dae2223b00361a396177a9cb410ff61f20015ad"
    );
    assert_eq!(
        chunk_hash(b""),
        "e3b0c44298fc1c149afbf4c8996fb92427ae41e4649b934ca495991b7852b855"
    );
}

#[test]
fn to_hex_writes_two_digits_per_byte() {
    assert_eq!(to_hex(&[0x00, 0x0f, 0xa5, 0xff]), "000fa5ff");
    assert_eq!(to_hex(&[]), "");
}

#[test]
fn recipe_chunks_rebuild_the_data() {
    let data = lcg_data(150_000);
    let (recipe, chunks) = FileManager::create_recipe_from_data(&data);
    assert_eq!(recipe.file_size, data.len() as u64);
    assert_eq!(recipe.kind, FileKind::File);
    assert_eq!(recipe.chunks.len(), chunks.len());
    for (addr, chunk) in recipe.chunks.iter().zip(chunks.iter()) {
        assert_eq!(*addr, chunk_hash(chunk));
    }
    let sizes: Vec<usize> = chunks.iter().map(|c| c.len()).collect();
    assert_eq!(sizes, chunk_lengths(&data));
    assert_eq!(assemble_chunks(&chunks), data);
}

#[test]
fn recipe_of_empty_data_has_no_chunks() {
    let (recipe, chunks) = FileManager::create_recipe_from_data(&[]);
    assert_eq!(recipe.file_size, 0);
    assert!(recipe.chunks.is_empty());
    assert!(chunks.is_empty());
    assert!(assemble_chunks(&chunks).is_empty());
}

#[test]
fn recipes_are_deterministic_and_content_addressed() {
    let data = lcg_data(90_000);
    let (recipe, chunks) = FileManager::create_recipe_from_data(&data);
    let (again, _) = FileManager::create_recipe_from_data(&data);
    assert_eq!(recipe.chunks, again.chunks);
    for (i, a) in chunks.iter().enumerate() {
        for (j, b) in chunks.iter().enumerate() {
            assert_eq!(a == b, recipe.chunks[i] == recipe.chunks[j]);
        }
    }
}
