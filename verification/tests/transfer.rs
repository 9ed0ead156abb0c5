use wasm_dispatch::program::session::cache::ModuleCache;
use wasm_dispatch::program::session::transfer::ModuleTransfer;
use wasm_dispatch::program::Error;
use wasm_dispatch::protocol::ModuleInfo;

#[test]
fn test_add() {
    let meta = ModuleInfo {
        name: String::from("test"),
        size: (3 * 1024 + 512) as u64,
        chunk_size: 1024,
        total_chunks: 4,
    };
    let mut cache = ModuleCache::new(4096);
    let mut transfer = ModuleTransfer::new(&meta).unwrap();

    cache.put(&meta.name, meta.size as usize).unwrap();
    let data = [vec![0u8; 1024], vec![1u8; 1024], vec![2u8; 1024], vec![3u8; 512]];
    for (i, d) in data.iter().enumerate() {
        transfer.add_chunk(&mut cache, i, d).unwrap();
    }

    let assembled = cache.get("test").unwrap();
    assert_eq!(assembled.len(), 3 * 1024 + 512);
    assert!(assembled[..1024].iter().all(|&b| b == 0));
    assert!(assembled[1024..2048].iter().all(|&b| b == 1));
    assert!(assembled[2048..3072].iter().all(|&b| b == 2));
    assert!(assembled[3072..].iter().all(|&b| b == 3));
}

#[test]
fn test_out_of_order() {
    let meta = ModuleInfo {
        name: String::from("test"),
        size: (2 * 1024 + 512) as u64,
        chunk_size: 1024,
        total_chunks: 3,
    };
    let mut cache = ModuleCache::new(4096);
    let mut transfer = ModuleTransfer::new(&meta).unwrap();

    cache.put(&meta.name, meta.size as usize).unwrap();
    transfer.add_chunk(&mut cache, 2, &vec![2u8; 512]).unwrap();
    transfer.add_chunk(&mut cache, 1, &vec![1u8; 1024]).unwrap();
    transfer.add_chunk(&mut cache, 0, &vec![0u8; 1024]).unwrap();

    let assembled = cache.get("test").unwrap();
    assert_eq!(assembled.len(), 2 * 1024 + 512);
    assert_eq!(&assembled[0..1024], &vec![0u8; 1024][..]);
    assert_eq!(&assembled[1024..2048], &vec![1u8; 1024][..]);
    assert_eq!(&assembled[2048..], &vec![2u8; 512][..]);
}

#[test]
fn test_invalid_chunk() {
    let meta = ModuleInfo { name: String::from("test"), size: 1024, chunk_size: 1024, total_chunks: 1 };
    let mut cache = ModuleCache::new(4096);
    let mut transfer = ModuleTransfer::new(&meta).unwrap();

    cache.put(&meta.name, meta.size as usize).unwrap();
    assert!(transfer.add_chunk(&mut cache, 0, &vec![0u8; 512]).is_err());

    transfer.add_chunk(&mut cache, 0, &vec![0u8; 1024]).unwrap();
    assert!(transfer.add_chunk(&mut cache, 0, &vec![0u8; 1024]).is_err());
}

#[test]
fn out_of_order_chunks_report_completion_only_at_the_end() {
    let meta = ModuleInfo { name: String::from("m"), size: 2560, chunk_size: 1024, total_chunks: 3 };
    let mut cache = ModuleCache::new(4096);
    let mut transfer = ModuleTransfer::new(&meta).unwrap();
    cache.put("m", 2560).unwrap();
    let c0: Vec<u8> = (0..1024).map(|i| (i % 251) as u8).collect();
    let c1: Vec<u8> = (0..1024).map(|i| (i % 13) as u8).collect();
    let c2: Vec<u8> = (0..512).map(|i| (i % 7) as u8).collect();
    assert!(!transfer.is_complete());
    transfer.add_chunk(&mut cache, 2, &c2).unwrap();
    assert!(!transfer.is_complete());
    transfer.add_chunk(&mut cache, 0, &c0).unwrap();
    assert!(!transfer.is_complete());
    transfer.add_chunk(&mut cache, 1, &c1).unwrap();
    assert!(transfer.is_complete());
    let mut whole = c0.clone();
    whole.extend_from_slice(&c1);
    whole.extend_from_slice(&c2);
    assert_eq!(cache.get("m").unwrap(), &whole[..]);
    assert_eq!(transfer.name(), "m");
}

#[test]
fn each_refusal_has_its_own_error() {
    let meta = ModuleInfo { name: String::from("m"), size: 20, chunk_size: 8, total_chunks: 3 };
    let mut cache = ModuleCache::new(64);
    let mut transfer = ModuleTransfer::new(&meta).unwrap();
    assert_eq!(
        transfer.add_chunk(&mut cache, 0, &[0; 8]),
        Err(Error::CacheEntryNotFound("m".to_string()))
    );
    cache.put("m", 20).unwrap();
    assert_eq!(transfer.add_chunk(&mut cache, 3, &[0; 8]), Err(Error::InvalidChunkIndex(3, 3)));
    assert_eq!(transfer.add_chunk(&mut cache, 2, &[0; 8]), Err(Error::InvalidChunkSize(4, 8)));
    assert_eq!(transfer.add_chunk(&mut cache, 1, &[0; 4]), Err(Error::InvalidChunkSize(8, 4)));
    assert_eq!(transfer.add_chunk(&mut cache, 1, &[5; 8]), Ok(()));
    assert_eq!(transfer.add_chunk(&mut cache, 1, &[5; 8]), Err(Error::DuplicateChunk(1)));
    assert!(!transfer.is_complete());
}

#[test]
fn a_slot_smaller_than_the_module_refuses_the_chunk_that_does_not_fit() {
    let meta = ModuleInfo { name: String::from("m"), size: 16, chunk_size: 8, total_chunks: 2 };
    let mut cache = ModuleCache::new(64);
    let mut transfer = ModuleTransfer::new(&meta).unwrap();
    cache.put("m", 8).unwrap();
    assert_eq!(transfer.add_chunk(&mut cache, 1, &[1; 8]), Err(Error::CacheFull(8, 64)));
    assert_eq!(transfer.add_chunk(&mut cache, 0, &[1; 8]), Ok(()));
}

#[test]
fn a_descriptor_whose_chunks_pass_its_size_cannot_be_assembled() {
    let meta = ModuleInfo { name: String::from("m"), size: 10, chunk_size: 8, total_chunks: 3 };
    assert!(ModuleTransfer::new(&meta).is_none());
    let empty = ModuleInfo { name: String::from("e"), size: 0, chunk_size: 8, total_chunks: 0 };
    assert!(ModuleTransfer::new(&empty).unwrap().is_complete());
}
