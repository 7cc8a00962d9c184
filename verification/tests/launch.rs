use attnres::launch::{
    buffers, chunk_height, chunk_plan, geometry, Buffers, Chunk, ChunkCache, CHUNK_G, LOG_THREADS,
    THREADS,
};

#[test]
fn chunks_of_layers() {
    assert_eq!(CHUNK_G, 8);
    assert_eq!(chunk_height(3), 3);
    assert_eq!(chunk_height(8), 8);
    assert_eq!(chunk_height(12), 8);
    let plan = chunk_plan(12);
    assert_eq!(plan.len(), 2);
    assert!(plan[0] == Chunk { start: 0, rows: 8, first: true, last: false });
    assert!(plan[1] == Chunk { start: 8, rows: 4, first: false, last: true });
    let plan = chunk_plan(3);
    assert_eq!(plan.len(), 1);
    assert!(plan[0] == Chunk { start: 0, rows: 3, first: true, last: true });
    assert_eq!(chunk_plan(40).len(), 5);
}

#[test]
fn chunks_cover_layers_in_order() {
    for l in 1..50usize {
        let mut next = 0;
        let plan = chunk_plan(l);
        for (c, chunk) in plan.iter().enumerate() {
            assert_eq!(chunk.start, next);
            assert!(chunk.rows >= 1 && chunk.rows <= chunk_height(l));
            assert_eq!(chunk.first, c == 0);
            assert_eq!(chunk.last, c == plan.len() - 1);
            next += chunk.rows;
        }
        assert_eq!(next, l);
    }
}

#[test]
fn geometry_of_a_launch() {
    let g = geometry(2, 8, 512).unwrap();
    assert_eq!((g.cubes, g.threads, g.per, g.rounds), (16, 256, 2, 8));
    assert_eq!(geometry(1, 1, 1).unwrap().per, 1);
    assert_eq!(geometry(1, 1, 256).unwrap().per, 1);
    assert_eq!(geometry(1, 1, 257).unwrap().per, 2);
    assert_eq!(geometry(0, 4, 0).unwrap().cubes, 0);
    assert_eq!(geometry(1, 1, u32::MAX as usize).unwrap().per, 1 << 24);
    assert!(geometry(1 << 16, 1 << 16, 1).is_none());
    assert!(geometry(usize::MAX, 2, 1).is_none());
    assert!(geometry(1, 1, 1 << 32).is_none());
    assert_eq!(1u32 << LOG_THREADS, THREADS);
}

#[test]
fn threads_share_columns() {
    for d in [1usize, 255, 256, 257, 700] {
        let g = geometry(1, 1, d).unwrap();
        let mut seen = vec![0; d];
        for tid in 0..g.threads as usize {
            for j in 0..g.per as usize {
                let col = j * g.threads as usize + tid;
                if col < d {
                    seen[col] += 1;
                }
            }
        }
        assert!(seen.iter().all(|n| *n == 1));
    }
}

#[test]
fn buffer_lengths() {
    let s = buffers(8, 2, 4, 16).unwrap();
    assert!(s == Buffers { positions: 8, layer: 128, scores: 64, chunk: 1024 });
    assert!(buffers(1, usize::MAX, 2, 1).is_none());
    assert!(buffers(1, 1 << 20, 1 << 20, 1 << 40).is_none());
    assert!(buffers(1 << 40, 1 << 20, 1 << 20, 1).is_none());
    assert!(buffers(1 << 20, 1 << 20, 1, 1 << 30).is_none());
}

#[test]
fn one_buffer_is_kept() {
    let mut cache: ChunkCache<&str> = ChunkCache::new();
    assert!(cache.get(8, 1, 2, 3).is_none());
    cache.put(8, 1, 2, 3, "first");
    assert_eq!(cache.get(8, 1, 2, 3), Some(&"first"));
    assert!(cache.get(7, 1, 2, 3).is_none());
    assert!(cache.get(8, 2, 2, 3).is_none());
    assert!(cache.get(8, 1, 3, 3).is_none());
    assert!(cache.get(8, 1, 2, 4).is_none());
    cache.put(4, 1, 2, 3, "second");
    assert!(cache.get(8, 1, 2, 3).is_none());
    assert_eq!(cache.get(4, 1, 2, 3), Some(&"second"));
}
