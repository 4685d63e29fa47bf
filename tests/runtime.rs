use ispc::arena::Arena;
use ispc::config::ispc_args;
use ispc::registry::CHUNK_SIZE;
use ispc::task::{chunks, coords};
use ispc::{AllocOutcome, ChunkJob, Config, Registry, RuntimeError};

/// Places a block, adding a slab of backing addresses when the arena asks.
fn alloc_block(reg: &mut Registry, handle: Option<u64>, size: u64, align: u64, next_base: &mut u64) -> (u64, u64) {
    match reg.allocate(handle, size, align).unwrap() {
        AllocOutcome::Placed { handle, addr } => (handle, addr),
        AllocOutcome::NeedSlab { handle, min_len } => {
            let len = if min_len < 256 { 256 } else { min_len };
            reg.add_slab(handle, *next_base, len).unwrap();
            *next_base += len + 64;
            match reg.allocate(Some(handle), size, align).unwrap() {
                AllocOutcome::Placed { handle, addr } => (handle, addr),
                AllocOutcome::NeedSlab { .. } => panic!("a fresh slab must hold the block"),
            }
        }
    }
}

/// Drives a sync of `handle` to the end, running each claimed chunk with `run`.
fn sync(reg: &mut Registry, handle: u64, run: &mut dyn FnMut(&mut Registry, ChunkJob, u64)) {
    loop {
        if reg.finish(handle).unwrap() {
            return;
        }
        let job = reg.claim(handle).unwrap().expect("an unresolved context must leave work to claim");
        for flat in job.start..job.end {
            run(reg, job, flat);
        }
        reg.complete(job).unwrap();
    }
}

#[test]
fn launch_five_runs_each_index_once() {
    let mut reg = Registry::new();
    let mut base = 4096u64;
    let (h, _) = alloc_block(&mut reg, None, 16, 8, &mut base);
    reg.launch(h, 7, 9, 5, 1, 1).unwrap();
    let mut seen: Vec<(u64, (u32, u32, u32))> = Vec::new();
    sync(&mut reg, h, &mut |_, job, flat| {
        assert_eq!(job.func, 7);
        assert_eq!(job.data, 9);
        seen.push((flat, coords(flat, job.n0, job.n1, job.n2)));
    });
    seen.sort();
    let expected: Vec<(u64, (u32, u32, u32))> = (0..5u64).map(|i| (i, (i as u32, 0, 0))).collect();
    assert_eq!(seen, expected);
}

#[test]
fn sync_runs_every_group_once_in_launch_order() {
    let mut reg = Registry::new();
    let mut base = 4096u64;
    let (h, _) = alloc_block(&mut reg, None, 8, 8, &mut base);
    reg.launch(h, 1, 0, 3, 2, 1).unwrap();
    reg.launch(h, 2, 0, 2, 2, 2).unwrap();
    reg.launch(h, 3, 0, 0, 4, 4).unwrap();
    let mut runs: Vec<(usize, u64)> = Vec::new();
    sync(&mut reg, h, &mut |_, job, flat| runs.push((job.func, flat)));
    let mut expected: Vec<(usize, u64)> = (0..6u64).map(|i| (1, i)).collect();
    expected.extend((0..8u64).map(|i| (2, i)));
    assert_eq!(runs, expected);
    assert_eq!(reg.contexts.len(), 0);
}

#[test]
fn chunks_partition_index_space() {
    assert_eq!(chunks(10, 4), vec![(0, 4), (4, 8), (8, 10)]);
    assert_eq!(chunks(8, 4), vec![(0, 4), (4, 8)]);
    assert_eq!(chunks(0, 3), Vec::<(u64, u64)>::new());
    assert_eq!(chunks(3, 1), vec![(0, 1), (1, 2), (2, 3)]);
    assert_eq!(chunks(5, 100), vec![(0, 5)]);
}

#[test]
fn chunks_cover_every_index_once() {
    for total in 0..40u64 {
        for size in 1..9u64 {
            let c = chunks(total, size);
            let mut next = 0;
            for (s, e) in c {
                assert_eq!(s, next);
                assert!(s < e && e - s <= size);
                next = e;
            }
            assert_eq!(next, total);
        }
    }
}

#[test]
fn coords_recover_three_dimensions() {
    assert_eq!(coords(0, 4, 3, 2), (0, 0, 0));
    assert_eq!(coords(5, 4, 3, 2), (1, 1, 0));
    assert_eq!(coords(23, 4, 3, 2), (3, 2, 1));
    assert_eq!(coords(13, 4, 3, 2), (1, 0, 1));
}

#[test]
fn context_ids_are_unique() {
    let mut reg = Registry::new();
    let mut base = 4096u64;
    let mut ids = Vec::new();
    for _ in 0..5 {
        let (h, _) = alloc_block(&mut reg, None, 4, 4, &mut base);
        ids.push(h);
    }
    assert!(reg.finish(ids[2]).unwrap());
    let (h, _) = alloc_block(&mut reg, None, 4, 4, &mut base);
    ids.push(h);
    let mut sorted = ids.clone();
    sorted.sort();
    sorted.dedup();
    assert_eq!(sorted.len(), ids.len());
}

#[test]
fn nested_launch_and_sync_terminates() {
    fn body(reg: &mut Registry, depth: u32, base: &mut u64, count: &mut u64) {
        *count += 1;
        if depth == 0 {
            return;
        }
        let (h, _) = alloc_block(reg, None, 32, 16, base);
        reg.launch(h, depth as usize, 0, 3, 1, 1).unwrap();
        reg.launch(h, depth as usize, 1, 1, 2, 1).unwrap();
        let mut runs: Vec<u64> = Vec::new();
        loop {
            if reg.finish(h).unwrap() {
                break;
            }
            let job = reg.claim(h).unwrap().unwrap();
            for flat in job.start..job.end {
                runs.push(flat);
                body(reg, depth - 1, base, count);
            }
            reg.complete(job).unwrap();
        }
        assert_eq!(runs.len(), 5);
    }
    let mut reg = Registry::new();
    let mut base = 4096u64;
    let mut count = 0u64;
    body(&mut reg, 3, &mut base, &mut count);
    assert_eq!(count, 1 + 5 + 25 + 125);
    assert_eq!(reg.contexts.len(), 0);
}

#[test]
fn claim_helps_other_contexts() {
    let mut reg = Registry::new();
    let mut base = 4096u64;
    let (a, _) = alloc_block(&mut reg, None, 8, 8, &mut base);
    let (b, _) = alloc_block(&mut reg, None, 8, 8, &mut base);
    reg.launch(a, 1, 0, 2, 1, 1).unwrap();
    reg.launch(b, 2, 0, 6, 1, 1).unwrap();
    let first = reg.claim(a).unwrap().unwrap();
    assert_eq!((first.ctx, first.start, first.end), (a, 0, 2));
    let borrowed = reg.claim(a).unwrap().unwrap();
    assert_eq!((borrowed.ctx, borrowed.start, borrowed.end), (b, 0, CHUNK_SIZE));
    assert!(!reg.finish(a).unwrap());
    reg.complete(first).unwrap();
    assert!(reg.finish(a).unwrap());
    let rest = reg.claim(b).unwrap().unwrap();
    assert_eq!((rest.start, rest.end), (4, 6));
    assert_eq!(reg.claim(b).unwrap(), None);
    reg.complete(borrowed).unwrap();
    reg.complete(rest).unwrap();
    assert!(reg.finish(b).unwrap());
}

#[test]
fn arena_blocks_are_aligned_and_disjoint() {
    let mut reg = Registry::new();
    let mut base = 4099u64;
    let mut blocks: Vec<(u64, u64)> = Vec::new();
    let mut seed = 12345u64;
    let (h, a0) = alloc_block(&mut reg, None, 3, 1, &mut base);
    blocks.push((a0, 3));
    for _ in 0..200 {
        seed = seed.wrapping_mul(6364136223846793005).wrapping_add(1442695040888963407);
        let size = (seed >> 33) % 300;
        let align = 1u64 << ((seed >> 20) % 7);
        let (h2, addr) = alloc_block(&mut reg, Some(h), size, align, &mut base);
        assert_eq!(h2, h);
        assert_eq!(addr % align, 0);
        blocks.push((addr, size));
    }
    for i in 0..blocks.len() {
        for j in 0..blocks.len() {
            if i != j {
                let (a, sa) = blocks[i];
                let (b, sb) = blocks[j];
                assert!(a + sa <= b || b + sb <= a);
            }
        }
    }
}

#[test]
fn arena_asks_for_slab_then_places() {
    let mut a = Arena::new();
    assert_eq!(a.allocate(8, 8), None);
    assert!(a.add_slab(1000, 64));
    assert_eq!(a.allocate(8, 16), Some(1008));
    assert_eq!(a.allocate(4, 1), Some(1016));
    assert_eq!(a.allocate(1, 8), Some(1024));
    assert_eq!(a.allocate(100, 1), None);
    assert!(!a.add_slab(1050, 10));
    assert!(!a.add_slab(2000, 0));
    assert!(!a.add_slab(u64::MAX - 4, 10));
}

#[test]
fn stale_handle_is_unknown() {
    let mut reg = Registry::new();
    let mut base = 4096u64;
    let (h, _) = alloc_block(&mut reg, None, 8, 8, &mut base);
    reg.launch(h, 1, 0, 1, 1, 1).unwrap();
    sync(&mut reg, h, &mut |_, _, _| {});
    assert_eq!(reg.allocate(Some(h), 8, 8), Err(RuntimeError::UnknownHandle));
    assert_eq!(reg.launch(h, 1, 0, 1, 1, 1), Err(RuntimeError::UnknownHandle));
    assert_eq!(reg.claim(h), Err(RuntimeError::UnknownHandle));
    assert_eq!(reg.finish(h), Err(RuntimeError::UnknownHandle));
}

#[test]
fn runtime_errors() {
    let mut reg = Registry::new();
    let mut base = 4096u64;
    assert_eq!(reg.allocate(None, 8, 0), Err(RuntimeError::BadAlignment));
    let (h, _) = alloc_block(&mut reg, None, 8, 8, &mut base);
    assert_eq!(reg.launch(h, 0, 0, u32::MAX, u32::MAX, 2), Err(RuntimeError::TooManyTasks));
    assert_eq!(reg.add_slab(h, 4096, 8), Err(RuntimeError::OutOfMemory));
    assert_eq!(reg.add_slab(77, 1 << 40, 8), Err(RuntimeError::UnknownHandle));
    reg.launch(h, 0, 0, 2, 1, 1).unwrap();
    let job = reg.claim(h).unwrap().unwrap();
    reg.complete(job).unwrap();
    assert_eq!(reg.complete(job), Err(RuntimeError::UnknownChunk));
    assert_eq!(reg.allocate(None, u64::MAX, 8).map(|_| ()).is_err(), true);
}

#[test]
fn compiler_flags() {
    assert_eq!(ispc_args(true, 2, true), vec!["-g", "-O2", "--pic"]);
    assert_eq!(ispc_args(false, 0, false), vec!["-O0"]);
    assert_eq!(ispc_args(false, 7, true), vec!["--pic"]);
    let mut c = Config::new();
    assert!(c.cargo_metadata);
    c.debug(false);
    assert_eq!(c.default_args(true, 3, false), vec!["-O3"]);
    c.opt_level(1);
    assert_eq!(c.default_args(true, 3, true), vec!["-O1", "--pic"]);
    let d = Config::new();
    assert_eq!(d.default_args(true, 2, false), vec!["-g", "-O2"]);
}

#[test]
fn config_builders() {
    let mut c = Config::new();
    c.file("src/a.ispc");
    c.file("src/b.ispc");
    c.out_dir("/tmp/out");
    c.target("x86_64-unknown-linux-gnu");
    c.cargo_metadata(false);
    assert_eq!(c.ispc_files, vec!["src/a.ispc".to_string(), "src/b.ispc".to_string()]);
    assert_eq!(c.out_dir.as_deref(), Some("/tmp/out"));
    assert_eq!(c.target.as_deref(), Some("x86_64-unknown-linux-gnu"));
    assert!(!c.cargo_metadata);
    assert_eq!(c.get_debug(true), true);
    assert_eq!(c.get_opt_level(2), 2);
}

#[test]
fn ids_exhausted_is_reported() {
    let mut reg = Registry { contexts: Vec::new(), next_id: u64::MAX };
    assert_eq!(reg.allocate(None, 8, 8), Err(RuntimeError::IdsExhausted));
    assert_eq!(reg.create(), Err(RuntimeError::IdsExhausted));
    assert_eq!(reg.contexts.len(), 0);
}

#[test]
fn empty_launch_is_not_done_until_synced() {
    let mut reg = Registry::new();
    let mut base = 4096u64;
    let (h, _) = alloc_block(&mut reg, None, 8, 8, &mut base);
    reg.launch(h, 1, 0, 0, 1, 1).unwrap();
    assert!(!reg.contexts[0].groups[0].done);
    assert!(reg.finish(h).unwrap());
    assert_eq!(reg.contexts.len(), 0);
}

#[test]
fn last_chunk_marks_group_done() {
    let mut reg = Registry::new();
    let mut base = 4096u64;
    let (h, _) = alloc_block(&mut reg, None, 8, 8, &mut base);
    reg.launch(h, 1, 0, 6, 1, 1).unwrap();
    let a = reg.claim(h).unwrap().unwrap();
    let b = reg.claim(h).unwrap().unwrap();
    reg.complete(b).unwrap();
    assert!(!reg.contexts[0].groups[0].done);
    reg.complete(a).unwrap();
    assert!(reg.contexts[0].groups[0].done);
    assert!(reg.finish(h).unwrap());
}

#[test]
fn failed_requests_change_nothing() {
    let mut reg = Registry::new();
    assert_eq!(reg.allocate(None, u64::MAX, 8), Err(RuntimeError::OutOfMemory));
    assert_eq!(reg.contexts.len(), 0);
    assert_eq!(reg.next_id, 0);
    assert_eq!(reg.allocate(None, 8, 8), Ok(AllocOutcome::NeedSlab { handle: 0, min_len: 16 }));
    assert_eq!(reg.allocate(None, 8, 8), Ok(AllocOutcome::NeedSlab { handle: 1, min_len: 16 }));
    assert_eq!(reg.allocate(Some(0), 8, 8), Ok(AllocOutcome::NeedSlab { handle: 0, min_len: 16 }));
    assert_eq!(reg.contexts.len(), 2);
    assert_eq!(reg.allocate(Some(5), 8, 8), Err(RuntimeError::UnknownHandle));
    assert_eq!(reg.contexts.len(), 2);
    assert_eq!(reg.next_id, 2);
}
