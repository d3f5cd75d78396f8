use ligeia::block::{storage_bytes, Block, MIN_BLOCK_SIZE};
use ligeia::meta::{ScopeId, StorageType, Timesteps, Variable, VariableInterp};
use ligeia::mmap_alloc::{
    should_mmap, Backing, GrowAction, MmappableAllocator, DEFAULT_MMAP_THRESHOLD,
};
use ligeia::progress::Progress;
use ligeia::scope::{Scopes, ScopesError};

#[test]
fn mapping_decisions() {
    let mb = 1_000_000usize;
    // Without a budget nothing is mapped.
    assert!(!should_mmap(1 << 40, None, DEFAULT_MMAP_THRESHOLD, 0));
    // Large allocations are mapped whatever the budget.
    assert!(should_mmap(10 * mb, Some(1 << 40), DEFAULT_MMAP_THRESHOLD, 0));
    assert!(!should_mmap(10 * mb - 1, Some(1 << 40), DEFAULT_MMAP_THRESHOLD, 0));
    // Small ones once the heap holds half the budget.
    assert!(!should_mmap(1, Some(64 * mb as u64), DEFAULT_MMAP_THRESHOLD, 32 * mb - 1));
    assert!(should_mmap(1, Some(64 * mb as u64), DEFAULT_MMAP_THRESHOLD, 32 * mb));
    assert!(should_mmap(1, Some(u64::MAX), DEFAULT_MMAP_THRESHOLD, usize::MAX));
}

#[test]
fn allocator_bookkeeping() {
    let mb = 1_000_000usize;
    let mut alloc = MmappableAllocator::new(Some(64 * mb as u64));
    assert_eq!(alloc.rough_total_usage(), 0);
    assert_eq!(alloc.allocate(20 * mb), Backing::Mapped);
    assert_eq!(alloc.rough_total_usage(), 0);
    for _ in 0..4 {
        assert_eq!(alloc.allocate(8 * mb), Backing::Heap);
    }
    assert_eq!(alloc.rough_total_usage(), 32 * mb);
    assert_eq!(alloc.allocate(1), Backing::Mapped);
    // A mapped region stays mapped.
    assert_eq!(alloc.grow(Backing::Mapped, 1, 2), GrowAction::ResizeMapping);
    assert_eq!(GrowAction::ResizeMapping.backing(), Backing::Mapped);
    // A heap region moves over once the heap is half the budget.
    assert_eq!(alloc.grow(Backing::Heap, 8 * mb, 9 * mb), GrowAction::MoveToMapping);
    assert_eq!(alloc.rough_total_usage(), 24 * mb);
    assert_eq!(GrowAction::MoveToMapping.backing(), Backing::Mapped);
    assert_eq!(alloc.grow(Backing::Heap, 8 * mb, 9 * mb), GrowAction::GrowHeap);
    assert_eq!(alloc.rough_total_usage(), 25 * mb);
    assert_eq!(GrowAction::GrowHeap.backing(), Backing::Heap);
    alloc.deallocate(Backing::Mapped, 20 * mb);
    assert_eq!(alloc.rough_total_usage(), 25 * mb);
    alloc.deallocate(Backing::Heap, 9 * mb);
    assert_eq!(alloc.rough_total_usage(), 16 * mb);
    alloc.deallocate(Backing::Heap, 100 * mb);
    assert_eq!(alloc.rough_total_usage(), 0);

    let mut tight = MmappableAllocator::with_threshold(Some(1000), 100);
    assert_eq!(tight.allocate(99), Backing::Heap);
    assert_eq!(tight.allocate(100), Backing::Mapped);
    let mut unknown = MmappableAllocator::new(None);
    assert_eq!(unknown.allocate(usize::MAX), Backing::Heap);
    assert_eq!(unknown.allocate(1), Backing::Heap);
    assert_eq!(unknown.rough_total_usage(), usize::MAX);
}

#[test]
fn progress_stages() {
    let mut progress = Progress::new(Some(4));
    assert_eq!(progress.fraction(), Some((0, 4)));
    progress.tick();
    progress.tick();
    assert_eq!(progress.fraction(), Some((2, 4)));
    progress.next_stage(None);
    assert_eq!(progress.fraction(), None);
    progress.tick();
    progress.next_stage(Some(10));
    assert_eq!(progress.fraction(), Some((0, 10)));
    assert_eq!(Progress::new(None).fraction(), None);
}

#[test]
fn scope_tree() {
    let mut scopes = Scopes::new();
    assert!(scopes.has(ScopeId(0)));
    assert!(!scopes.has(ScopeId(1)));
    assert_eq!(scopes.add_scope(ScopeId(0), ScopeId(1), "top".to_string()), Ok(()));
    assert_eq!(scopes.add_scope(ScopeId(1), ScopeId(2), "cpu".to_string()), Ok(()));
    assert_eq!(scopes.add_scope(ScopeId(1), ScopeId(3), "bus".to_string()), Ok(()));
    assert_eq!(scopes.add_scope(ScopeId(0), ScopeId(9), "tb".to_string()), Ok(()));
    // The parent must be there, and below the id.
    assert_eq!(
        scopes.add_scope(ScopeId(5), ScopeId(6), "x".to_string()),
        Err(ScopesError::InvalidParent)
    );
    assert_eq!(
        scopes.add_scope(ScopeId(3), ScopeId(3), "x".to_string()),
        Err(ScopesError::InvalidParent)
    );
    assert_eq!(
        scopes.add_scope(ScopeId(9), ScopeId(2), "x".to_string()),
        Err(ScopesError::InvalidParent)
    );
    assert!(!scopes.has(ScopeId(6)));
    let variable = Variable { name: "clk".to_string(), interp: VariableInterp::Uninterpreted };
    assert_eq!(scopes.add_variable(ScopeId(2), variable), Ok(()));
    let variable = Variable { name: "rst".to_string(), interp: VariableInterp::Uninterpreted };
    assert_eq!(scopes.add_variable(ScopeId(7), variable), Err(ScopesError::InvalidParent));

    assert_eq!(scopes.top_level(), vec![ScopeId(1), ScopeId(9)]);
    let top = scopes.get(ScopeId(1));
    assert_eq!(top.this, ScopeId(1));
    assert_eq!(top.name, "top");
    assert_eq!(top.children, &[ScopeId(2), ScopeId(3)][..]);
    assert_eq!(top.variables.len(), 0);
    let cpu = scopes.get(ScopeId(2));
    assert_eq!(cpu.name, "cpu");
    assert_eq!(cpu.children.len(), 0);
    assert_eq!(cpu.variables.len(), 1);
    assert_eq!(cpu.variables[0].name, "clk");
    let root = scopes.get(ScopeId::root());
    assert_eq!(root.name, "");
}

#[test]
fn block_buffering() {
    assert_eq!(storage_bytes(StorageType::TwoLogic, 9), 2);
    assert_eq!(storage_bytes(StorageType::TwoLogic, 8), 1);
    assert_eq!(storage_bytes(StorageType::FourLogic, 9), 3);
    assert_eq!(storage_bytes(StorageType::NineLogic, 9), 9);
    assert_eq!(storage_bytes(StorageType::TwoLogic, u32::MAX), 0x2000_0000);

    let mut block = Block::new(3);
    let mut offset = 100u64;
    // 931 records of 11 bytes fill 10241 > 10240: the 931st flushes.
    for i in 0..930u64 {
        assert!(block.push(&mut offset, Timesteps(i), &[1, 2]).is_none());
    }
    assert_eq!(offset, 100);
    let flushed = block.push(&mut offset, Timesteps(930), &[9]).unwrap();
    assert_eq!(flushed.len(), 930 * 11);
    assert_eq!(&flushed[..11], &[0, 0, 0, 0, 0, 0, 0, 0, 1, 2, 0]);
    assert_eq!(&flushed[11..22], &[1, 0, 0, 0, 0, 0, 0, 0, 1, 2, 0]);
    assert_eq!(offset, 100 + 930 * 11);
    let (committed, rest) = block.commit(&mut offset);
    assert_eq!(rest, vec![0xA2, 3, 0, 0, 0, 0, 0, 0, 9, 0, 0]);
    assert_eq!(offset, 100 + 931 * 11);
    assert_eq!(committed.block_size(), MIN_BLOCK_SIZE);
    assert_eq!(committed.block_offsets(), &vec![(100u64, 930 * 11), (100 + 930 * 11, 11)]);
    let records = committed.read_block(&flushed);
    assert_eq!(records.len(), 930);
    assert_eq!(records[7], (Timesteps(7), vec![1, 2, 0]));
    let records = committed.read_block(&rest);
    assert_eq!(records, vec![(Timesteps(930), vec![9, 0, 0])]);

    let mut big = Block::new(20000);
    let mut offset = 0u64;
    assert!(big.push(&mut offset, Timesteps(1), &[7]).is_none());
    let flushed = big.push(&mut offset, Timesteps(2), &[8]).unwrap();
    assert_eq!(flushed.len(), 20008);
    let out = big.flush(&mut offset);
    assert_eq!(out.len(), 20008);
    assert_eq!(out[8], 8);
    assert_eq!(offset, 40016);
}

#[test]
fn timesteps_add_up_unless_they_overflow() {
    assert_eq!(Timesteps(3).checked_add(Timesteps(4)), Some(Timesteps(7)));
    assert_eq!(Timesteps(u64::MAX).checked_add(Timesteps(0)), Some(Timesteps(u64::MAX)));
    assert_eq!(Timesteps(u64::MAX).checked_add(Timesteps(1)), None);
}
