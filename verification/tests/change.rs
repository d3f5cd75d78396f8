use ligeia::bytes::{align_down, align_up, read_u32, read_u64, write_u32, write_u64};
use ligeia::change::{
    BlockHeader, ChangeBlockList, ChangeOffset, BLOCK_ALIGN, BLOCK_HEADER_SIZE,
    CHANGES_PER_BLOCK,
};
use ligeia::error::Error;
use ligeia::logic::{Four, Logic, Nine, Two};
use ligeia::meta::{StorageId, Timesteps};
use ligeia::timesteps::TimestepTable;

#[test]
fn change_list_push() {
    let mut list = ChangeBlockList::new_in();
    assert_eq!(list.add_storage::<Four>(StorageId(0), 3), Ok(()));
    assert_eq!(list.push_timesteps(Timesteps(42)), Ok(()));
    {
        let mut slice = list.push_get::<Four>(StorageId(0)).ok().unwrap();
        for i in 0..3 {
            slice.set(i, Four::One);
        }
    }

    let mut iter = list.iter_storage(StorageId(0)).ok().unwrap();

    let offset = iter.next().unwrap();
    assert_eq!(iter.next(), None);

    let (header, slice) = list.get_change::<Four>(offset, 3).ok().unwrap();

    assert_eq!(header, Timesteps(42));
    for i in 0..3 {
        assert_eq!(slice.get(i), Four::One);
    }
}

#[test]
fn timestep_table_indexes() {
    let mut table = TimestepTable::new();
    assert_eq!(table.last(), None);
    assert_eq!(table.push(10), Ok(0));
    assert_eq!(table.push(10), Ok(0));
    assert_eq!(table.push(11), Ok(1));
    assert_eq!(table.push(11), Ok(1));
    assert_eq!(table.push(500), Ok(2));
    assert_eq!(table.push(499), Err(Error::TimestepRegression));
    assert_eq!(table.len(), 3);
    assert_eq!(table.last(), Some(500));
    assert_eq!(table.get(0), Ok(10));
    assert_eq!(table.get(2), Ok(500));
    assert_eq!(table.get(3), Err(Error::OutOfBounds));
}

#[test]
fn changes_at_one_timestep_share_its_index() {
    let mut list = ChangeBlockList::new_in();
    assert_eq!(list.add_storage::<Two>(StorageId(3), 1), Ok(()));
    assert_eq!(list.push_timesteps(Timesteps(10)), Ok(()));
    {
        let mut slice = list.push_get::<Two>(StorageId(3)).ok().unwrap();
        slice.set(0, Two::One);
    }
    assert_eq!(list.push_timesteps(Timesteps(10)), Ok(()));
    {
        let _slice = list.push_get::<Two>(StorageId(3)).ok().unwrap();
    }
    assert_eq!(list.push_timesteps(Timesteps(9)), Err(Error::TimestepRegression));
    let mut iter = list.iter_storage(StorageId(3)).ok().unwrap();
    let first = iter.next().unwrap();
    let second = iter.next().unwrap();
    assert_eq!(iter.next(), None);
    // Both records carry index 0 and resolve to timestep 10.
    let info = list.info();
    assert_eq!(info.total_storages, 4);
    let (ts1, s1) = list.get_change::<Two>(first, 1).ok().unwrap();
    let (ts2, s2) = list.get_change::<Two>(second, 1).ok().unwrap();
    assert_eq!(ts1, Timesteps(10));
    assert_eq!(ts2, Timesteps(10));
    assert_eq!(s1.get(0), Two::One);
    assert_eq!(s2.get(0), Two::Zero);
    assert_eq!(second.0 - first.0, 5);
}

#[test]
fn three_hundred_changes_take_three_blocks() {
    let mut list = ChangeBlockList::new_in();
    assert_eq!(list.add_storage::<Nine>(StorageId(0), 2), Ok(()));
    assert_eq!(list.blocks_of(StorageId(0)), Ok(1));
    for i in 0..300u64 {
        assert_eq!(list.push_timesteps(Timesteps(i)), Ok(()));
        let mut slice = list.push_get::<Nine>(StorageId(0)).ok().unwrap();
        slice.set(0, Nine::from_bits((i % 9) as u8));
        slice.set(1, Nine::from_bits(((i / 9) % 9) as u8));
    }
    assert_eq!(list.count_of(StorageId(0)), Ok(300));
    assert_eq!(list.blocks_of(StorageId(0)), Ok(3));
    let mut iter = list.iter_storage(StorageId(0)).ok().unwrap();
    assert_eq!(iter.remaining(), 300);
    let mut seen = 0u64;
    let mut last: Option<ChangeOffset> = None;
    while let Some(offset) = iter.next() {
        if let Some(before) = last {
            assert!(before.0 < offset.0);
        }
        let (ts, slice) = list.get_change::<Nine>(offset, 2).ok().unwrap();
        assert_eq!(ts, Timesteps(seen));
        assert_eq!(slice.get(0).to_bits(), (seen % 9) as u8);
        assert_eq!(slice.get(1).to_bits(), ((seen / 9) % 9) as u8);
        last = Some(offset);
        seen += 1;
    }
    assert_eq!(seen, 300);
}

#[test]
fn blocks_of_signals_interleave() {
    let mut list = ChangeBlockList::new_in();
    assert_eq!(list.add_storage::<Two>(StorageId(0), 9), Ok(()));
    assert_eq!(list.add_storage::<Four>(StorageId(1), 3), Ok(()));
    assert_eq!(list.push_timesteps(Timesteps(1)), Ok(()));
    for round in 0..200usize {
        {
            let mut a = list.push_get::<Two>(StorageId(0)).ok().unwrap();
            a.set(round % 9, Two::One);
        }
        {
            let mut b = list.push_get::<Four>(StorageId(1)).ok().unwrap();
            b.set(round % 3, Four::Unknown);
        }
    }
    assert_eq!(list.count_of(StorageId(0)), Ok(200));
    assert_eq!(list.count_of(StorageId(1)), Ok(200));
    assert_eq!(list.blocks_of(StorageId(0)), Ok(2));
    assert_eq!(list.blocks_of(StorageId(1)), Ok(2));
    let mut iter = list.iter_storage(StorageId(0)).ok().unwrap();
    let mut round = 0;
    while let Some(offset) = iter.next() {
        let (_, slice) = list.get_change::<Two>(offset, 9).ok().unwrap();
        for i in 0..9 {
            assert_eq!(slice.get(i), if i == round % 9 { Two::One } else { Two::Zero });
        }
        round += 1;
    }
    assert_eq!(round, 200);
    let mut iter = list.iter_storage(StorageId(1)).ok().unwrap();
    let mut round = 0;
    while let Some(offset) = iter.next() {
        let (_, slice) = list.get_change::<Four>(offset, 3).ok().unwrap();
        for i in 0..3 {
            assert_eq!(slice.get(i), if i == round % 3 { Four::Unknown } else { Four::Zero });
        }
        round += 1;
    }
    assert_eq!(round, 200);
}

#[test]
fn store_layout_is_pinned() {
    let mut list = ChangeBlockList::new_in();
    assert_eq!(list.add_storage::<Four>(StorageId(0), 4), Ok(()));
    // One block: 16 bytes of header, 128 records of 4 + 1 bytes.
    assert_eq!(list.info().total_bytes_used, 16 + 128 * 5);
    assert_eq!(list.add_storage::<Two>(StorageId(1), 1), Ok(()));
    // 656 is a multiple of 8, so the second block follows at once.
    assert_eq!(list.info().total_bytes_used, 656 + 16 + 128 * 5);
    assert_eq!(list.push_timesteps(Timesteps(7)), Ok(()));
    assert_eq!(list.push_timesteps(Timesteps(8)), Ok(()));
    {
        let mut slice = list.push_get::<Four>(StorageId(0)).ok().unwrap();
        slice.set(1, Four::One);
        slice.set(3, Four::HighImpedance);
    }
    let mut iter = list.iter_storage(StorageId(0)).ok().unwrap();
    assert_eq!(iter.next(), Some(ChangeOffset(16)));
    let mut iter = list.iter_storage(StorageId(1)).ok().unwrap();
    assert_eq!(iter.next(), None);
    assert_eq!(BLOCK_HEADER_SIZE, 16);
    assert_eq!(BLOCK_ALIGN, 8);
    assert_eq!(CHANGES_PER_BLOCK, 128);
}

#[test]
fn store_errors() {
    let mut list = ChangeBlockList::new_in();
    assert_eq!(list.add_storage::<Two>(StorageId(2), 0), Err(Error::WidthZero));
    assert_eq!(list.add_storage::<Two>(StorageId(2), 5), Ok(()));
    assert_eq!(list.add_storage::<Two>(StorageId(2), 5), Err(Error::AlreadyDeclared));
    assert_eq!(list.add_storage::<Four>(StorageId(2), 1), Err(Error::AlreadyDeclared));
    assert_eq!(list.count_of(StorageId(1)), Err(Error::UnknownSignal));
    assert_eq!(list.count_of(StorageId(9)), Err(Error::UnknownSignal));
    assert_eq!(list.count_of(StorageId(2)), Ok(0));
    assert!(matches!(list.iter_storage(StorageId(1)), Err(Error::UnknownSignal)));
    assert!(matches!(list.blocks_of(StorageId(7)), Err(Error::UnknownSignal)));
    // No timestep yet.
    assert!(matches!(list.push_get::<Two>(StorageId(2)), Err(Error::OutOfBounds)));
    assert_eq!(list.push_timesteps(Timesteps(1)), Ok(()));
    assert!(matches!(list.push_get::<Two>(StorageId(1)), Err(Error::UnknownSignal)));
    assert!(matches!(list.push_get::<Four>(StorageId(2)), Err(Error::WidthMismatch)));
    assert!(matches!(list.push_get::<Two>(StorageId(77)), Err(Error::UnknownSignal)));
    assert_eq!(list.count_of(StorageId(2)), Ok(0));
    // Fabricated offsets are refused, not trusted.
    assert!(matches!(
        list.get_change::<Two>(ChangeOffset(usize::MAX), 5),
        Err(Error::OutOfBounds)
    ));
    assert!(matches!(
        list.get_change::<Two>(ChangeOffset(list.info().total_bytes_used - 3), 5),
        Err(Error::OutOfBounds)
    ));
}

#[test]
fn records_can_be_rewritten_in_place() {
    let mut list = ChangeBlockList::new_in();
    assert_eq!(list.add_storage::<Four>(StorageId(0), 2), Ok(()));
    assert_eq!(list.push_timesteps(Timesteps(3)), Ok(()));
    for _ in 0..3 {
        let mut slice = list.push_get::<Four>(StorageId(0)).ok().unwrap();
        slice.set(0, Four::One);
    }
    let offsets: Vec<ChangeOffset> = {
        let mut iter = list.iter_storage(StorageId(0)).ok().unwrap();
        let mut all = Vec::new();
        while let Some(offset) = iter.next() {
            all.push(offset);
        }
        all
    };
    {
        let (ts, mut slice) = list.get_change_mut::<Four>(offsets[1], 2).ok().unwrap();
        assert_eq!(ts, Timesteps(3));
        assert_eq!(slice.get(0), Four::One);
        slice.set(1, Four::HighImpedance);
    }
    for (i, offset) in offsets.iter().enumerate() {
        let (_, slice) = list.get_change::<Four>(*offset, 2).ok().unwrap();
        assert_eq!(slice.get(0), Four::One);
        assert_eq!(slice.get(1), if i == 1 { Four::HighImpedance } else { Four::Zero });
    }
}

#[test]
fn block_header_fullness() {
    assert!(BlockHeader { delta_next: None, len: 128 }.is_full());
    assert!(!BlockHeader { delta_next: Some(8), len: 127 }.is_full());
    assert!(!BlockHeader { delta_next: None, len: 0 }.is_full());
}

#[test]
fn little_endian_integers() {
    let mut store = vec![0u8; 16];
    write_u64(&mut store, 3, 0x0102_0304_0506_0708);
    assert_eq!(&store[3..11], &[8, 7, 6, 5, 4, 3, 2, 1]);
    assert_eq!(read_u64(&store, 3), 0x0102_0304_0506_0708);
    write_u32(&mut store, 12, 0xAABB_CCDD);
    assert_eq!(&store[12..16], &[0xDD, 0xCC, 0xBB, 0xAA]);
    assert_eq!(read_u32(&store, 12), 0xAABB_CCDD);
    assert_eq!(store[0], 0);
    assert_eq!(store[11], 0);
}

#[test]
fn alignment() {
    assert_eq!(align_down(13, 8), 8);
    assert_eq!(align_down(16, 8), 16);
    assert_eq!(align_down(7, 8), 0);
    assert_eq!(align_down(13, 0), 13);
    assert_eq!(align_down(13, 1), 13);
    assert_eq!(align_up(13, 8), 16);
    assert_eq!(align_up(16, 8), 16);
    assert_eq!(align_up(0, 8), 0);
    assert_eq!(align_up(1, 4096), 4096);
    assert_eq!(align_up(13, 0), 13);
}

#[test]
fn the_store_can_be_snapshot_byte_by_byte() {
    let mut list = ChangeBlockList::new_in();
    assert!(list.as_bytes().is_empty());
    assert_eq!(list.add_storage::<Two>(StorageId(0), 3), Ok(()));
    // A header and 128 slots of 4 + 1 bytes, all zero.
    assert_eq!(list.as_bytes(), &[0u8; 656][..]);
    assert_eq!(list.push_timesteps(Timesteps(7)), Ok(()));
    assert_eq!(list.push_timesteps(Timesteps(8)), Ok(()));
    {
        let mut slice = list.push_get::<Two>(StorageId(0)).ok().unwrap();
        slice.set(0, Two::One);
        slice.set(2, Two::One);
    }
    let mut expected = vec![0u8; 656];
    // No next block, one record.
    expected[8] = 1;
    // The record: the index of the second timestep, then the units.
    expected[16] = 1;
    expected[20] = 0b101;
    assert_eq!(list.as_bytes(), &expected[..]);

    // A second signal is put behind the first; its first block is the last
    // thing in the store.
    assert_eq!(list.add_storage::<Nine>(StorageId(1), 1), Ok(()));
    assert_eq!(list.info().total_bytes_used, 656 + 656);
    assert_eq!(&list.as_bytes()[..656], &expected[..]);
    assert!(list.as_bytes()[656..].iter().all(|b| *b == 0));

    // The 129th change of the first signal opens a block behind that.
    for _ in 1..129 {
        let _ = list.push_get::<Two>(StorageId(0)).ok().unwrap();
    }
    assert_eq!(list.info().total_bytes_used, 3 * 656);
    let store = list.as_bytes();
    // The first block is full and names the distance to the next.
    assert_eq!(&store[0..8], &(2 * 656u64).to_le_bytes()[..]);
    assert_eq!(&store[8..16], &128u64.to_le_bytes()[..]);
    assert_eq!(&store[1312..1320], &0u64.to_le_bytes()[..]);
    assert_eq!(&store[1320..1328], &1u64.to_le_bytes()[..]);
    assert_eq!(&store[1328..1332], &1u32.to_le_bytes()[..]);
    let handles: Vec<ChangeOffset> = {
        let mut iter = list.iter_storage(StorageId(0)).ok().unwrap();
        let mut handles = Vec::new();
        while let Some(handle) = iter.next() {
            handles.push(handle);
        }
        handles
    };
    assert_eq!(handles.len(), 129);
    assert_eq!(handles[0], ChangeOffset(16));
    assert_eq!(handles[1], ChangeOffset(21));
    assert_eq!(handles[127], ChangeOffset(16 + 127 * 5));
    assert_eq!(handles[128], ChangeOffset(1312 + 16));
}
