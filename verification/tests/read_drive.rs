use rust_os::task::read_drive::{
    ata_busy, ata_data_requested, ata_drive_present, ata_lba_registers, find_entries_end,
    free_sector_search_next, free_sector_search_start, is_block_empty, mark_block_used,
    parse_directory, root_directory_sector, sector_from_words, sector_to_words, split_file_name,
    write_entry_names, write_entry_pointer, AtaLbaRegisters, DirFieldKind, FreeSectorStep, MAX_LBA,
    plan_entry, complete_entry, EntryError,
};

#[test]
fn lba_registers() {
    assert_eq!(
        ata_lba_registers(0x0123_4567),
        AtaLbaRegisters { drive: 0xF1, lba_low: 0x67, lba_mid: 0x45, lba_high: 0x23 }
    );
    assert_eq!(
        ata_lba_registers(0xFFFF_FFFF),
        AtaLbaRegisters { drive: 0xFF, lba_low: 0xFF, lba_mid: 0xFF, lba_high: 0xFF }
    );
    assert_eq!(ata_lba_registers(0).drive, 0xF0);
}

#[test]
fn status_bits() {
    assert!(ata_busy(0x80));
    assert!(ata_busy(0xD0));
    assert!(!ata_busy(0x58));
    assert!(ata_data_requested(0x58));
    assert!(!ata_data_requested(0x50));
    assert!(!ata_drive_present(0));
    assert!(ata_drive_present(0x50));
}

#[test]
fn sector_round_trip() {
    let mut bytes = [0u8; 512];
    for (i, b) in bytes.iter_mut().enumerate() {
        *b = (i * 7 + 3) as u8;
    }
    let words = sector_to_words(&bytes);
    assert_eq!(words[0], 0x0a03);
    assert_eq!(sector_from_words(&words), bytes);
    let mut w = [0u16; 256];
    for (i, x) in w.iter_mut().enumerate() {
        *x = (i as u16).wrapping_mul(0x0101).wrapping_add(0x1234);
    }
    let b = sector_from_words(&w);
    assert_eq!(b[0], 0x34);
    assert_eq!(b[1], 0x12);
    assert_eq!(sector_to_words(&b), w);
}

#[test]
fn root_directory_layout() {
    let root = root_directory_sector();
    assert_eq!(&root[..4], &[0x11, 0x11, 0, 0]);
    assert!(root[4..].iter().all(|&b| b == 0));
    assert!(!is_block_empty(&root));
    assert_eq!(find_entries_end(&root), 2);
    let listing = parse_directory(&root);
    assert!(listing.fields.is_empty());
    assert!(listing.reached_end);
}

#[test]
fn block_emptiness() {
    let mut b = [0u8; 512];
    assert!(is_block_empty(&b));
    b[0] = 0x11;
    assert!(is_block_empty(&b));
    mark_block_used(&mut b);
    assert!(!is_block_empty(&b));
    assert_eq!(&b[..2], &[0x11, 0x11]);
}

#[test]
fn entries_end_without_double_zero() {
    let b = [1u8; 512];
    assert_eq!(find_entries_end(&b), 511);
    let mut c = [1u8; 512];
    c[300] = 0;
    c[301] = 0;
    c[100] = 0;
    assert_eq!(find_entries_end(&c), 300);
}

#[test]
fn split_names() {
    assert_eq!(split_file_name("txt.notes"), Some((b"txt".to_vec(), b"notes".to_vec())));
    assert_eq!(split_file_name(".x"), Some((vec![], b"x".to_vec())));
    assert_eq!(split_file_name("x."), Some((b"x".to_vec(), vec![])));
    assert_eq!(split_file_name("noext"), None);
    assert_eq!(split_file_name("a.b.c"), None);
    assert_eq!(split_file_name(""), None);
}

#[test]
fn create_then_list_in_root() {
    let mut b = root_directory_sector();
    let at = find_entries_end(&b);
    let (file_type, file_name) = split_file_name("txt.notes").unwrap();
    let p = write_entry_names(&mut b, at, &file_name, &file_type);
    assert_eq!(p, 2 + 3 + 5 + 3);
    write_entry_pointer(&mut b, p, 7);
    assert_eq!(&b[2..17], &[0, b'n', b'o', b't', b'e', b's', 0, b't', b'x', b't', 0, 7, 0, 0, 0]);
    assert_eq!(&b[17..19], &[0, 0]);
    let listing = parse_directory(&b);
    assert!(listing.reached_end);
    let shown: Vec<(DirFieldKind, Vec<u8>)> =
        listing.fields.into_iter().map(|f| (f.kind, f.data)).collect();
    assert_eq!(
        shown,
        vec![
            (DirFieldKind::FileType, b"notes".to_vec()),
            (DirFieldKind::FileName, b"txt".to_vec()),
            (DirFieldKind::FilePointer, vec![7]),
        ]
    );
}

#[test]
fn pointer_bytes_are_little_endian() {
    let mut b = [0xAAu8; 512];
    write_entry_pointer(&mut b, 10, 0x0403_0201);
    assert_eq!(&b[9..17], &[0xAA, 1, 2, 3, 4, 0, 0, 0xAA]);
}

#[test]
fn listing_counts_fields_in_threes() {
    let mut b = [0u8; 512];
    let data: &[u8] = &[7, 0, 1, 0, 2, 0, 3, 0, 4, 0, 0];
    b[..data.len()].copy_from_slice(data);
    let listing = parse_directory(&b);
    let shown: Vec<(DirFieldKind, Vec<u8>)> =
        listing.fields.into_iter().map(|f| (f.kind, f.data)).collect();
    assert_eq!(
        shown,
        vec![
            (DirFieldKind::FileType, vec![1]),
            (DirFieldKind::FileName, vec![2]),
            (DirFieldKind::FilePointer, vec![3]),
            (DirFieldKind::FileType, vec![4]),
        ]
    );
    assert!(listing.reached_end);
}

#[test]
fn listing_runs_to_the_sector_end() {
    let mut b = [5u8; 512];
    b[510] = 0;
    let listing = parse_directory(&b);
    assert!(!listing.reached_end);
    assert_eq!(listing.fields.len(), 1);
    assert_eq!(listing.fields[0].data, vec![5]);
    let last_zero = {
        let mut c = [5u8; 512];
        c[511] = 0;
        parse_directory(&c)
    };
    assert_eq!(last_zero.fields.len(), 1);
    assert!(last_zero.fields[0].data.is_empty());
}

#[test]
fn free_sector_search_claims_first_free() {
    let used = {
        let mut b = [0u8; 512];
        mark_block_used(&mut b);
        b
    };
    let free = [0u8; 512];
    let disk = [used, used, free, free];
    let mut step = free_sector_search_start(0, 4);
    let found = loop {
        match step {
            FreeSectorStep::ReadSector(l) => step = free_sector_search_next(l, 4, &disk[l as usize]),
            FreeSectorStep::Claim(l) => break Some(l),
            FreeSectorStep::NotFound => break None,
        }
    };
    assert_eq!(found, Some(2));
    assert_eq!(free_sector_search_start(5, 5), FreeSectorStep::NotFound);
    assert_eq!(free_sector_search_next(3, 4, &used), FreeSectorStep::NotFound);
    assert_eq!(free_sector_search_next(1, MAX_LBA, &used), FreeSectorStep::ReadSector(2));
}

#[test]
fn plan_and_complete_entry() {
    let root = root_directory_sector();
    let plan = plan_entry(&root, "txt.notes").unwrap();
    assert_eq!(plan.entries_end, 2);
    assert_eq!(plan.pointer_at, 2 + 2 + 9);
    assert_eq!(&plan.sector[2..13], &[0, b'n', b'o', b't', b'e', b's', 0, b't', b'x', b't', 0]);
    let done = complete_entry(&plan, 0x0102).unwrap();
    assert_eq!(&done[13..19], &[0x02, 0x01, 0, 0, 0, 0]);
    assert_eq!(plan_entry(&root, "notes"), Err(EntryError::InvalidName));
    assert_eq!(plan_entry(&root, "a.b.c"), Err(EntryError::InvalidName));
}

#[test]
fn entry_bounds() {
    let root = root_directory_sector();
    // 2 + 1 + len <= 512: a name of 509 bytes fits, 510 does not.
    let fits = format!("{}.{}", "t".repeat(254), "n".repeat(254));
    assert_eq!(fits.len(), 509);
    let plan = plan_entry(&root, &fits).unwrap();
    assert_eq!(plan.pointer_at, 513);
    assert_eq!(complete_entry(&plan, 1), None);
    let too_long = format!("{}.{}", "t".repeat(255), "n".repeat(254));
    assert_eq!(plan_entry(&root, &too_long), Err(EntryError::NameDoesNotFit));
    let just = format!("{}.{}", "t".repeat(250), "n".repeat(251));
    let plan = plan_entry(&root, &just).unwrap();
    assert_eq!(plan.pointer_at, 506);
    assert!(complete_entry(&plan, 1).is_some());
}

#[test]
fn claimed_sector_is_not_found_again() {
    let free = [0u8; 512];
    let mut disk = [free; 4];
    let search = |disk: &[[u8; 512]; 4]| {
        let mut step = free_sector_search_start(0, 4);
        loop {
            match step {
                FreeSectorStep::ReadSector(l) => {
                    step = free_sector_search_next(l, 4, &disk[l as usize])
                }
                FreeSectorStep::Claim(l) => break Some(l),
                FreeSectorStep::NotFound => break None,
            }
        }
    };
    let mut last = None;
    for expected in 0..4u32 {
        let l = search(&disk).unwrap();
        assert_eq!(l, expected);
        assert!(last.map_or(true, |p| l > p));
        mark_block_used(&mut disk[l as usize]);
        last = Some(l);
    }
    assert_eq!(search(&disk), None);
}
