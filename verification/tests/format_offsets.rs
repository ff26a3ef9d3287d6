use super_image_worker::format::{
    backup_offset, primary_offset, slot_from_primary_offset, slot_of_offset,
};

#[test]
fn primary_slots_follow_one_another() {
    assert_eq!(primary_offset(0, 65536), Some(0x3000));
    assert_eq!(primary_offset(1, 65536), Some(0x3000 + 65536));
    assert_eq!(primary_offset(2, 65536), Some(0x3000 + 131072));
    assert_eq!(primary_offset(u64::MAX, 2), None);
    assert_eq!(primary_offset(1, u64::MAX - 0x2fff), None);
}

#[test]
fn backups_follow_all_primaries() {
    assert_eq!(backup_offset(0, 3, 65536), Some(0x3000 + 3 * 65536));
    assert_eq!(backup_offset(1, 3, 65536), Some(0x3000 + 4 * 65536));
    assert_eq!(backup_offset(u64::MAX, 1, 1), None);
    assert_ne!(backup_offset(0, 2, 4096), primary_offset(1, 4096));
}

#[test]
fn slot_index_from_offset() {
    assert_eq!(slot_from_primary_offset(0x3000, 4096), Some(0));
    assert_eq!(slot_from_primary_offset(0x3000 + 8192, 4096), Some(2));
    assert_eq!(slot_from_primary_offset(0x3001, 4096), None);
    assert_eq!(slot_from_primary_offset(0x2fff, 4096), None);
    assert_eq!(slot_from_primary_offset(0x3000, 0), None);
}

#[test]
fn backup_offsets_belong_to_their_slot() {
    for slot in 0..3u64 {
        let p = primary_offset(slot, 4096).unwrap();
        let b = backup_offset(slot, 3, 4096).unwrap();
        assert_eq!(slot_of_offset(p, 3, 4096), Some(slot));
        assert_eq!(slot_of_offset(b, 3, 4096), Some(slot));
    }
    assert_eq!(slot_of_offset(0x3000 + 6 * 4096, 3, 4096), None);
    assert_eq!(slot_of_offset(0x3000, 3, 0), None);
}
