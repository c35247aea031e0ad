use vibecheat::saved::{
    finish_lock, frozen_entries, record_freeze, is_saved, new_saved_address, record_write, remove_saved, save_address,
    save_all_candidates, set_locked, LockRead, SavedAddress,
};
use vibecheat::scan_type::ScanType;

fn addresses(v: &[SavedAddress]) -> Vec<usize> {
    v.iter().map(|a| a.address).collect()
}

#[test]
fn saving_an_address_once() {
    let mut saved = Vec::new();
    save_address(&mut saved, 0x10, ScanType::I32, 2);
    save_address(&mut saved, 0x10, ScanType::I16, 2);
    save_address(&mut saved, 0x20, ScanType::I16, 2);
    save_address(&mut saved, 0x30, ScanType::I16, 2);
    assert_eq!(addresses(&saved), vec![0x10, 0x20]);
    assert_eq!(saved[0].description, "No Description");
    assert_eq!(saved[0].scan_type, ScanType::I32);
    assert_eq!(saved[1].scan_type, ScanType::I16);
    assert!(!saved[1].is_locked);
    assert!(saved[1].write_buffer.is_empty());
    assert!(is_saved(&saved, 0x20));
    assert!(!is_saved(&saved, 0x30));
}

#[test]
fn saving_all_candidates_skips_repeats_and_stops_at_limit() {
    let mut saved = vec![new_saved_address(2, "mine".to_string(), ScanType::I8)];
    save_all_candidates(&mut saved, &vec![1, 2, 2, 3, 4], ScanType::I64, 3);
    assert_eq!(addresses(&saved), vec![2, 1, 3]);
    assert_eq!(saved[0].description, "mine");
    assert_eq!(saved[2].scan_type, ScanType::I64);
}

#[test]
fn removing_rows() {
    let mut saved: Vec<SavedAddress> =
        [10usize, 20, 30, 40].iter().map(|a| new_saved_address(*a, format!("d{}", a), ScanType::I32)).collect();
    remove_saved(&mut saved, &vec![1, 3]);
    assert_eq!(addresses(&saved), vec![10, 30]);
    assert_eq!(saved[1].description, "d30");
    remove_saved(&mut saved, &vec![]);
    assert_eq!(addresses(&saved), vec![10, 30]);
    remove_saved(&mut saved, &vec![0, 1]);
    assert!(saved.is_empty());
}

#[test]
fn locking_reads_the_value_once() {
    let mut sa = new_saved_address(0x40, "hp".to_string(), ScanType::I16);
    assert_eq!(set_locked(&mut sa, true, 0), None);
    assert!(sa.is_locked);
    assert_eq!(set_locked(&mut sa, false, 7), None);
    assert_eq!(set_locked(&mut sa, true, 7), Some(LockRead { address: 0x40, size: 2 }));
    assert_eq!(set_locked(&mut sa, true, 7), None);
    finish_lock(&mut sa, Some(vec![1, 2]));
    assert_eq!(sa.locked_value_bytes, vec![1, 2]);
    assert!(sa.is_locked);
    assert!(sa.error_message.is_none());
}

#[test]
fn failed_lock_read_unlocks() {
    let mut sa = new_saved_address(0x40, "hp".to_string(), ScanType::I32);
    set_locked(&mut sa, true, 7);
    finish_lock(&mut sa, None);
    assert!(!sa.is_locked);
    assert_eq!(sa.error_message.as_deref(), Some("Failed to read value for lock"));
}

#[test]
fn writes_are_recorded() {
    let mut sa = new_saved_address(0x40, "hp".to_string(), ScanType::I32);
    record_write(&mut sa, None, None);
    assert_eq!(sa.error_message.as_deref(), Some("Invalid input value format"));
    record_write(&mut sa, Some(vec![1, 0, 0, 0]), Some("denied".to_string()));
    assert_eq!(sa.error_message.as_deref(), Some("denied"));
    record_write(&mut sa, Some(vec![1, 0, 0, 0]), None);
    assert!(sa.error_message.is_none());
    assert!(sa.locked_value_bytes.is_empty());
    sa.is_locked = true;
    record_write(&mut sa, Some(vec![2, 0, 0, 0]), None);
    assert_eq!(sa.locked_value_bytes, vec![2, 0, 0, 0]);
}

#[test]
fn frozen_rows() {
    let mut saved: Vec<SavedAddress> =
        [1usize, 2, 3].iter().map(|a| new_saved_address(*a, String::new(), ScanType::I8)).collect();
    saved[0].is_locked = true;
    saved[1].is_locked = true;
    saved[1].locked_value_bytes = vec![5];
    saved[2].locked_value_bytes = vec![5];
    assert_eq!(frozen_entries(&saved), vec![1]);
}

#[test]
fn freezing_errors_are_recorded() {
    let mut sa = new_saved_address(0x40, "hp".to_string(), ScanType::I32);
    sa.is_locked = true;
    sa.locked_value_bytes = vec![1, 0, 0, 0];
    record_freeze(&mut sa, Some("No such process".to_string()));
    assert_eq!(sa.error_message.as_deref(), Some("No such process"));
    record_freeze(&mut sa, None);
    assert!(sa.error_message.is_none());
    assert_eq!(sa.locked_value_bytes, vec![1, 0, 0, 0]);
}
