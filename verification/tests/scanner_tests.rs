use vibecheat::scan_type::{CompareType, ScanType};
use vibecheat::scanner::{
    initial_scan, next_scan, reads_ready, scan_target, scan_target_from, shown_addresses, write_status, Candidate,
    MemoryRegion, ScanAction, ScanPhase, ScannerState,
};
use vibecheat::value::compare_values;

fn run_initial_scan(state: &mut ScannerState, base: usize, mem: &[u8], target: Option<&[u8]>) -> Vec<(usize, usize)> {
    let mut reads = Vec::new();
    let mut scan = initial_scan(state, target);
    loop {
        match scan.next_action(state) {
            ScanAction::Read { address, len } => {
                reads.push((address, len));
                let lo = address - base;
                let data = mem[lo..lo + len].to_vec();
                scan.step(state, Some(&data));
            }
            ScanAction::Done => break,
        }
    }
    reads
}

fn memory() -> Vec<u8> {
    let mut mem = vec![0u8; 32];
    mem[4..8].copy_from_slice(&7i32.to_ne_bytes());
    mem[12..16].copy_from_slice(&7i32.to_ne_bytes());
    mem[17..21].copy_from_slice(&7i32.to_ne_bytes());
    mem
}

#[test]
fn exact_scan_finds_aligned_matches() {
    let mut state = ScannerState::new(42, ScanType::I32, 4);
    state.regions = vec![MemoryRegion { start: 0x1000, end: 0x1020 }];
    let target = 7i32.to_ne_bytes();
    let reads = run_initial_scan(&mut state, 0x1000, &memory(), Some(&target));
    assert_eq!(reads, vec![(0x1000, 32)]);
    let addrs: Vec<usize> = state.candidates.iter().map(|c| c.address).collect();
    assert_eq!(addrs, vec![0x1004, 0x100C]);
    assert!(!state.is_initial_scan);
}

#[test]
fn unaligned_scan_finds_every_offset() {
    let mut state = ScannerState::new(42, ScanType::I32, 1);
    state.regions = vec![MemoryRegion { start: 0x1000, end: 0x1020 }];
    let target = 7i32.to_ne_bytes();
    run_initial_scan(&mut state, 0x1000, &memory(), Some(&target));
    let addrs: Vec<usize> = state.candidates.iter().map(|c| c.address).collect();
    assert_eq!(addrs, vec![0x1004, 0x100C, 0x1011]);
}

#[test]
fn unknown_scan_keeps_every_window() {
    let mut state = ScannerState::new(42, ScanType::I16, 8);
    state.regions = vec![MemoryRegion { start: 0x1001, end: 0x1020 }, MemoryRegion { start: 0x2000, end: 0x2001 }];
    let mem = memory();
    run_initial_scan(&mut state, 0x1000, &mem, None);
    let addrs: Vec<usize> = state.candidates.iter().map(|c| c.address).collect();
    assert_eq!(addrs, vec![0x1008, 0x1010, 0x1018]);
    assert_eq!(state.candidates[1].last_value_bytes, mem[16..18].to_vec());
}

#[test]
fn next_scan_filters_by_change() {
    let mut state = ScannerState::new(42, ScanType::I32, 4);
    state.is_initial_scan = false;
    state.candidates = vec![
        Candidate { address: 0x10, last_value_bytes: 5i32.to_ne_bytes().to_vec() },
        Candidate { address: 0x20, last_value_bytes: 5i32.to_ne_bytes().to_vec() },
        Candidate { address: 0x30, last_value_bytes: 5i32.to_ne_bytes().to_vec() },
    ];
    let reads = vec![Some(6i32.to_ne_bytes().to_vec()), Some(4i32.to_ne_bytes().to_vec()), None];
    next_scan(&mut state, CompareType::GreaterThan, None, &reads);
    assert_eq!(state.candidates.len(), 1);
    assert_eq!(state.candidates[0].address, 0x10);
    assert_eq!(state.candidates[0].last_value_bytes, 6i32.to_ne_bytes().to_vec());
}

#[test]
fn next_scan_with_exact_value() {
    let mut state = ScannerState::new(42, ScanType::I16, 2);
    state.candidates = vec![
        Candidate { address: 0x10, last_value_bytes: vec![0, 0] },
        Candidate { address: 0x12, last_value_bytes: vec![0, 0] },
    ];
    let target = 9i16.to_ne_bytes();
    let reads = vec![Some(9i16.to_ne_bytes().to_vec()), Some(8i16.to_ne_bytes().to_vec())];
    next_scan(&mut state, CompareType::LessThan, Some(&target), &reads);
    let addrs: Vec<usize> = state.candidates.iter().map(|c| c.address).collect();
    assert_eq!(addrs, vec![0x10]);
}

#[test]
fn reset_and_display_limit() {
    let mut state = ScannerState::new(1, ScanType::I8, 1);
    state.candidates = (0..250).map(|a| Candidate { address: a, last_value_bytes: vec![0] }).collect();
    state.is_initial_scan = false;
    let shown = shown_addresses(&state.candidates);
    assert_eq!(shown.len(), 200);
    assert_eq!(shown[199], 199);
    state.reset_scan();
    assert!(state.candidates.is_empty());
    assert!(state.is_initial_scan);
    assert_eq!(state.pid, 1);
}

#[test]
fn float_comparisons_follow_ieee() {
    let a = 1.5f32.to_ne_bytes();
    let b = (-2.0f32).to_ne_bytes();
    assert!(compare_values(ScanType::F32, &a, &b, CompareType::GreaterThan));
    assert!(compare_values(ScanType::F32, &b, &a, CompareType::LessThan));
    assert!(compare_values(ScanType::F32, &(-0.0f32).to_ne_bytes(), &0.0f32.to_ne_bytes(), CompareType::Equal));
    let nan = f32::NAN.to_ne_bytes();
    assert!(!compare_values(ScanType::F32, &nan, &nan, CompareType::Equal));
    assert!(compare_values(ScanType::F32, &nan, &nan, CompareType::NotEqual));
    assert!(!compare_values(ScanType::F32, &nan, &a, CompareType::GreaterThan));
    let x = (-1.25f64).to_ne_bytes();
    let y = (-1.5f64).to_ne_bytes();
    assert!(compare_values(ScanType::F64, &x, &y, CompareType::GreaterThan));
    assert!(compare_values(ScanType::F64, &f64::INFINITY.to_ne_bytes(), &f64::MAX.to_ne_bytes(), CompareType::GreaterThan));
}

#[test]
fn large_regions_are_read_in_chunks_of_16_mib() {
    const CHUNK: usize = 16 * 1024 * 1024;
    let base = 0x10000usize;
    let mut mem = vec![0u8; CHUNK + 16];
    mem[CHUNK - 4..CHUNK].copy_from_slice(&0x5A5A5A5Ai32.to_ne_bytes());
    mem[CHUNK + 8..CHUNK + 12].copy_from_slice(&0x5A5A5A5Ai32.to_ne_bytes());
    let mut state = ScannerState::new(42, ScanType::I32, 4);
    state.regions = vec![MemoryRegion { start: base, end: base + CHUNK + 16 }];
    let target = 0x5A5A5A5Ai32.to_ne_bytes();
    let reads = run_initial_scan(&mut state, base, &mem, Some(&target));
    assert_eq!(reads, vec![(base, CHUNK), (base + CHUNK, 16)]);
    let addrs: Vec<usize> = state.candidates.iter().map(|c| c.address).collect();
    assert_eq!(addrs, vec![base + CHUNK - 4, base + CHUNK + 8]);
}

#[test]
fn scan_stays_aligned_after_a_full_chunk() {
    const CHUNK: usize = 16 * 1024 * 1024;
    let base = 0x10000usize;
    let mut mem = vec![0u8; CHUNK + 16];
    mem[CHUNK..CHUNK + 4].copy_from_slice(&0x1234567i32.to_ne_bytes());
    mem[CHUNK + 4..CHUNK + 8].copy_from_slice(&0x1234567i32.to_ne_bytes());
    let mut state = ScannerState::new(42, ScanType::I32, 8);
    state.regions = vec![MemoryRegion { start: base, end: base + CHUNK + 16 }];
    let target = 0x1234567i32.to_ne_bytes();
    let reads = run_initial_scan(&mut state, base, &mem, Some(&target));
    assert_eq!(reads, vec![(base, CHUNK), (base + CHUNK, 16)]);
    let addrs: Vec<usize> = state.candidates.iter().map(|c| c.address).collect();
    assert_eq!(addrs, vec![base + CHUNK]);
}

#[test]
fn exact_i8_filter_needs_no_previous_value() {
    let mut state = ScannerState::new(42, ScanType::I8, 1);
    state.candidates = vec![
        Candidate { address: 0x10, last_value_bytes: vec![] },
        Candidate { address: 0x11, last_value_bytes: vec![] },
    ];
    let reads = vec![Some(vec![5u8]), Some(vec![6u8])];
    next_scan(&mut state, CompareType::NotEqual, Some(&[5u8]), &reads);
    let addrs: Vec<usize> = state.candidates.iter().map(|c| c.address).collect();
    assert_eq!(addrs, vec![0x10]);
}

#[test]
fn unchanged_filter_on_unchanged_memory_keeps_everything() {
    let mut state = ScannerState::new(42, ScanType::I16, 2);
    state.candidates = vec![
        Candidate { address: 0x10, last_value_bytes: 3i16.to_ne_bytes().to_vec() },
        Candidate { address: 0x20, last_value_bytes: (-3i16).to_ne_bytes().to_vec() },
    ];
    let reads = vec![Some(3i16.to_ne_bytes().to_vec()), Some((-3i16).to_ne_bytes().to_vec())];
    next_scan(&mut state, CompareType::Equal, None, &reads);
    assert_eq!(state.candidates.len(), 2);
    next_scan(&mut state, CompareType::GreaterThan, None, &reads);
    assert!(state.candidates.is_empty());
}

#[test]
fn typed_scan_values() {
    use_scan_target_cases();
}

fn use_scan_target_cases() {
    assert_eq!(scan_target(true, ScanType::I32, "junk", ScanPhase::First), Ok(None));
    assert_eq!(scan_target(false, ScanType::I16, " -2 ", ScanPhase::First), Ok(Some((-2i16).to_ne_bytes().to_vec())));
    assert_eq!(
        scan_target(false, ScanType::I8, "300", ScanPhase::First),
        Err("Invalid input value for selected type.".to_string())
    );
    assert_eq!(scan_target(false, ScanType::I8, "x", ScanPhase::Next), Err("Invalid filter value.".to_string()));
    assert_eq!(scan_target_from(false, Some(vec![1, 2]), ScanPhase::Next), Ok(Some(vec![1, 2])));
    assert_eq!(scan_target_from(false, None, ScanPhase::Next), Err("Invalid filter value.".to_string()));
    assert_eq!(scan_target_from(true, None, ScanPhase::First), Ok(None));
}

#[test]
fn readiness_of_a_filtering_scan() {
    let mut state = ScannerState::new(1, ScanType::I8, 1);
    state.candidates = vec![Candidate { address: 1, last_value_bytes: vec![] }];
    assert!(reads_ready(&state, Some(&[1u8]), &vec![Some(vec![1])]));
    assert!(!reads_ready(&state, None, &vec![Some(vec![1])]));
    assert!(!reads_ready(&state, Some(&[1u8]), &vec![]));
    assert!(!reads_ready(&state, Some(&[1u8]), &vec![Some(vec![1, 2])]));
}

#[test]
fn status_after_writing_a_match() {
    assert_eq!(write_status(false, None), "Error: Invalid value format.");
    assert_eq!(write_status(true, Some("denied")), "Error: denied");
    assert_eq!(write_status(true, None), "Success: Wrote value!");
}
