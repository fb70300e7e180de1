use disk_pie::scan::{file_size, join_size, Assembly, AssemblyError, WorkerQuota, MAX_WORKERS};
use disk_pie::tree::TreeNode;

fn file(name: &str, size: u64) -> TreeNode {
    TreeNode::file(String::from(name), size)
}

#[test]
fn quota_lets_workers_in_up_to_its_limit() {
    let mut quota = WorkerQuota::new(2);
    assert_eq!(quota.limit(), 2);
    assert_eq!(quota.active(), 0);
    assert!(quota.try_enter());
    assert!(quota.try_enter());
    assert!(!quota.try_enter());
    assert_eq!(quota.active(), 2);
}

#[test]
fn quota_frees_a_place_when_a_worker_leaves() {
    let mut quota = WorkerQuota::new(1);
    assert!(quota.try_enter());
    assert!(!quota.try_enter());
    assert!(quota.leave());
    assert_eq!(quota.active(), 0);
    assert!(quota.try_enter());
}

#[test]
fn quota_without_workers_has_none_to_leave() {
    let mut quota = WorkerQuota::new(3);
    assert!(!quota.leave());
    assert_eq!(quota.active(), 0);
}

#[test]
fn quota_of_no_places_lets_nobody_in() {
    let mut quota = WorkerQuota::new(0);
    assert!(!quota.try_enter());
    assert_eq!(quota.active(), 0);
}

#[test]
fn quota_never_exceeds_its_limit() {
    let mut quota = WorkerQuota::new(MAX_WORKERS);
    let mut seed: u64 = 12345;
    for _ in 0..100_000 {
        seed = seed.wrapping_mul(6364136223846793005).wrapping_add(1442695040888963407);
        if (seed >> 33) % 3 != 0 {
            quota.try_enter();
        } else {
            quota.leave();
        }
        assert!(quota.active() <= MAX_WORKERS);
    }
}

#[test]
fn deep_and_wide_scan_keeps_within_the_limit() {
    // Every directory of a tree of fan-out 6 and depth 6 asks for a worker
    // for each of its subdirectories and scans in place where it gets none.
    fn scan(quota: &mut WorkerQuota, depth: u32, most: &mut u32) {
        if depth == 0 {
            return;
        }
        let mut spawned = 0;
        for _ in 0..6 {
            if quota.try_enter() {
                spawned += 1;
            }
            if quota.active() > *most {
                *most = quota.active();
            }
            scan(quota, depth - 1, most);
        }
        for _ in 0..spawned {
            assert!(quota.leave());
        }
    }
    let mut quota = WorkerQuota::new(MAX_WORKERS);
    assert!(quota.try_enter());
    let mut most = 0;
    scan(&mut quota, 6, &mut most);
    assert!(most <= MAX_WORKERS);
    assert_eq!(most, MAX_WORKERS);
    assert_eq!(quota.active(), 1);
}

#[test]
fn file_counts_for_its_size_on_disk() {
    assert_eq!(file_size(Some(5), Some(9)), 5);
    assert_eq!(file_size(Some(5), None), 5);
}

#[test]
fn file_falls_back_to_its_length() {
    assert_eq!(file_size(None, Some(9)), 9);
}

#[test]
fn file_of_unknown_size_counts_for_nothing() {
    assert_eq!(file_size(None, None), 0);
}

#[test]
fn size_words_are_joined() {
    assert_eq!(join_size(5, 0), Some(5));
    assert_eq!(join_size(5, 1), Some((1u64 << 32) + 5));
    assert_eq!(join_size(0, u32::MAX), Some(0xffff_ffff_0000_0000));
    assert_eq!(join_size(u32::MAX - 1, u32::MAX), Some(u64::MAX - 1));
}

#[test]
fn low_word_of_all_ones_reports_failure() {
    assert_eq!(join_size(u32::MAX, 0), None);
    assert_eq!(join_size(u32::MAX, 7), None);
}

#[test]
fn assembly_reads_entries_in_listing_order() {
    let mut assembly = Assembly::new(3);
    assert_eq!(assembly.len(), 3);
    assert!(assembly.place(2, file("c", 3)));
    assert!(assembly.place(0, file("a", 1)));
    assert!(!assembly.is_complete());
    assert!(assembly.place(1, file("b", 2)));
    assert!(assembly.is_complete());
    let node = assembly.finish(String::from("dir")).unwrap();
    assert_eq!(node.name(), "dir");
    assert_eq!(node.size(), 6);
    let names: Vec<&str> = node.children().unwrap().iter().map(|c| c.name().as_str()).collect();
    assert_eq!(names, vec!["a", "b", "c"]);
}

#[test]
fn assembly_has_no_place_beyond_the_listing() {
    let mut assembly = Assembly::new(2);
    assert!(!assembly.place(2, file("x", 1)));
    assert!(!assembly.is_complete());
}

#[test]
fn assembly_with_a_gap_gives_no_node() {
    let mut assembly = Assembly::new(2);
    assert!(assembly.place(1, file("b", 2)));
    assert_eq!(assembly.finish(String::from("dir")).err(), Some(AssemblyError::Incomplete));
}

#[test]
fn assembly_of_nothing_is_an_empty_directory() {
    let assembly = Assembly::new(0);
    assert!(assembly.is_complete());
    let node = assembly.finish(String::from("dir")).unwrap();
    assert!(node.is_directory());
    assert_eq!(node.size(), 0);
    assert_eq!(node.children().unwrap().len(), 0);
}

#[test]
fn assembly_keeps_the_later_of_two_entries_for_a_place() {
    let mut assembly = Assembly::new(1);
    assert!(assembly.place(0, file("first", 1)));
    assert!(assembly.place(0, file("second", 2)));
    let node = assembly.finish(String::from("dir")).unwrap();
    assert_eq!(node.children().unwrap()[0].name(), "second");
    assert_eq!(node.size(), 2);
}

#[test]
fn assembly_too_large_for_64_bits_gives_no_node() {
    let mut assembly = Assembly::new(2);
    assert!(assembly.place(0, file("a", u64::MAX)));
    assert!(assembly.place(1, file("b", 1)));
    assert_eq!(assembly.finish(String::from("dir")).err(), Some(AssemblyError::TooLarge));
}

#[test]
fn failed_listing_of_a_subdirectory_is_an_empty_entry() {
    let mut assembly = Assembly::new(2);
    assert!(assembly.place(0, file("a", 10)));
    assert!(assembly.place(1, TreeNode::unreadable_directory(String::from("locked"))));
    let node = assembly.finish(String::from("dir")).unwrap();
    assert_eq!(node.size(), 10);
    let locked = &node.children().unwrap()[1];
    assert!(locked.is_directory());
    assert_eq!(locked.size(), 0);
    assert_eq!(locked.children().unwrap().len(), 0);
}
