use coopsched::fswalk::{
    epoch_timestamp, find_entry, walk, DirEntry, DirNode, DirTree,
};

fn entry(name: &str, is_dir: bool, subdir: usize) -> DirEntry {
    DirEntry { name: name.to_string(), is_dir, subdir }
}

fn sample_tree() -> DirTree {
    // /A/{x.txt, B/{y.txt}} — the root holds directory A; A holds the file
    // x.txt and directory B; B holds the file y.txt.
    DirTree {
        dirs: vec![
            DirNode { entries: vec![entry("A", true, 1)] },
            DirNode { entries: vec![entry("x.txt", false, 0), entry("B", true, 2)] },
            DirNode { entries: vec![entry("y.txt", false, 0)] },
        ],
    }
}

#[test]
fn traversal_is_depth_first_in_place() {
    // Visits A, then A's contents with B expanded in place: A, x.txt, B,
    // y.txt.
    let visits = walk(&sample_tree());
    let names: Vec<&str> = visits.iter().map(|v| v.name.as_str()).collect();
    assert_eq!(names, vec!["A", "x.txt", "B", "y.txt"]);
    assert!(visits[0].is_dir);
    assert!(!visits[1].is_dir);
    assert!(visits[2].is_dir);
    assert!(!visits[3].is_dir);
}

#[test]
fn traversal_keeps_on_disk_order_between_siblings() {
    let tree = DirTree {
        dirs: vec![
            DirNode {
                entries: vec![
                    entry("z.txt", false, 0),
                    entry("D", true, 1),
                    entry("a.txt", false, 0),
                ],
            },
            DirNode { entries: vec![entry("inner.txt", false, 0)] },
        ],
    };
    let visits = walk(&tree);
    let names: Vec<&str> = visits.iter().map(|v| v.name.as_str()).collect();
    // No sorting: on-disk order kept, subdirectory expanded where it stands.
    assert_eq!(names, vec!["z.txt", "D", "inner.txt", "a.txt"]);
}

#[test]
fn empty_root_yields_no_visits() {
    let tree = DirTree { dirs: vec![DirNode { entries: vec![] }] };
    let visits = walk(&tree);
    assert_eq!(visits.len(), 0);
}

#[test]
fn find_entry_reports_first_match_by_name() {
    let tree = sample_tree();
    // In directory A (node 1): x.txt is at position 0, B at position 1.
    assert_eq!(find_entry(&tree, 1, &"x.txt".to_string()), Some(0));
    assert_eq!(find_entry(&tree, 1, &"B".to_string()), Some(1));
    assert_eq!(find_entry(&tree, 1, &"missing.flac".to_string()), None);
    assert_eq!(find_entry(&tree, 2, &"y.txt".to_string()), Some(0));
}

#[test]
fn epoch_timestamp_is_all_zero() {
    let t = epoch_timestamp();
    assert_eq!(t.year_since_1970, 0);
    assert_eq!(t.zero_indexed_month, 0);
    assert_eq!(t.zero_indexed_day, 0);
    assert_eq!(t.hours, 0);
    assert_eq!(t.minutes, 0);
    assert_eq!(t.seconds, 0);
}
