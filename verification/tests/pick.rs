use disk_pie::color::ColorCounter;
use disk_pie::geometry::{ring_radius_at, FULL_TURN, OUTER_RADIUS, PIXEL, RADIUS_ONE};
use disk_pie::layout::{layout, CullBounds};
use disk_pie::pick::{find_entry, locate, Owner};
use disk_pie::tree::TreeNode;

fn file(name: &str, size: u64) -> TreeNode {
    TreeNode::file(String::from(name), size)
}

fn directory(name: &str, children: Vec<TreeNode>) -> TreeNode {
    TreeNode::directory(String::from(name), children).unwrap()
}

// root { A { a1: 30, a2: 30 }, B: 40 }
fn sample() -> TreeNode {
    let a = directory("A", vec![file("a1", 30), file("a2", 30)]);
    directory("root", vec![a, file("B", 40)])
}

const SPLIT: u64 = 16191645245;
const HALF_SPLIT: u64 = 8095822622;

#[test]
fn point_within_the_ring_of_the_node_gives_the_empty_path() {
    let tree = sample();
    assert_eq!(locate(&tree, 100, 0, 1, 0, FULL_TURN), Vec::<usize>::new());
    assert_eq!(locate(&tree, 100, RADIUS_ONE - 1, 1, 0, FULL_TURN), Vec::<usize>::new());
}

#[test]
fn point_on_an_entry_gives_its_index() {
    let tree = sample();
    let ring2 = ring_radius_at(2);
    assert_eq!(locate(&tree, 100, RADIUS_ONE, 1, 0, FULL_TURN), vec![0]);
    assert_eq!(locate(&tree, SPLIT - 1, ring2 - 1, 1, 0, FULL_TURN), vec![0]);
    assert_eq!(locate(&tree, SPLIT, RADIUS_ONE, 1, 0, FULL_TURN), vec![1]);
    assert_eq!(locate(&tree, FULL_TURN - 1, OUTER_RADIUS - 1, 1, 0, FULL_TURN), vec![1]);
}

#[test]
fn path_runs_from_the_node_down() {
    let tree = sample();
    let ring2 = ring_radius_at(2);
    assert_eq!(locate(&tree, 100, ring2, 1, 0, FULL_TURN), vec![0, 0]);
    assert_eq!(locate(&tree, HALF_SPLIT, ring2, 1, 0, FULL_TURN), vec![0, 1]);
    assert_eq!(locate(&tree, SPLIT - 1, OUTER_RADIUS, 1, 0, FULL_TURN), vec![0, 1]);
}

#[test]
fn file_has_nothing_below_it() {
    let leaf = file("f", 10);
    assert_eq!(locate(&leaf, 5, 0, 1, 0, FULL_TURN), Vec::<usize>::new());
    assert_eq!(locate(&leaf, 5, OUTER_RADIUS, 1, 0, FULL_TURN), Vec::<usize>::new());
    assert_eq!(locate(&leaf, 5, u64::MAX, 1, 0, FULL_TURN), Vec::<usize>::new());
}

#[test]
fn directory_of_no_bytes_has_nothing_to_find() {
    let empty = directory("root", vec![file("a", 0), file("b", 0)]);
    assert_eq!(locate(&empty, 5, OUTER_RADIUS, 1, 0, FULL_TURN), Vec::<usize>::new());
    assert_eq!(find_entry(&empty, 0, FULL_TURN, 5), None);
}

#[test]
fn angle_beyond_the_span_belongs_to_no_entry() {
    let tree = sample();
    assert_eq!(find_entry(&tree, 0, FULL_TURN, FULL_TURN), None);
    assert_eq!(locate(&tree, FULL_TURN, OUTER_RADIUS, 1, 0, FULL_TURN), Vec::<usize>::new());
}

#[test]
fn owner_of_an_angle_has_the_angles_of_the_layout() {
    let tree = sample();
    assert_eq!(
        find_entry(&tree, 0, FULL_TURN, 0),
        Some(Owner { index: 0, start: 0, end: SPLIT })
    );
    assert_eq!(
        find_entry(&tree, 0, FULL_TURN, SPLIT),
        Some(Owner { index: 1, start: SPLIT, end: FULL_TURN })
    );
}

#[test]
fn entries_of_no_bytes_own_no_angle() {
    let tree = directory("root", vec![file("n", 0), file("a", 60), file("m", 0), file("b", 40)]);
    assert_eq!(find_entry(&tree, 0, 100, 0), Some(Owner { index: 1, start: 0, end: 60 }));
    assert_eq!(find_entry(&tree, 0, 100, 59), Some(Owner { index: 1, start: 0, end: 60 }));
    assert_eq!(find_entry(&tree, 0, 100, 60), Some(Owner { index: 3, start: 60, end: 100 }));
}

#[test]
fn search_goes_below_a_merged_arc() {
    // At this scale three angle units are just worth a pixel, so that
    // "inner" and "b" are drawn as one arc; the search still tells them apart.
    let inner = directory("inner", vec![file("x", 1)]);
    let root = directory("root", vec![inner, file("b", 2), file("c", 996), file("d", 1)]);
    let ring2 = ring_radius_at(2);
    assert_eq!(locate(&root, 0, RADIUS_ONE, 1, 0, 1000), vec![0]);
    assert_eq!(locate(&root, 0, ring2, 1, 0, 1000), vec![0, 0]);
    assert_eq!(locate(&root, 1, RADIUS_ONE, 1, 0, 1000), vec![1]);
    assert_eq!(locate(&root, 2, RADIUS_ONE, 1, 0, 1000), vec![1]);
}

#[test]
fn search_finds_every_arc_of_a_layout() {
    let tree = sample();
    let mut colors = ColorCounter::new();
    let arcs = layout(
        &tree,
        1,
        0,
        FULL_TURN,
        true,
        100 * PIXEL,
        &CullBounds::everything(),
        &mut colors,
    );
    let paths: Vec<Vec<usize>> = vec![vec![0, 0], vec![0, 1], vec![0], vec![1], vec![]];
    assert_eq!(arcs.len(), paths.len());
    for (arc, path) in arcs.iter().zip(paths.iter()) {
        assert!(!arc.merged);
        let angles = [arc.start, arc.start + (arc.end - arc.start) / 2, arc.end - 1];
        let radii = [arc.inner, arc.inner + (arc.outer - arc.inner) / 2, arc.outer - 1];
        for angle in angles {
            for radius in radii {
                assert_eq!(&locate(&tree, angle, radius, 1, 0, FULL_TURN), path);
            }
        }
    }
}

#[test]
fn search_in_a_part_of_the_turn() {
    let tree = sample();
    let start = 1000;
    let end = 2000;
    assert_eq!(locate(&tree, 1599, RADIUS_ONE, 1, start, end), vec![0]);
    assert_eq!(locate(&tree, 1600, RADIUS_ONE, 1, start, end), vec![1]);
    assert_eq!(locate(&tree, 1299, OUTER_RADIUS, 1, start, end), vec![0, 0]);
    assert_eq!(locate(&tree, 1300, OUTER_RADIUS, 1, start, end), vec![0, 1]);
}
