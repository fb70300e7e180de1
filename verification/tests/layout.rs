use disk_pie::color::{next_color_count, ColorCounter};
use disk_pie::geometry::{ring_radius_at, FULL_TURN, OUTER_RADIUS, PIXEL, RADIUS_ONE};
use disk_pie::layout::{layout, layout_into, CullBounds, DrawArc};
use disk_pie::tree::TreeNode;

fn file(name: &str, size: u64) -> TreeNode {
    TreeNode::file(String::from(name), size)
}

fn directory(name: &str, children: Vec<TreeNode>) -> TreeNode {
    TreeNode::directory(String::from(name), children).unwrap()
}

// root { A { a1: 30, a2: 30 }, B: 40 }
fn sample() -> TreeNode {
    let a = directory("A", vec![file("a1", 30), file("a2", 30)]);
    directory("root", vec![a, file("B", 40)])
}

const SPLIT: u64 = 16191645245;
const HALF_SPLIT: u64 = 8095822622;
const SCALE: u64 = 100 * PIXEL;

fn arc(
    start: u64,
    end: u64,
    inner: u64,
    outer: u64,
    depth: u32,
    directory: bool,
    merged: bool,
    color: u64,
) -> DrawArc {
    DrawArc { start, end, inner, outer, depth, directory, merged, color }
}

fn whole_frame(tree: &TreeNode, scale: u64, cull: &CullBounds) -> Vec<DrawArc> {
    let mut colors = ColorCounter::new();
    layout(tree, 1, 0, FULL_TURN, true, scale, cull, &mut colors)
}

#[test]
fn entries_are_drawn_before_their_directory() {
    let arcs = whole_frame(&sample(), SCALE, &CullBounds::everything());
    let ring1 = RADIUS_ONE;
    let ring2 = ring_radius_at(2);
    assert_eq!(
        arcs,
        vec![
            arc(0, HALF_SPLIT, ring2, OUTER_RADIUS, 3, false, false, 0),
            arc(HALF_SPLIT, SPLIT, ring2, OUTER_RADIUS, 3, false, false, 1),
            arc(0, SPLIT, ring1, ring2, 2, true, false, 2),
            arc(SPLIT, FULL_TURN, ring1, OUTER_RADIUS, 2, false, false, 3),
            arc(0, FULL_TURN, 0, ring1, 1, true, false, 4),
        ]
    );
}

#[test]
fn same_inputs_give_the_same_arcs() {
    let tree = sample();
    let cull = CullBounds { max_radius: OUTER_RADIUS, min_angle: 5, max_angle: SPLIT + 5 };
    let first = whole_frame(&tree, SCALE, &cull);
    let second = whole_frame(&tree, SCALE, &cull);
    assert_eq!(first, second);
    assert!(!first.is_empty());
}

#[test]
fn colors_follow_drawing_order() {
    let tree = sample();
    let mut colors = ColorCounter::new();
    for _ in 0..7 {
        next_color_count(&mut colors);
    }
    let arcs = layout(&tree, 1, 0, FULL_TURN, true, SCALE, &CullBounds::everything(), &mut colors);
    for (k, arc) in arcs.iter().enumerate() {
        assert_eq!(arc.color, 7 + k as u64);
    }
    assert_eq!(colors.peek(), 7 + arcs.len() as u64);
}

#[test]
fn arcs_are_appended_to_those_given() {
    let tree = sample();
    let mut colors = ColorCounter::new();
    let marker = arc(1, 2, 3, 4, 5, false, true, 99);
    let mut arcs = vec![marker];
    layout_into(
        &tree,
        1,
        0,
        0,
        FULL_TURN,
        true,
        SCALE,
        &CullBounds::everything(),
        &mut colors,
        &mut arcs,
    );
    assert_eq!(arcs.len(), 6);
    assert_eq!(arcs[0], marker);
    assert_eq!(arcs[1..], whole_frame(&tree, SCALE, &CullBounds::everything())[..]);
}

#[test]
fn file_is_drawn_at_the_outer_radius() {
    let arcs = whole_frame(&file("f", 10), SCALE, &CullBounds::everything());
    assert_eq!(arcs, vec![arc(0, FULL_TURN, 0, OUTER_RADIUS, 1, false, false, 0)]);
}

#[test]
fn without_recursion_only_the_node_is_drawn() {
    let mut colors = ColorCounter::new();
    let arcs = layout(
        &sample(),
        1,
        0,
        FULL_TURN,
        false,
        SCALE,
        &CullBounds::everything(),
        &mut colors,
    );
    assert_eq!(arcs, vec![arc(0, FULL_TURN, 0, OUTER_RADIUS, 1, true, true, 0)]);
}

#[test]
fn directory_of_no_bytes_is_drawn_alone() {
    let empty = directory("root", vec![file("a", 0), directory("d", vec![])]);
    let arcs = whole_frame(&empty, SCALE, &CullBounds::everything());
    assert_eq!(arcs, vec![arc(0, FULL_TURN, 0, RADIUS_ONE, 1, true, false, 0)]);
}

#[test]
fn narrow_entries_are_drawn_as_one_merged_arc() {
    // At this scale three angle units are just worth a pixel.
    let scale = 18764998447378;
    let inner = directory("inner", vec![file("x", 1)]);
    let root = directory("root", vec![inner, file("b", 2), file("c", 996), file("d", 1)]);
    let mut colors = ColorCounter::new();
    let arcs = layout(&root, 1, 0, 1000, true, scale, &CullBounds::everything(), &mut colors);
    let ring1 = RADIUS_ONE;
    assert_eq!(
        arcs,
        vec![
            // "inner" stands for itself and "b"; its own entries are not drawn.
            arc(0, 3, ring1, OUTER_RADIUS, 2, true, true, 0),
            arc(3, 999, ring1, OUTER_RADIUS, 2, false, false, 1),
            arc(999, 1000, ring1, OUTER_RADIUS, 2, false, true, 2),
            arc(0, 1000, 0, ring1, 1, true, false, 3),
        ]
    );
}

#[test]
fn arcs_out_of_the_visible_angles_are_left_out() {
    let cull = CullBounds { max_radius: u64::MAX, min_angle: 0, max_angle: 1000 };
    let arcs = whole_frame(&sample(), SCALE, &cull);
    let ring1 = RADIUS_ONE;
    let ring2 = ring_radius_at(2);
    assert_eq!(
        arcs,
        vec![
            arc(0, HALF_SPLIT, ring2, OUTER_RADIUS, 3, false, false, 0),
            arc(0, SPLIT, ring1, ring2, 2, true, false, 1),
            arc(0, FULL_TURN, 0, ring1, 1, true, false, 2),
        ]
    );
}

#[test]
fn arc_that_touches_the_visible_angles_is_drawn() {
    let cull = CullBounds { max_radius: u64::MAX, min_angle: SPLIT, max_angle: SPLIT };
    let arcs = whole_frame(&sample(), SCALE, &cull);
    let spans: Vec<(u64, u64)> = arcs.iter().map(|a| (a.start, a.end)).collect();
    assert_eq!(
        spans,
        vec![(HALF_SPLIT, SPLIT), (0, SPLIT), (SPLIT, FULL_TURN), (0, FULL_TURN)]
    );
}

#[test]
fn visible_angles_may_pass_through_zero() {
    let cull = CullBounds { max_radius: u64::MAX, min_angle: 20_000_000_000, max_angle: 100 };
    let arcs = whole_frame(&sample(), SCALE, &cull);
    let spans: Vec<(u64, u64)> = arcs.iter().map(|a| (a.start, a.end)).collect();
    assert_eq!(
        spans,
        vec![(0, HALF_SPLIT), (0, SPLIT), (SPLIT, FULL_TURN), (0, FULL_TURN)]
    );
}

#[test]
fn node_out_of_the_visible_angles_gives_no_arcs() {
    let cull = CullBounds { max_radius: u64::MAX, min_angle: 10, max_angle: 20 };
    let mut colors = ColorCounter::new();
    let arcs = layout(&sample(), 1, 30, 40, true, SCALE, &cull, &mut colors);
    assert!(arcs.is_empty());
    assert_eq!(colors.peek(), 0);
}

#[test]
fn entries_beyond_the_visible_radius_are_not_drawn() {
    let ring2 = ring_radius_at(2);
    let cull = CullBounds { max_radius: ring2, min_angle: 0, max_angle: u64::MAX };
    let arcs = whole_frame(&sample(), SCALE, &cull);
    let ring1 = RADIUS_ONE;
    assert_eq!(
        arcs,
        vec![
            arc(0, SPLIT, ring1, ring2, 2, true, false, 0),
            arc(SPLIT, FULL_TURN, ring1, OUTER_RADIUS, 2, false, false, 1),
            arc(0, FULL_TURN, 0, ring1, 1, true, false, 2),
        ]
    );
    let nothing_inside = CullBounds { max_radius: RADIUS_ONE, min_angle: 0, max_angle: u64::MAX };
    let arcs = whole_frame(&sample(), SCALE, &nothing_inside);
    assert_eq!(arcs, vec![arc(0, FULL_TURN, 0, ring1, 1, true, false, 0)]);
}

#[test]
fn spans_of_one_level_add_up_to_the_span_of_the_parent() {
    let sizes = [3u64, 0, 17, 1, 1, 1, 250, 0, 2, 9, 40, 1, 1];
    let children: Vec<TreeNode> = sizes.iter().map(|s| file("f", *s)).collect();
    let root = directory("root", children);
    for scale in [1u64, PIXEL, 40 * PIXEL, 1000 * PIXEL] {
        let arcs = whole_frame(&root, scale, &CullBounds::everything());
        let level: Vec<&DrawArc> = arcs.iter().filter(|a| a.depth == 2).collect();
        let sum: u64 = level.iter().map(|a| a.end - a.start).sum();
        assert_eq!(sum, FULL_TURN);
        for pair in level.windows(2) {
            assert_eq!(pair[0].end, pair[1].start);
        }
    }
}

#[test]
fn deep_tree_stays_within_the_outer_radius() {
    let mut node = file("leaf", 1);
    for _ in 0..200 {
        node = directory("d", vec![node]);
    }
    let arcs = whole_frame(&node, SCALE, &CullBounds::everything());
    assert_eq!(arcs.len(), 201);
    for arc in &arcs {
        assert!(arc.inner <= arc.outer);
        assert!(arc.outer <= OUTER_RADIUS);
    }
}
