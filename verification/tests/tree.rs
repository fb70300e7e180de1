use disk_pie::tree::TreeNode;

fn file(name: &str, size: u64) -> TreeNode {
    TreeNode::file(String::from(name), size)
}

fn directory(name: &str, children: Vec<TreeNode>) -> TreeNode {
    TreeNode::directory(String::from(name), children).unwrap()
}

fn sizes_add_up(node: &TreeNode) -> bool {
    match node.children() {
        None => true,
        Some(children) => {
            let mut sum: u64 = 0;
            for child in children {
                if !sizes_add_up(child) {
                    return false;
                }
                sum += child.size();
            }
            sum == node.size()
        }
    }
}

#[test]
fn file_keeps_name_and_size() {
    let node = file("notes.txt", 1234);
    assert_eq!(node.name(), "notes.txt");
    assert_eq!(node.size(), 1234);
    assert!(!node.is_directory());
    assert!(node.children().is_none());
}

#[test]
fn directory_size_is_sum_of_children() {
    let node = directory("root", vec![file("a", 60), file("b", 40)]);
    assert_eq!(node.size(), 100);
    assert!(node.is_directory());
    assert_eq!(node.children().unwrap().len(), 2);
}

#[test]
fn directory_keeps_listing_order() {
    let node = directory("root", vec![file("z", 1), file("a", 3), file("m", 2)]);
    let names: Vec<&str> = node.children().unwrap().iter().map(|c| c.name().as_str()).collect();
    assert_eq!(names, vec!["z", "a", "m"]);
}

#[test]
fn sizes_add_up_at_every_level() {
    let inner = directory("inner", vec![file("x", 7), file("y", 0), file("z", 11)]);
    let empty = directory("empty", vec![]);
    let deep = directory("deep", vec![directory("deeper", vec![file("leaf", 5)])]);
    let root = directory("root", vec![inner, file("top", 100), empty, deep]);
    assert_eq!(root.size(), 7 + 11 + 100 + 5);
    assert!(sizes_add_up(&root));
}

#[test]
fn empty_directory_has_size_zero() {
    let node = directory("empty", vec![]);
    assert_eq!(node.size(), 0);
    assert_eq!(node.children().unwrap().len(), 0);
}

#[test]
fn unreadable_directory_is_empty_directory() {
    let node = TreeNode::unreadable_directory(String::from("locked"));
    assert!(node.is_directory());
    assert_eq!(node.size(), 0);
    assert_eq!(node.children().unwrap().len(), 0);
    assert_eq!(node.name(), "locked");
}

#[test]
fn unreadable_directory_does_not_disturb_siblings() {
    let locked = TreeNode::unreadable_directory(String::from("locked"));
    let root = directory("root", vec![file("a", 10), locked, file("b", 5)]);
    assert_eq!(root.size(), 15);
    assert_eq!(root.children().unwrap()[1].size(), 0);
}

#[test]
fn directory_whose_sizes_overflow_is_refused() {
    let children = vec![file("big", u64::MAX), file("one", 1)];
    assert!(TreeNode::directory(String::from("root"), children).is_none());
}

#[test]
fn directory_of_largest_size_is_made() {
    let children = vec![file("big", u64::MAX - 1), file("one", 1)];
    let node = TreeNode::directory(String::from("root"), children).unwrap();
    assert_eq!(node.size(), u64::MAX);
}

#[test]
fn resolve_follows_child_indices() {
    let inner = directory("inner", vec![file("x", 7), file("y", 9)]);
    let root = directory("root", vec![file("a", 1), inner]);
    assert_eq!(root.resolve(&vec![]).unwrap().name(), "root");
    assert_eq!(root.resolve(&vec![1]).unwrap().name(), "inner");
    assert_eq!(root.resolve(&vec![1, 1]).unwrap().name(), "y");
    assert_eq!(root.resolve(&vec![0]).unwrap().name(), "a");
}

#[test]
fn resolve_fails_where_path_leaves_tree() {
    let inner = directory("inner", vec![file("x", 7)]);
    let root = directory("root", vec![file("a", 1), inner]);
    assert!(root.resolve(&vec![2]).is_none());
    assert!(root.resolve(&vec![0, 0]).is_none());
    assert!(root.resolve(&vec![1, 1]).is_none());
}

#[test]
fn names_along_a_path() {
    let inner = directory("inner", vec![file("x", 7), file("y", 9)]);
    let root = directory("root", vec![file("a", 1), inner]);
    assert_eq!(root.names_along(&vec![]), vec!["root"]);
    assert_eq!(root.names_along(&vec![1]), vec!["root", "inner"]);
    assert_eq!(root.names_along(&vec![1, 0]), vec!["root", "inner", "x"]);
}

#[test]
fn names_end_where_the_path_leaves_the_tree() {
    let inner = directory("inner", vec![file("x", 7), file("y", 9)]);
    let root = directory("root", vec![file("a", 1), inner]);
    assert_eq!(root.names_along(&vec![0, 3]), vec!["root", "a"]);
    assert_eq!(root.names_along(&vec![1, 2, 0]), vec!["root", "inner"]);
    assert_eq!(root.names_along(&vec![5]), vec!["root"]);
}
