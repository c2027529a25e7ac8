use spacemaxxer::draw::draw_plan;
use spacemaxxer::hash::hash_string;
use spacemaxxer::layout::{
    padding_for, plan_file_block, plan_island, plan_layout, Anchor, BlockPlan, LayoutPlan, Shape,
};
use spacemaxxer::order::{largest_first, order_largest_first};
use spacemaxxer::types::{Metadata, Node, NodeKind};
use std::path::PathBuf;
use std::time::SystemTime;

const MB: u64 = 1024 * 1024;
const DEFAULT_MIN_SIZE: u64 = 1024 * 10;

fn create_node(name: &str, size: u64, is_dir: bool, children: Vec<Node>) -> Node {
    Node {
        metadata: Metadata {
            name: name.to_string(),
            path: PathBuf::from(name),
            size,
            modified: Some(SystemTime::now()),
        },
        kind: if is_dir {
            NodeKind::Directory(children.into_iter().map(Box::new).collect())
        } else {
            NodeKind::File
        },
    }
}

/// Root -> island_A (100 MB: file_1, file_2 of 50 MB) and island_B (10 MB: file_3).
fn sample_root() -> Node {
    let file_1 = create_node("file_1.txt", 50 * MB, false, vec![]);
    let file_2 = create_node("file_2.txt", 50 * MB, false, vec![]);
    let island_a = create_node("island_A", 100 * MB, true, vec![file_1, file_2]);
    let file_3 = create_node("file_3.txt", 10 * MB, false, vec![]);
    let island_b = create_node("island_B", 10 * MB, true, vec![file_3]);
    create_node("root", 110 * MB, true, vec![island_a, island_b])
}

fn children(node: &Node) -> Vec<&Node> {
    match &node.kind {
        NodeKind::Directory(c) => c.iter().map(|b| &**b).collect(),
        NodeKind::File => Vec::new(),
    }
}

fn names(plan: &[BlockPlan]) -> Vec<&str> {
    plan.iter().map(|b| b.name.as_str()).collect()
}

#[test]
fn larger_island_is_placed_first() {
    let root = sample_root();
    let islands = children(&root);
    assert_eq!(largest_first(&islands, DEFAULT_MIN_SIZE), vec![0, 1]);
    let swapped = vec![islands[1], islands[0]];
    assert_eq!(largest_first(&swapped, DEFAULT_MIN_SIZE), vec![1, 0]);
}

#[test]
fn order_is_largest_first_and_stable() {
    assert_eq!(order_largest_first(&vec![5, 10, 10, 1, 7], 0), vec![1, 2, 4, 0, 3]);
    assert_eq!(order_largest_first(&vec![3, 3, 3], 0), vec![0, 1, 2]);
    assert_eq!(order_largest_first(&vec![1, 2, 3, 4], 0), vec![3, 2, 1, 0]);
}

#[test]
fn order_leaves_out_entries_below_the_threshold() {
    assert_eq!(order_largest_first(&vec![5, 10, 10, 1, 7], 5), vec![1, 2, 4, 0]);
    assert_eq!(order_largest_first(&vec![5, 10, 10, 1, 7], 11), Vec::<usize>::new());
    assert_eq!(order_largest_first(&Vec::new(), 0), Vec::<usize>::new());
}

#[test]
fn island_plan_stacks_files_on_their_folder() {
    let root = sample_root();
    let islands = children(&root);
    let plan = plan_island(islands[0], 0, DEFAULT_MIN_SIZE).expect("fits");
    assert_eq!(names(&plan), vec!["island_A", "file_1.txt", "file_2.txt"]);

    let platform = &plan[0];
    assert_eq!(platform.shape, Shape::Platform);
    assert_eq!(platform.anchor, Anchor::Given);
    assert!(platform.is_dir);
    assert_eq!(platform.layer, 0);
    assert_eq!(platform.size, 100 * MB);
    assert_eq!(platform.path, PathBuf::from("island_A"));

    for file in &plan[1..] {
        assert_eq!(file.shape, Shape::Tower);
        assert!(!file.is_dir);
        assert!(file.layer > platform.layer, "File should be stacked ON TOP of the folder platform");
        assert_eq!(file.layer, 1);
        assert_eq!(file.anchor, Anchor::Within { parent: 0, share: 50 * MB, total: 100 * MB });
    }
}

#[test]
fn island_blocks_are_coloured_by_name() {
    let root = sample_root();
    let islands = children(&root);
    let plan = plan_island(islands[1], 0, DEFAULT_MIN_SIZE).expect("fits");
    assert_eq!(names(&plan), vec!["island_B", "file_3.txt"]);
    for block in &plan {
        assert_eq!(block.color_hash, hash_string(&block.name));
    }
    assert_eq!(plan[1].anchor, Anchor::Within { parent: 0, share: 10 * MB, total: 10 * MB });
}

#[test]
fn nested_directories_stand_on_their_parent() {
    let deep = create_node("deep.bin", 30, false, vec![]);
    let sub = create_node("sub", 30, true, vec![deep]);
    let small = create_node("tiny", 1, false, vec![]);
    let top_file = create_node("top.bin", 10, false, vec![]);
    let top = create_node("top", 41, true, vec![sub, small, top_file]);
    let plan = plan_island(&top, 2, 5).expect("fits");
    assert_eq!(names(&plan), vec!["top", "sub", "deep.bin", "top.bin"]);
    let layers: Vec<u32> = plan.iter().map(|b| b.layer).collect();
    assert_eq!(layers, vec![2, 3, 4, 3]);
    assert_eq!(plan[1].shape, Shape::Platform);
    assert_eq!(plan[1].anchor, Anchor::Within { parent: 0, share: 30, total: 40 });
    assert_eq!(plan[2].anchor, Anchor::Within { parent: 1, share: 30, total: 30 });
    assert_eq!(plan[3].anchor, Anchor::Within { parent: 0, share: 10, total: 40 });
}

#[test]
fn entry_below_the_threshold_gets_no_block() {
    let small = create_node("small", 100, true, vec![]);
    assert!(plan_island(&small, 0, DEFAULT_MIN_SIZE).expect("fits").is_empty());
}

#[test]
fn file_island_is_a_platform_that_is_not_a_directory() {
    let file = create_node("big.iso", 20 * MB, false, vec![]);
    let plan = plan_island(&file, 0, DEFAULT_MIN_SIZE).expect("fits");
    assert_eq!(plan.len(), 1);
    assert_eq!(plan[0].shape, Shape::Platform);
    assert!(!plan[0].is_dir);
}

#[test]
fn folder_with_only_small_children_is_a_bare_platform() {
    let a = create_node("a", 10, false, vec![]);
    let b = create_node("b", 20, false, vec![]);
    let dir = create_node("d", 30 * MB, true, vec![a, b]);
    let plan = plan_island(&dir, 0, DEFAULT_MIN_SIZE).expect("fits");
    assert_eq!(names(&plan), vec!["d"]);
}

#[test]
fn zero_sized_children_with_no_threshold_give_a_bare_platform() {
    let a = create_node("a", 0, false, vec![]);
    let dir = create_node("d", 0, true, vec![a]);
    let plan = plan_island(&dir, 0, 0).expect("fits");
    assert_eq!(names(&plan), vec!["d"]);
}

#[test]
fn overflowing_children_total_is_refused() {
    let a = create_node("a", u64::MAX, false, vec![]);
    let b = create_node("b", 1, false, vec![]);
    let dir = create_node("d", u64::MAX, true, vec![a, b]);
    assert!(plan_island(&dir, 0, 0).is_none());
}

#[test]
fn top_layer_with_children_is_refused() {
    let a = create_node("a", 5, false, vec![]);
    let dir = create_node("d", 5, true, vec![a]);
    assert!(plan_island(&dir, u32::MAX, 0).is_none());
    let bare = create_node("e", 5, true, vec![]);
    assert_eq!(plan_island(&bare, u32::MAX, 0).expect("fits").len(), 1);
}

#[test]
fn lone_file_is_a_tower() {
    let file = create_node("solo.txt", 3, false, vec![]);
    let block = plan_file_block(&file, 0);
    assert_eq!(block.name, "solo.txt");
    assert_eq!(block.shape, Shape::Tower);
    assert_eq!(block.anchor, Anchor::Given);
    assert!(!block.is_dir);
    assert_eq!(block.layer, 0);
    assert_eq!(block.size, 3);
    assert_eq!(block.color_hash, hash_string("solo.txt"));
}

#[test]
fn padding_is_listed_per_layer_then_defaults() {
    let padding: Vec<f32> = vec![10.0, 5.0];
    assert_eq!(padding_for(&padding, 1.0, 0), 10.0);
    assert_eq!(padding_for(&padding, 1.0, 1), 5.0);
    assert_eq!(padding_for(&padding, 1.0, 2), 1.0);
    assert_eq!(padding_for(&Vec::<f32>::new(), 2.5, 0), 2.5);
}

#[test]
fn layout_of_a_directory_is_its_islands_largest_first() {
    let root = sample_root();
    match plan_layout(&root, DEFAULT_MIN_SIZE).expect("fits") {
        LayoutPlan::Islands(islands) => {
            let order: Vec<usize> = islands.iter().map(|(i, _)| *i).collect();
            assert_eq!(order, vec![0, 1], "Island B should come after Island A");
            assert_eq!(names(&islands[0].1), vec!["island_A", "file_1.txt", "file_2.txt"]);
            assert_eq!(names(&islands[1].1), vec!["island_B", "file_3.txt"]);
        }
        LayoutPlan::Lone(_) => panic!("a directory gives islands"),
    }
}

#[test]
fn layout_leaves_out_small_islands_and_puts_big_ones_first() {
    let small = create_node("small", 10, false, vec![]);
    let mid = create_node("mid", 20 * MB, false, vec![]);
    let big = create_node("big", 30 * MB, true, vec![]);
    let root = create_node("root", 50 * MB + 10, true, vec![small, mid, big]);
    match plan_layout(&root, DEFAULT_MIN_SIZE).expect("fits") {
        LayoutPlan::Islands(islands) => {
            let order: Vec<usize> = islands.iter().map(|(i, _)| *i).collect();
            assert_eq!(order, vec![2, 1]);
            assert_eq!(names(&islands[0].1), vec!["big"]);
            assert_eq!(names(&islands[1].1), vec!["mid"]);
        }
        LayoutPlan::Lone(_) => panic!("a directory gives islands"),
    }
}

#[test]
fn layout_of_a_file_is_one_tower() {
    let file = create_node("big.iso", 20 * MB, false, vec![]);
    match plan_layout(&file, DEFAULT_MIN_SIZE).expect("fits") {
        LayoutPlan::Lone(Some(tower)) => {
            assert_eq!(tower.name, "big.iso");
            assert_eq!(tower.shape, Shape::Tower);
            assert_eq!(tower.anchor, Anchor::Given);
            assert_eq!(tower.layer, 0);
            assert_eq!(tower.size, 20 * MB);
        }
        _ => panic!("a file gives one tower"),
    }
}

#[test]
fn layout_of_an_empty_file_is_empty() {
    let empty = create_node("empty.txt", 0, false, vec![]);
    assert!(matches!(plan_layout(&empty, DEFAULT_MIN_SIZE).expect("fits"), LayoutPlan::Lone(None)));
    assert!(matches!(plan_layout(&empty, 0).expect("fits"), LayoutPlan::Lone(None)));
}

#[test]
fn layout_of_a_small_file_is_still_one_tower() {
    let small = create_node("tiny.txt", 1, false, vec![]);
    match plan_layout(&small, DEFAULT_MIN_SIZE).expect("fits") {
        LayoutPlan::Lone(Some(tower)) => {
            assert_eq!(tower.name, "tiny.txt");
            assert_eq!(tower.size, 1);
            assert_eq!(tower.shape, Shape::Tower);
        }
        _ => panic!("a non-empty file gives one tower"),
    }
    let below = create_node("below.txt", DEFAULT_MIN_SIZE - 1, false, vec![]);
    assert!(matches!(plan_layout(&below, DEFAULT_MIN_SIZE).expect("fits"), LayoutPlan::Lone(Some(_))));
}

#[test]
fn layout_with_an_overflowing_island_is_refused() {
    let a = create_node("a", u64::MAX, false, vec![]);
    let b = create_node("b", 1, false, vec![]);
    let dir = create_node("d", u64::MAX, true, vec![a, b]);
    let root = create_node("root", u64::MAX, true, vec![dir]);
    assert!(plan_layout(&root, 0).is_none());
}

#[test]
fn drawing_lists_each_directory_then_its_children_largest_first() {
    let a = create_node("a.txt", 5, false, vec![]);
    let b = create_node("b.txt", 9, false, vec![]);
    let c = create_node("c.txt", 5, false, vec![]);
    let sub = create_node("sub", 14, true, vec![a, b]);
    let empty = create_node("empty", 0, true, vec![]);
    let root = create_node("root", 19, true, vec![c, sub, empty]);
    let plan = draw_plan(&root).expect("fits");

    let names: Vec<&str> = plan.iter().map(|s| s.name.as_str()).collect();
    assert_eq!(names, vec!["root", "sub", "b.txt", "a.txt", "c.txt", "empty"]);
    let depths: Vec<usize> = plan.iter().map(|s| s.depth).collect();
    assert_eq!(depths, vec![0, 1, 2, 2, 1, 1]);
    let parents: Vec<Option<usize>> = plan.iter().map(|s| s.parent).collect();
    assert_eq!(parents, vec![None, Some(0), Some(1), Some(1), Some(0), Some(0)]);
    let ranks: Vec<usize> = plan.iter().map(|s| s.rank).collect();
    assert_eq!(ranks, vec![0, 0, 0, 1, 1, 2]);
    assert_eq!(plan[0].child_weights, vec![14, 5, 0]);
    assert_eq!(plan[1].child_weights, vec![9, 5]);
    assert!(plan[5].is_dir && plan[5].child_weights.is_empty());
    assert!(!plan[2].is_dir);
    for step in &plan[1..] {
        let parent = &plan[step.parent.unwrap()];
        assert_eq!(parent.child_weights[step.rank], step.size);
    }
}

#[test]
fn drawing_of_a_lone_file_is_one_step() {
    let file = create_node("solo.txt", 0, false, vec![]);
    let plan = draw_plan(&file).expect("fits");
    assert_eq!(plan.len(), 1);
    assert_eq!(plan[0].parent, None);
    assert!(!plan[0].is_dir);
}
