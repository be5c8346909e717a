use docparse_core::fusion::fallback::{xy_cut, RegionTree};
use docparse_core::fusion::region::CutAxis;
use docparse_core::geometry::Bbox;
use docparse_core::line::fragment::LineFragment;
use docparse_core::rope::Rope;
use docparse_core::types::{TextItem, TextItemId};

fn pt(length: f64) -> i32 {
    (length * 10_000.0).round() as i32
}

fn bbox(value: [f64; 4]) -> Bbox {
    Bbox::new(pt(value[0]), pt(value[1]), pt(value[2]), pt(value[3]))
        .expect("test bbox must be valid")
}

/// One single-item line fragment.
fn fragment(index: u32, bounds: [f64; 4]) -> LineFragment {
    LineFragment::from_items(
        vec![TextItem::new(
            TextItemId::native(1, index),
            Rope::new(format!("item-{index}")),
            bbox(bounds),
        )],
        pt(612.0),
    )
    .expect("fragment")
}

fn page() -> Bbox {
    bbox([0.0, 0.0, 612.0, 792.0])
}

/// Every leaf path paired with its stable text item identity.
fn leaf_assignments(tree: &RegionTree, fragments: &[LineFragment]) -> Vec<(String, String)> {
    let mut assignments = Vec::new();
    for leaf in tree.visit_leaves() {
        for index in &leaf.fragment_indices {
            assignments.push((
                fragments[*index].items[0].id.as_str().to_owned(),
                leaf.path.to_text(),
            ));
        }
    }
    assignments.sort();
    assignments
}

/// Tight single-column prose remains one leaf.
#[test]
fn single_column_returns_one_leaf() {
    let fragments: Vec<_> = (0..6)
        .map(|row| {
            let top = 50.0 + f64::from(row) * 14.0;
            fragment(row, [50.0, top, 450.0, top + 10.0])
        })
        .collect();
    let tree = xy_cut(&fragments, &Vec::new(), page());
    match &tree {
        RegionTree::Leaf { path, .. } => assert_eq!(path.to_text(), "r"),
        RegionTree::Split { .. } => panic!("one column must stay whole"),
    }
}

/// A clear two-column gutter creates left and right stable paths.
#[test]
fn two_columns_split_vertically() {
    let mut fragments = Vec::new();
    for row in 0..4 {
        let top = 100.0 + f64::from(row) * 14.0;
        fragments.push(fragment(row * 2, [50.0, top, 270.0, top + 10.0]));
        fragments.push(fragment(row * 2 + 1, [340.0, top, 560.0, top + 10.0]));
    }
    let tree = xy_cut(&fragments, &Vec::new(), page());
    assert!(matches!(tree, RegionTree::Split { axis: CutAxis::Vertical, .. }));
    let paths: Vec<_> = leaf_assignments(&tree, &fragments)
        .into_iter()
        .map(|(_, path)| path)
        .collect();
    assert!(paths.iter().any(|path| path == "r.v0"));
    assert!(paths.iter().any(|path| path == "r.v1"));
}

/// A full-width title is peeled before the body splits into columns.
#[test]
fn banner_precedes_two_column_body() {
    let mut fragments = vec![fragment(0, [80.0, 40.0, 532.0, 60.0])];
    for row in 0..4 {
        let top = 180.0 + f64::from(row) * 14.0;
        fragments.push(fragment(row * 2 + 1, [50.0, top, 270.0, top + 10.0]));
        fragments.push(fragment(row * 2 + 2, [340.0, top, 560.0, top + 10.0]));
    }
    let tree = xy_cut(&fragments, &Vec::new(), page());
    let assignments = leaf_assignments(&tree, &fragments);
    assert!(matches!(tree, RegionTree::Split { axis: CutAxis::Horizontal, .. }));
    assert_eq!(
        assignments
            .iter()
            .find(|(id, _)| id == "p1:t0")
            .map(|(_, path)| path.as_str()),
        Some("r.h0")
    );
    assert!(assignments.iter().any(|(_, path)| path.starts_with("r.h1.v")));
}

/// Obstacles prevent a vertical cut from crossing model geometry.
#[test]
fn obstacle_blocks_crossing_gutter_cut() {
    let fragments = vec![
        fragment(0, [50.0, 100.0, 270.0, 110.0]),
        fragment(1, [340.0, 100.0, 560.0, 110.0]),
        fragment(2, [50.0, 130.0, 270.0, 140.0]),
        fragment(3, [340.0, 130.0, 560.0, 140.0]),
    ];
    let tree = xy_cut(&fragments, &vec![bbox([250.0, 80.0, 360.0, 180.0])], page());
    assert!(matches!(tree, RegionTree::Leaf { .. }));
}

/// Input permutation cannot change item-to-path assignments.
#[test]
fn paths_are_stable_under_input_permutation() {
    let bounds = [
        [50.0, 100.0, 270.0, 110.0],
        [340.0, 100.0, 560.0, 110.0],
        [50.0, 130.0, 270.0, 140.0],
        [340.0, 130.0, 560.0, 140.0],
    ];
    let forward: Vec<_> = (0..4).map(|i| fragment(i, bounds[i as usize])).collect();
    let reverse: Vec<_> = (0..4).rev().map(|i| fragment(i, bounds[i as usize])).collect();
    let forward_tree = xy_cut(&forward, &Vec::new(), page());
    let reverse_tree = xy_cut(&reverse, &Vec::new(), page());
    assert_eq!(
        leaf_assignments(&forward_tree, &forward),
        leaf_assignments(&reverse_tree, &reverse)
    );
}

/// Every fragment is in exactly one leaf.
#[test]
fn leaves_hold_every_fragment_once() {
    let fragments = vec![
        fragment(0, [50.0, 100.0, 270.0, 110.0]),
        fragment(1, [340.0, 100.0, 560.0, 110.0]),
        fragment(2, [50.0, 130.0, 270.0, 140.0]),
        fragment(3, [340.0, 130.0, 560.0, 140.0]),
    ];
    let tree = xy_cut(&fragments, &Vec::new(), page());
    let mut held: Vec<usize> = tree
        .visit_leaves()
        .iter()
        .flat_map(|leaf| leaf.fragment_indices.clone())
        .collect();
    held.sort_unstable();
    assert_eq!(held, vec![0, 1, 2, 3]);
}
