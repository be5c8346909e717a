use docparse_core::blocks::{Block, BlockId, LabelSource};
use docparse_core::fusion::edges::{EdgeSource, OrderEdge, OrderPolicy};
use docparse_core::fusion::model_edges::model_region_index;
use docparse_core::fusion::order::{OrderGraph, OrderNode, OrderResolution};
use docparse_core::fusion::reading::order_blocks;
use docparse_core::fusion::region::RegionPath;
use docparse_core::geometry::Bbox;
use docparse_core::label_policy::LabelPolicy;
use docparse_core::layout::LayoutLabel;

fn pt(length: f64) -> i32 {
    (length * 10_000.0).round() as i32
}

fn bbox(value: [f64; 4]) -> Bbox {
    Bbox::new(pt(value[0]), pt(value[1]), pt(value[2]), pt(value[3]))
        .expect("test bbox must be valid")
}

/// One stable order node at a vertical position.
fn node(index: u32, top: f64) -> OrderNode {
    OrderNode {
        block_id: BlockId::model(1, index, 0),
        bbox: bbox([10.0, top, 90.0, top + 10.0]),
        xy_path: None,
        source_priority: 0,
    }
}

/// One explicit graph edge; the confidence is in millionths.
fn edge(from: u32, to: u32, source: EdgeSource, confidence: u32) -> OrderEdge {
    let from = BlockId::model(1, from, 0);
    let to = BlockId::model(1, to, 0);
    let stable_key = format!("{}>{}:{}", from.as_str(), to.as_str(), source.rank());
    OrderEdge {
        from,
        to,
        source,
        reason: "test".to_owned(),
        source_confidence: Some(confidence),
        preservation_weight: OrderPolicy::weight(source, Some(confidence)),
        stable_key,
    }
}

/// One vertically stacked fallback block.
fn block(index: u32) -> Block {
    let top = f64::from(index) * 12.0;
    let mut made = Block::new(
        BlockId::fallback(1, &RegionPath::root().horizontal_child(index), 0),
        LayoutLabel::Text,
        LabelSource::Fallback,
        bbox([10.0, top, 90.0, top + 10.0]),
    );
    made.final_order = index;
    made
}

fn ids(resolution: &OrderResolution) -> Vec<&str> {
    resolution.ordered_ids.iter().map(BlockId::as_str).collect()
}

fn removed(resolution: &OrderResolution) -> Vec<(&str, &str)> {
    resolution
        .removed_edges
        .iter()
        .map(|edge| (edge.from.as_str(), edge.to.as_str()))
        .collect()
}

/// Stable topology honors explicit single-column constraints.
#[test]
fn simple_graph_resolves_in_edge_order() {
    let mut graph = OrderGraph::default();
    graph.insert_node(node(2, 30.0));
    graph.insert_node(node(0, 10.0));
    graph.insert_node(node(1, 20.0));
    graph.insert_edge(edge(0, 1, EdgeSource::StrongVertical, 1_000_000));
    graph.insert_edge(edge(1, 2, EdgeSource::StrongVertical, 1_000_000));
    let resolution = graph.resolve().expect("acyclic graph must resolve");
    assert_eq!(ids(&resolution), vec!["p1:b:m0:s0", "p1:b:m1:s0", "p1:b:m2:s0"]);
    assert!(resolution.removed_edges.is_empty());
}

/// A low-confidence model edge is removed before geometric evidence.
#[test]
fn cycle_removes_low_weight_model_edge() {
    let mut graph = OrderGraph::default();
    graph.insert_node(node(0, 10.0));
    graph.insert_node(node(1, 20.0));
    graph.insert_node(node(2, 30.0));
    graph.insert_edge(edge(0, 1, EdgeSource::StrongVertical, 1_000_000));
    graph.insert_edge(edge(1, 2, EdgeSource::XyCut, 1_000_000));
    graph.insert_edge(edge(2, 0, EdgeSource::Model, 200_000));
    let resolution = graph.resolve().expect("removable cycle must resolve");
    assert_eq!(resolution.removed_edges.len(), 1);
    assert_eq!(resolution.removed_edges[0].source, EdgeSource::Model);
    assert_eq!(resolution.removed_edges[0].from.as_str(), "p1:b:m2:s0");
}

/// Equally weighted removable edges use source priority, then stable key.
#[test]
fn equal_weight_cycle_uses_stable_source_tie_break() {
    let mut graph = OrderGraph::default();
    graph.insert_node(node(0, 10.0));
    graph.insert_node(node(1, 20.0));
    graph.insert_node(node(2, 30.0));
    graph.insert_edge(edge(0, 1, EdgeSource::CaptionRelation, 1_000_000));
    graph.insert_edge(edge(1, 2, EdgeSource::CaptionRelation, 1_000_000));
    graph.insert_edge(edge(2, 0, EdgeSource::CaptionRelation, 1_000_000));
    let resolution = graph.resolve().expect("removable cycle must resolve");
    assert_eq!(resolution.removed_edges.len(), 1);
    assert_eq!(resolution.removed_edges[0].from.as_str(), "p1:b:m0:s0");
}

/// Overlapping cycles lose their weakest edge one at a time.
#[test]
fn overlapping_cycles_remove_one_stable_edge_per_iteration() {
    let mut graph = OrderGraph::default();
    for index in 0..3 {
        graph.insert_node(node(index, 10.0 + f64::from(index) * 10.0));
    }
    graph.insert_edge(edge(0, 1, EdgeSource::CaptionRelation, 1_000_000));
    graph.insert_edge(edge(1, 0, EdgeSource::Model, 200_000));
    graph.insert_edge(edge(1, 2, EdgeSource::CaptionRelation, 1_000_000));
    graph.insert_edge(edge(2, 1, EdgeSource::Model, 300_000));
    let resolution = graph.resolve().expect("overlapping cycles must resolve");
    assert_eq!(
        removed(&resolution),
        vec![("p1:b:m1:s0", "p1:b:m0:s0"), ("p1:b:m2:s0", "p1:b:m1:s0")]
    );
    assert_eq!(ids(&resolution), vec!["p1:b:m0:s0", "p1:b:m1:s0", "p1:b:m2:s0"]);
}

/// Independent cycles lose candidates in a stable order.
#[test]
fn independent_cycles_resolve_in_stable_component_order() {
    let mut graph = OrderGraph::default();
    for index in 0..4 {
        graph.insert_node(node(index, 10.0 + f64::from(index) * 10.0));
    }
    graph.insert_edge(edge(0, 1, EdgeSource::CaptionRelation, 1_000_000));
    graph.insert_edge(edge(1, 0, EdgeSource::Model, 200_000));
    graph.insert_edge(edge(2, 3, EdgeSource::CaptionRelation, 1_000_000));
    graph.insert_edge(edge(3, 2, EdgeSource::BandHorizontal, 1_000_000));
    let resolution = graph.resolve().expect("independent cycles must resolve");
    assert_eq!(
        removed(&resolution),
        vec![("p1:b:m1:s0", "p1:b:m0:s0"), ("p1:b:m3:s0", "p1:b:m2:s0")]
    );
}

/// Contradictory strong-only constraints are a conflict.
#[test]
fn strong_only_cycle_is_an_error() {
    let mut graph = OrderGraph::default();
    graph.insert_node(node(0, 10.0));
    graph.insert_node(node(1, 20.0));
    graph.insert_edge(edge(0, 1, EdgeSource::StrongVertical, 1_000_000));
    graph.insert_edge(edge(1, 0, EdgeSource::IntraRegion, 1_000_000));
    let _error = graph.resolve().expect_err("strong-only cycle must fail");
}

/// An edge to a block that is not there is refused.
#[test]
fn unknown_blocks_are_refused() {
    let mut graph = OrderGraph::default();
    graph.insert_node(node(0, 10.0));
    graph.insert_edge(edge(0, 7, EdgeSource::Model, 1_000_000));
    let error = graph.resolve().expect_err("the target is unknown");
    assert!(error.message().contains("p1:b:m7:s0"));
}

/// Ties fall back to geometry and stable identity.
#[test]
fn unconstrained_nodes_use_stable_geometry_order() {
    let mut graph = OrderGraph::default();
    graph.insert_node(node(2, 30.0));
    graph.insert_node(node(1, 10.0));
    graph.insert_node(node(0, 10.0));
    let resolution = graph.resolve().expect("empty-edge graph must resolve");
    assert_eq!(ids(&resolution), vec!["p1:b:m0:s0", "p1:b:m1:s0", "p1:b:m2:s0"]);
}

/// Geometry construction stays linear instead of connecting every pair.
#[test]
fn geometry_edges_are_linear_in_block_count() {
    let blocks: Vec<_> = (0..200).map(block).collect();
    let graph = OrderGraph::from_blocks(&blocks);
    assert!(graph.edges.len() < blocks.len() * 4);
    assert_eq!(
        graph
            .resolve()
            .expect("stacked blocks must resolve")
            .ordered_ids
            .len(),
        blocks.len()
    );
}

/// A tall aside margin cannot precede the main document title.
#[test]
fn rotated_margin_follows_main_flow() {
    let mut margin = block(0);
    margin.id = BlockId::model(1, 0, 0);
    margin.label = LayoutLabel::AsideText;
    margin.label_source = LabelSource::Model;
    margin.model_region_id = Some("p1:m0".to_owned());
    margin.model_order = Some(0);
    margin.bbox = bbox([5.0, 100.0, 20.0, 700.0]);
    let mut title = block(1);
    title.id = BlockId::model(1, 1, 0);
    title.label = LayoutLabel::DocTitle;
    title.label_source = LabelSource::Model;
    title.model_region_id = Some("p1:m1".to_owned());
    title.model_order = Some(1);
    title.bbox = bbox([80.0, 40.0, 520.0, 80.0]);
    let ordered = order_blocks(vec![margin, title]).expect("margin ordering must resolve");
    assert!(matches!(ordered.blocks[0].label, LayoutLabel::DocTitle));
    assert!(matches!(ordered.blocks[1].label, LayoutLabel::AsideText));
    assert_eq!(ordered.blocks[0].final_order, 0);
    assert_eq!(ordered.blocks[1].final_order, 1);
}

#[test]
fn region_identities_give_their_index() {
    assert_eq!(model_region_index("p1:m12"), 12);
}

/// Every fixed model label maps to its policy.
#[test]
fn fixed_labels_map_to_complete_policy_table() {
    let cases = [
        (LayoutLabel::Abstract, LabelPolicy::FlowText),
        (LayoutLabel::Algorithm, LabelPolicy::Algorithm),
        (LayoutLabel::AsideText, LabelPolicy::FlowText),
        (LayoutLabel::Chart, LabelPolicy::Atomic),
        (LayoutLabel::Content, LabelPolicy::FlowText),
        (LayoutLabel::DisplayFormula, LabelPolicy::Formula),
        (LayoutLabel::DocTitle, LabelPolicy::Title),
        (LayoutLabel::FigureTitle, LabelPolicy::Title),
        (LayoutLabel::Footer, LabelPolicy::Chrome),
        (LayoutLabel::FooterImage, LabelPolicy::Atomic),
        (LayoutLabel::Footnote, LabelPolicy::FlowText),
        (LayoutLabel::FormulaNumber, LabelPolicy::Formula),
        (LayoutLabel::Header, LabelPolicy::Chrome),
        (LayoutLabel::HeaderImage, LabelPolicy::Atomic),
        (LayoutLabel::Image, LabelPolicy::Atomic),
        (LayoutLabel::InlineFormula, LabelPolicy::Formula),
        (LayoutLabel::Number, LabelPolicy::Chrome),
        (LayoutLabel::ParagraphTitle, LabelPolicy::Title),
        (LayoutLabel::Reference, LabelPolicy::VisualOnly),
        (LayoutLabel::ReferenceContent, LabelPolicy::FlowText),
        (LayoutLabel::Seal, LabelPolicy::Atomic),
        (LayoutLabel::Table, LabelPolicy::Structured),
        (LayoutLabel::Text, LabelPolicy::FlowText),
        (LayoutLabel::VerticalText, LabelPolicy::FlowText),
        (LayoutLabel::VisionFootnote, LabelPolicy::FlowText),
    ];
    for (label, expected) in cases {
        assert_eq!(LabelPolicy::of(&label), expected);
    }
    assert_eq!(
        LabelPolicy::of(&LayoutLabel::Unknown("future".to_owned())),
        LabelPolicy::Unknown
    );
}

/// What is resolved depends neither on the order of nodes nor on that of constraints.
#[test]
fn resolution_does_not_depend_on_insertion_order() {
    let tops = [10.0, 20.0, 30.0, 40.0];
    let links = [
        (0, 1, EdgeSource::StrongVertical, 1_000_000),
        (1, 2, EdgeSource::XyCut, 1_000_000),
        (2, 0, EdgeSource::Model, 200_000),
        (3, 1, EdgeSource::CaptionRelation, 1_000_000),
    ];
    let resolve = |turn: usize, backwards: bool| {
        let mut nodes: Vec<usize> = (0..tops.len()).collect();
        let mut edges: Vec<usize> = (0..links.len()).collect();
        nodes.rotate_left(turn);
        edges.rotate_right(turn);
        if backwards {
            nodes.reverse();
            edges.reverse();
        }
        let mut graph = OrderGraph::default();
        for index in nodes {
            graph.insert_node(node(index as u32, tops[index]));
        }
        for index in edges {
            let (from, to, source, confidence) = links[index];
            graph.insert_edge(edge(from, to, source, confidence));
            graph.insert_edge(edge(from, to, source, confidence));
        }
        graph.resolve().expect("removable cycle must resolve")
    };
    let first = format!("{:?}", resolve(0, false));
    for turn in 0..tops.len() {
        assert_eq!(first, format!("{:?}", resolve(turn, false)));
        assert_eq!(first, format!("{:?}", resolve(turn, true)));
    }
}

/// Constraints without a cycle are all kept, the weakest among them too.
#[test]
fn acyclic_constraints_are_kept() {
    let mut graph = OrderGraph::default();
    for index in 0..3 {
        graph.insert_node(node(index, 10.0 + f64::from(index) * 10.0));
    }
    graph.insert_edge(edge(2, 1, EdgeSource::Model, 1));
    graph.insert_edge(edge(1, 0, EdgeSource::Model, 1));
    graph.insert_edge(edge(2, 0, EdgeSource::CaptionRelation, 1_000_000));
    let resolution = graph.resolve().expect("acyclic graph must resolve");
    assert_eq!(ids(&resolution), vec!["p1:b:m2:s0", "p1:b:m1:s0", "p1:b:m0:s0"]);
    assert!(resolution.removed_edges.is_empty());
}

/// Of the nodes that could come next, the first by place comes, and a constraint holds one back.
#[test]
fn first_ready_nodes_come_first() {
    let mut graph = OrderGraph::default();
    for (index, top) in [(0, 40.0), (1, 10.0), (2, 30.0), (3, 20.0)] {
        graph.insert_node(node(index, top));
    }
    graph.insert_edge(edge(0, 1, EdgeSource::StrongVertical, 1_000_000));
    let resolution = graph.resolve().expect("acyclic graph must resolve");
    assert_eq!(
        ids(&resolution),
        vec!["p1:b:m3:s0", "p1:b:m2:s0", "p1:b:m0:s0", "p1:b:m1:s0"]
    );
}
