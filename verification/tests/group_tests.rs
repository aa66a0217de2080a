use edifact_rs::{group_segments_indexed, Descendants, Element, GroupDef, Segment};

fn seg(tag: &str) -> Segment {
    Segment::new(tag, vec![Element::of(&["x"])])
}

fn segs_of(tags: &[&str]) -> Vec<Segment> {
    tags.iter().map(|t| seg(t)).collect()
}

#[test]
fn a_nested_group_wins_over_an_ancestors_sibling_with_the_same_trigger() {
    let sg12 = [GroupDef::new("SG12", "NAD")];
    let schema = [GroupDef::new("SG2", "NAD"), GroupDef::with_children("SG4", "IDE", &sg12)];
    let segs = segs_of(&["UNH", "BGM", "NAD", "NAD", "IDE", "NAD", "DTM", "NAD"]);
    let tree = group_segments_indexed(&segs, &schema, "ROOT");

    let top: Vec<&str> = tree.children.iter().map(|c| c.definition).collect();
    assert_eq!(top, ["SG2", "SG2", "SG4"], "the two message-level NADs are SG2");

    let sg4 = tree.children.iter().find(|c| c.definition == "SG4").expect("SG4 opens on IDE");
    assert_eq!(sg4.total_span, 4..8);

    let nested: Vec<&str> = sg4.children.iter().map(|c| c.definition).collect();
    assert_eq!(nested, ["SG12", "SG12"], "NAD inside SG4 nests as SG12 rather than reopening SG2",);
    assert_eq!(sg4.children[0].total_span, 5..7);
    assert_eq!(sg4.children[1].total_span, 7..8);
    assert_eq!(sg4.children[0].occurrence_index, 0);
    assert_eq!(sg4.children[1].occurrence_index, 1);
}

#[test]
fn descendants_walk_the_whole_subtree_in_document_order() {
    let sg12 = [GroupDef::new("SG12", "NAD")];
    let schema = [GroupDef::new("SG2", "NAD"), GroupDef::with_children("SG4", "IDE", &sg12)];
    let segs = segs_of(&["NAD", "IDE", "NAD", "DTM", "IDE", "NAD"]);
    let tree = group_segments_indexed(&segs, &schema, "ROOT");

    let walked: Vec<&str> = tree.descendants().iter().map(|g| g.definition).collect();
    assert_eq!(
        walked,
        ["ROOT", "SG2", "SG4", "SG12", "SG4", "SG12"],
        "pre-order: a parent before its children, siblings in wire order",
    );

    let sg12_starts: Vec<usize> = tree.find("SG12").iter().map(|g| g.total_span.start).collect();
    assert_eq!(sg12_starts, [2, 5]);

    let first = tree.find("SG12")[0];
    assert_eq!(first.segments(&segs).iter().map(Segment::tag).collect::<Vec<_>>(), ["NAD", "DTM"],);
}

#[test]
fn a_repeated_trigger_still_reopens_a_sibling_rather_than_nesting_forever() {
    let sg12 = [GroupDef::new("SG12", "NAD")];
    let schema = [GroupDef::new("SG2", "NAD"), GroupDef::with_children("SG4", "IDE", &sg12)];
    let segs = segs_of(&["IDE", "NAD", "NAD", "NAD"]);
    let tree = group_segments_indexed(&segs, &schema, "ROOT");

    let sg4 = &tree.children[0];
    assert_eq!(sg4.definition, "SG4");
    assert_eq!(sg4.children.len(), 3, "three sibling SG12s, not one nest of three");
    assert!(sg4.children.iter().all(|c| c.children.is_empty()), "SG12 has no children, so nothing may nest inside it",);
}

#[test]
fn a_tag_no_nested_definition_accepts_still_closes_the_group() {
    let sg12 = [GroupDef::new("SG12", "NAD")];
    let schema = [GroupDef::new("SG2", "NAD"), GroupDef::with_children("SG4", "IDE", &sg12)];
    let segs = segs_of(&["IDE", "NAD", "IDE", "NAD"]);
    let tree = group_segments_indexed(&segs, &schema, "ROOT");

    let top: Vec<&str> = tree.children.iter().map(|c| c.definition).collect();
    assert_eq!(top, ["SG4", "SG4"]);
    assert_eq!(tree.children[0].total_span, 0..2);
    assert_eq!(tree.children[1].total_span, 2..4);
}

#[test]
fn nesting_is_preferred_at_every_depth() {
    let l3 = [GroupDef::new("L3", "CTA")];
    let l2 = [GroupDef::with_children("L2", "NAD", &l3)];
    let deep = [GroupDef::new("L1", "NAD"), GroupDef::with_children("A", "IDE", &l2)];

    let segs = segs_of(&["NAD", "IDE", "NAD", "CTA"]);
    let tree = group_segments_indexed(&segs, &deep, "ROOT");

    assert_eq!(tree.children[0].definition, "L1");
    let a = &tree.children[1];
    assert_eq!(a.definition, "A");
    assert_eq!(a.children[0].definition, "L2");
    assert_eq!(a.children[0].children[0].definition, "L3");
}

fn with_schema<R>(f: impl FnOnce(&[GroupDef]) -> R) -> R {
    let sg2 = [GroupDef::new("SG2", "CTA")];
    let schema = [GroupDef::with_children("SG1", "NAD", &sg2), GroupDef::new("SG3", "LIN")];
    f(&schema)
}

#[test]
fn root_segments_before_first_trigger() {
    with_schema(|schema| {
        let segs = segs_of(&["UNH", "BGM", "NAD"]);
        let tree = group_segments_indexed(&segs, schema, "ROOT");
        let direct: Vec<_> = tree.direct_segment_indices();
        assert_eq!(direct, vec![0, 1], "UNH + BGM should be direct in root");
        assert_eq!(tree.children.len(), 1);
        assert_eq!(tree.children[0].definition, "SG1");
    })
}

#[test]
fn repeated_trigger_creates_multiple_children() {
    with_schema(|schema| {
        let segs = segs_of(&["UNH", "NAD", "NAD", "UNT"]);
        let tree = group_segments_indexed(&segs, schema, "ROOT");
        assert_eq!(tree.children.iter().filter(|c| c.definition == "SG1").count(), 2);
    })
}

#[test]
fn repeated_trigger_occurrence_index_is_stamped() {
    with_schema(|schema| {
        let segs = segs_of(&["NAD", "NAD", "NAD"]);
        let tree = group_segments_indexed(&segs, schema, "ROOT");
        let indices: Vec<_> = tree.children.iter().map(|c| c.occurrence_index).collect();
        assert_eq!(indices, vec![0, 1, 2]);
    })
}

#[test]
fn nested_child_groups() {
    with_schema(|schema| {
        let segs = segs_of(&["NAD", "CTA", "CTA"]);
        let tree = group_segments_indexed(&segs, schema, "ROOT");
        let sg1 = &tree.children[0];
        assert_eq!(sg1.definition, "SG1");
        assert_eq!(sg1.children.len(), 2);
        assert!(sg1.children.iter().all(|c| c.definition == "SG2"));
    })
}

#[test]
fn total_span_covers_all_segments() {
    with_schema(|schema| {
        let segs = segs_of(&["UNH", "NAD", "CTA"]);
        let tree = group_segments_indexed(&segs, schema, "ROOT");
        let all_tags: Vec<_> = segs[tree.total_span.clone()].iter().map(|s| s.tag()).collect();
        assert!(all_tags.contains(&"UNH"));
        assert!(all_tags.contains(&"NAD"));
        assert!(all_tags.contains(&"CTA"));
    })
}

#[test]
fn the_descendants_walker_yields_the_same_preorder() {
    let sg12 = [GroupDef::new("SG12", "NAD")];
    let schema = [GroupDef::new("SG2", "NAD"), GroupDef::with_children("SG4", "IDE", &sg12)];
    let segs = segs_of(&["NAD", "IDE", "NAD"]);
    let tree = group_segments_indexed(&segs, &schema, "ROOT");
    let mut walker = Descendants::new(&tree);
    let mut names = Vec::new();
    while let Some(g) = walker.next() {
        names.push(g.definition);
    }
    assert_eq!(names, ["ROOT", "SG2", "SG4", "SG12"]);
}
