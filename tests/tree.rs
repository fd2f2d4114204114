use htmldom::{
    AtPosition, DomError, HtmlClass, HtmlDom, NodeData, NodeKind, WithIdAttr, WithTagName, ROOT,
};

fn chars(s: &str) -> Vec<char> {
    s.chars().collect()
}

fn three_children() -> (HtmlDom, Vec<usize>) {
    let mut dom = HtmlDom::new();
    let a = dom.add_child(ROOT, NodeData::element(chars("a"))).unwrap();
    let b = dom.add_child(ROOT, NodeData::element(chars("b"))).unwrap();
    let c = dom.add_child(ROOT, NodeData::element(chars("c"))).unwrap();
    (dom, vec![a, b, c])
}

#[test]
fn removing_position_zero_keeps_the_other_two_in_order() {
    let (mut dom, ids) = three_children();
    assert_eq!(dom.remove_child(ROOT, &AtPosition(0)), Ok(()));
    assert_eq!(dom.children(ROOT).unwrap().clone(), vec![ids[1], ids[2]]);
    assert!(!dom.is_live(ids[0]));
    assert_eq!(dom.get(ids[0]).err(), Some(DomError::NotFound));
}

#[test]
fn removal_without_match_changes_nothing() {
    let (mut dom, ids) = three_children();
    let before = format!("{:?}", dom);
    assert_eq!(dom.remove_child(ROOT, &AtPosition(7)), Ok(()));
    assert_eq!(dom.remove_child(ROOT, &WithTagName(chars("zzz"))), Ok(()));
    assert_eq!(format!("{:?}", dom), before);
    assert_eq!(dom.children(ROOT).unwrap().clone(), ids);
}

#[test]
fn removal_takes_the_first_match() {
    let mut dom = HtmlDom::new();
    let a = dom.add_child(ROOT, NodeData::element(chars("p"))).unwrap();
    let b = dom.add_child(ROOT, NodeData::element(chars("p"))).unwrap();
    dom.remove_child(ROOT, &WithTagName(chars("p"))).unwrap();
    assert_eq!(dom.children(ROOT).unwrap().clone(), vec![b]);
    assert!(!dom.is_live(a));
}

#[test]
fn removal_by_id_attribute_retires_the_subtree() {
    let mut dom = HtmlDom::new();
    let a = dom.add_child(ROOT, NodeData::element(chars("div"))).unwrap();
    let b = dom.add_child(a, NodeData::element(chars("span"))).unwrap();
    let t = dom.add_child(b, NodeData::text(chars("hi"))).unwrap();
    let other = dom.add_child(ROOT, NodeData::element(chars("p"))).unwrap();
    dom.set_id_attr(a, chars("top")).unwrap();
    dom.remove_child(ROOT, &WithIdAttr(chars("top"))).unwrap();
    assert!(!dom.is_live(a));
    assert!(!dom.is_live(b));
    assert!(!dom.is_live(t));
    assert!(dom.is_live(other));
    assert_eq!(dom.children(ROOT).unwrap().clone(), vec![other]);
    assert_eq!(dom.children(b).err(), Some(DomError::NotFound));
}

#[test]
fn removal_under_dead_parent_is_not_found() {
    let (mut dom, ids) = three_children();
    dom.remove(ids[0]).unwrap();
    assert_eq!(dom.remove_child(ids[0], &AtPosition(0)), Err(DomError::NotFound));
}

#[test]
fn root_boundaries() {
    let (mut dom, _) = three_children();
    assert_eq!(dom.parent(ROOT), Ok(ROOT));
    assert!(dom.siblings(ROOT).unwrap().is_empty());
    assert_eq!(dom.remove(ROOT), Err(DomError::NotFound));
    assert!(dom.is_live(ROOT));
    assert_eq!(dom.children(ROOT).unwrap().len(), 3);
}

#[test]
fn siblings_exclude_the_node_itself() {
    let (dom, ids) = three_children();
    assert_eq!(dom.siblings(ids[1]).unwrap(), vec![ids[0], ids[2]]);
    assert_eq!(dom.siblings(ids[0]).unwrap(), vec![ids[1], ids[2]]);
    assert_eq!(dom.siblings(99), Err(DomError::NotFound));
}

#[test]
fn insertion_order_is_kept_at_every_level() {
    let mut dom = HtmlDom::new();
    let a = dom.add_child(ROOT, NodeData::element(chars("a"))).unwrap();
    let b = dom.add_child(a, NodeData::element(chars("b"))).unwrap();
    let c = dom.add_child(a, NodeData::element(chars("c"))).unwrap();
    let d = dom.add_child(b, NodeData::element(chars("d"))).unwrap();
    let e = dom.add_child(ROOT, NodeData::element(chars("e"))).unwrap();
    assert_eq!((a, b, c, d, e), (1, 2, 3, 4, 5));
    assert_eq!(dom.children(ROOT).unwrap().clone(), vec![a, e]);
    assert_eq!(dom.children(a).unwrap().clone(), vec![b, c]);
    assert_eq!(dom.children(b).unwrap().clone(), vec![d]);
    assert_eq!(dom.parent(d), Ok(b));
}

#[test]
fn adding_under_a_dead_parent_is_invalid() {
    let (mut dom, ids) = three_children();
    dom.remove(ids[2]).unwrap();
    assert_eq!(
        dom.add_child(ids[2], NodeData::text(chars("x"))),
        Err(DomError::InvalidParent)
    );
    assert_eq!(dom.len(), 4);
    assert_eq!(
        dom.add_child(42, NodeData::comment(chars("x"))),
        Err(DomError::InvalidParent)
    );
}

#[test]
fn node_fields_can_be_edited() {
    let (mut dom, ids) = three_children();
    dom.add_class(ids[0], HtmlClass(chars("big"))).unwrap();
    dom.set_id_attr(ids[0], chars("k")).unwrap();
    let t = dom.add_child(ids[0], NodeData::text(chars("a"))).unwrap();
    dom.append_text(t, 'b').unwrap();
    assert_eq!(dom.classes(ids[0]).unwrap()[0].0, chars("big"));
    assert_eq!(dom.id_attr(ids[0]).unwrap().clone(), chars("k"));
    assert_eq!(dom.get(t).unwrap().data.data, chars("ab"));
    assert_eq!(dom.get(t).unwrap().data.kind, NodeKind::Text);
    dom.remove(ids[0]).unwrap();
    assert_eq!(dom.append_text(t, 'c'), Err(DomError::NotFound));
    assert_eq!(dom.add_class(ids[0], HtmlClass(chars("x"))), Err(DomError::NotFound));
    assert_eq!(dom.set_id_attr(ids[0], chars("x")), Err(DomError::NotFound));
    assert_eq!(dom.name(ids[0]).err(), Some(DomError::NotFound));
}

#[test]
fn depth_first_serialization_follows_insertion() {
    let mut dom = HtmlDom::new();
    let a = dom.add_child(ROOT, NodeData::element(chars("a"))).unwrap();
    let b = dom.add_child(a, NodeData::element(chars("b"))).unwrap();
    let e = dom.add_child(ROOT, NodeData::element(chars("e"))).unwrap();
    let c = dom.add_child(a, NodeData::element(chars("c"))).unwrap();
    let d = dom.add_child(b, NodeData::element(chars("d"))).unwrap();
    assert_eq!(dom.preorder_ids(ROOT).unwrap(), vec![ROOT, a, b, d, c, e]);
    assert_eq!(dom.preorder_ids(a).unwrap(), vec![a, b, d, c]);
    let f = dom.add_child(a, NodeData::text(chars("f"))).unwrap();
    assert_eq!(dom.preorder_ids(a).unwrap(), vec![a, b, d, c, f]);
    dom.remove(b).unwrap();
    assert_eq!(dom.preorder_ids(ROOT).unwrap(), vec![ROOT, a, c, f, e]);
    assert_eq!(dom.preorder_ids(d), Err(DomError::NotFound));
}

#[test]
fn adding_a_class_twice_keeps_it_once() {
    let (mut dom, ids) = three_children();
    dom.add_class(ids[1], HtmlClass(chars("x"))).unwrap();
    dom.add_class(ids[1], HtmlClass(chars("y"))).unwrap();
    assert_eq!(dom.add_class(ids[1], HtmlClass(chars("x"))), Ok(()));
    let classes: Vec<Vec<char>> = dom.classes(ids[1]).unwrap().iter().map(|c| c.0.clone()).collect();
    assert_eq!(classes, vec![chars("x"), chars("y")]);
}
