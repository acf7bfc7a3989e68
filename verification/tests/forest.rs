use dept_tree::record::Info;
use dept_tree::root::select_root;
use dept_tree::tree::{build_forest, Dept};

fn row(id: i32, parent_id: i32) -> Info {
    Info { id, parent_id, name: format!("dept-{}", id), status: 1, deleted_at: None }
}

fn rows(pairs: &[(i32, i32)]) -> Vec<Info> {
    pairs.iter().map(|p| row(p.0, p.1)).collect()
}

fn ids(nodes: &Vec<Dept>) -> Vec<i32> {
    nodes.iter().map(|d| d.info.id).collect()
}

fn preorder(nodes: &Vec<Dept>, out: &mut Vec<i32>) {
    for d in nodes {
        out.push(d.info.id);
        preorder(&d.children, out);
    }
}

#[test]
fn select_root_of_no_rows_is_zero() {
    assert_eq!(select_root(&Vec::new()), 0);
}

#[test]
fn select_root_is_least_parent_id() {
    assert_eq!(select_root(&rows(&[(1, 0), (2, 1), (3, 2)])), 0);
    assert_eq!(select_root(&rows(&[(5, 7), (6, 3), (7, 3), (8, 9)])), 3);
}

#[test]
fn select_root_of_one_row_is_its_parent() {
    assert_eq!(select_root(&rows(&[(4, 12)])), 12);
}

#[test]
fn select_root_handles_negative_and_extreme_parents() {
    assert_eq!(select_root(&rows(&[(1, 0), (2, -1), (3, 5)])), -1);
    assert_eq!(select_root(&rows(&[(1, i32::MAX), (2, i32::MIN)])), i32::MIN);
}

#[test]
fn select_root_ignores_ids() {
    assert_eq!(select_root(&rows(&[(-50, 4), (-60, 6)])), 4);
}

#[test]
fn forest_of_no_rows_is_empty() {
    assert!(build_forest(&Vec::new(), 0).is_empty());
}

#[test]
fn forest_holds_every_row_once_when_well_formed() {
    let records = rows(&[(4, 2), (1, 0), (2, 1), (3, 1), (5, 0), (6, 5), (7, 4)]);
    let forest = build_forest(&records, 0);
    let mut seen = Vec::new();
    preorder(&forest, &mut seen);
    assert_eq!(seen, vec![1, 2, 4, 7, 3, 5, 6]);
    let mut sorted = seen.clone();
    sorted.sort();
    assert_eq!(sorted, vec![1, 2, 3, 4, 5, 6, 7]);
}

#[test]
fn forest_nests_children_under_their_parent() {
    let forest = build_forest(&rows(&[(1, 0), (2, 1), (3, 2)]), 0);
    assert_eq!(forest.len(), 1);
    assert_eq!(forest[0].info.id, 1);
    assert_eq!(forest[0].children.len(), 1);
    assert_eq!(forest[0].children[0].info.id, 2);
    assert_eq!(forest[0].children[0].children.len(), 1);
    assert_eq!(forest[0].children[0].children[0].info.id, 3);
    assert!(forest[0].children[0].children[0].children.is_empty());
}

#[test]
fn forest_keeps_the_row_payload() {
    let mut records = rows(&[(1, 0), (2, 1)]);
    records[1].name = String::from("research");
    records[1].status = 7;
    records[1].deleted_at = Some(1_700_000_000);
    let forest = build_forest(&records, 0);
    assert_eq!(forest[0].info, records[0]);
    assert_eq!(forest[0].children[0].info, records[1]);
}

#[test]
fn forest_drops_row_with_dangling_parent() {
    let forest = build_forest(&rows(&[(1, 0), (2, 99)]), 0);
    assert_eq!(ids(&forest), vec![1]);
    assert!(forest[0].children.is_empty());
}

#[test]
fn forest_drops_what_hangs_under_a_dangling_row() {
    let forest = build_forest(&rows(&[(1, 0), (2, 99), (3, 2)]), 0);
    let mut seen = Vec::new();
    preorder(&forest, &mut seen);
    assert_eq!(seen, vec![1]);
}

#[test]
fn forest_of_two_rows_in_a_circle_returns() {
    let records = rows(&[(1, 2), (2, 1)]);
    assert!(build_forest(&records, 0).is_empty());
    let root = select_root(&records);
    assert_eq!(root, 1);
    let forest = build_forest(&records, root);
    assert_eq!(ids(&forest), vec![2]);
    assert_eq!(ids(&forest[0].children), vec![1]);
    assert!(forest[0].children[0].children.is_empty());
}

#[test]
fn forest_cuts_a_row_that_is_its_own_parent() {
    let forest = build_forest(&rows(&[(0, 0), (1, 0)]), 0);
    assert_eq!(ids(&forest), vec![0, 1]);
    assert_eq!(ids(&forest[0].children), vec![1]);
    assert!(forest[0].children[0].children.is_empty());
    assert!(forest[1].children.is_empty());
}

#[test]
fn forest_of_a_long_circle_returns() {
    let mut pairs = Vec::new();
    for i in 0..200 {
        pairs.push((i, (i + 1) % 200));
    }
    let forest = build_forest(&rows(&pairs), 0);
    let mut seen = Vec::new();
    preorder(&forest, &mut seen);
    assert_eq!(seen.len(), 200);
    assert_eq!(seen[0], 199);
    assert_eq!(seen[199], 0);
}

#[test]
fn forest_preserves_sibling_order() {
    let forest = build_forest(&rows(&[(1, 0), (3, 0), (2, 0)]), 0);
    assert_eq!(ids(&forest), vec![1, 3, 2]);
}

#[test]
fn forest_preserves_child_order() {
    let forest = build_forest(&rows(&[(9, 1), (1, 0), (4, 1), (7, 1)]), 0);
    assert_eq!(ids(&forest), vec![1]);
    assert_eq!(ids(&forest[0].children), vec![9, 4, 7]);
}

#[test]
fn forest_under_another_root_marker() {
    let forest = build_forest(&rows(&[(1, 0), (2, 1), (3, 1), (4, 3)]), 1);
    assert_eq!(ids(&forest), vec![2, 3]);
    assert_eq!(ids(&forest[1].children), vec![4]);
}

#[test]
fn forest_repeats_children_under_rows_that_share_an_id() {
    let forest = build_forest(&rows(&[(5, 0), (5, 0), (6, 5)]), 0);
    assert_eq!(ids(&forest), vec![5, 5]);
    assert_eq!(ids(&forest[0].children), vec![6]);
    assert_eq!(ids(&forest[1].children), vec![6]);
}

#[test]
fn node_from_row_has_no_children() {
    let node = Dept::from(row(3, 1));
    assert_eq!(node.info, row(3, 1));
    assert!(node.children.is_empty());
}

#[test]
fn set_child_replaces_children_and_keeps_row() {
    let mut node = Dept::from(row(1, 0));
    node.set_child(vec![Dept::from(row(2, 1)), Dept::from(row(3, 1))]);
    assert_eq!(node.info, row(1, 0));
    assert_eq!(ids(&node.children), vec![2, 3]);
    node.set_child(Vec::new());
    assert!(node.children.is_empty());
}

#[test]
fn row_getters_and_liveness() {
    let mut r = row(8, 3);
    assert_eq!(r.get_id(), 8);
    assert_eq!(r.get_parent_id(), 3);
    assert!(r.is_live());
    r.deleted_at = Some(0);
    assert!(!r.is_live());
    let copy = r.clone();
    assert_eq!(copy, r);
}
