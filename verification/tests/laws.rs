use dept_tree::hierarchy::{get_children_dept, get_children_ids};
use dept_tree::record::Info;
use dept_tree::root::select_root;
use dept_tree::tree::{build_forest, Dept};

fn row(id: i32, parent_id: i32) -> Info {
    Info { id, parent_id, name: format!("dept-{}", id), status: 1, deleted_at: None }
}

fn rows(pairs: &[(i32, i32)]) -> Vec<Info> {
    pairs.iter().map(|p| row(p.0, p.1)).collect()
}

fn preorder(nodes: &Vec<Dept>, out: &mut Vec<Info>) {
    for d in nodes {
        out.push(d.info.clone());
        preorder(&d.children, out);
    }
}

fn sample() -> Vec<Info> {
    rows(&[(8, 3), (3, 1), (1, 0), (9, 8), (2, 0), (5, 2), (4, 1), (6, 5), (7, 5)])
}

#[test]
fn roots_are_the_rows_with_the_root_marker_in_order() {
    let records = rows(&[(4, 7), (1, 0), (9, 0), (2, 1), (3, 0), (5, 9)]);
    let forest = build_forest(&records, 0);
    let roots: Vec<Info> = forest.iter().map(|d| d.info.clone()).collect();
    let expected: Vec<Info> = records.iter().filter(|r| r.parent_id == 0).cloned().collect();
    assert_eq!(roots, expected);
}

#[test]
fn well_formed_rows_are_each_in_the_forest_once() {
    let records = sample();
    let root = select_root(&records);
    assert_eq!(root, 0);
    let mut listed = Vec::new();
    preorder(&build_forest(&records, root), &mut listed);
    assert_eq!(listed.len(), records.len());
    for r in &records {
        assert_eq!(listed.iter().filter(|x| *x == r).count(), 1);
    }
}

#[test]
fn forest_lists_parents_before_children() {
    let records = sample();
    let mut listed = Vec::new();
    preorder(&build_forest(&records, 0), &mut listed);
    for (at, r) in listed.iter().enumerate() {
        assert!(r.parent_id == 0 || listed[..at].iter().any(|p| p.id == r.parent_id));
    }
}

#[test]
fn forest_rows_come_from_the_input() {
    let records = rows(&[(1, 0), (2, 1), (3, 9), (4, 3), (5, 5)]);
    let mut listed = Vec::new();
    preorder(&build_forest(&records, 0), &mut listed);
    assert_eq!(listed, vec![row(1, 0), row(2, 1)]);
}

#[test]
fn scope_is_closed_under_descent() {
    let records = sample();
    for start in [0, 1, 2, 3, 5, 8, 42] {
        let mut scope = vec![start];
        get_children_ids(build_forest(&records, 0), &mut scope);
        assert_eq!(scope[0], start);
        for r in &records {
            if scope.contains(&r.parent_id) {
                assert!(scope.contains(&r.id));
            }
        }
        for id in &scope[1..] {
            assert!(records.iter().any(|r| r.id == *id && scope.contains(&r.parent_id)));
        }
    }
}

#[test]
fn scope_under_one_department_is_its_subtree() {
    let mut scope = vec![2];
    get_children_ids(build_forest(&sample(), 0), &mut scope);
    assert_eq!(scope, vec![2, 5, 6, 7]);
}

#[test]
fn filter_is_closed_under_descent() {
    let records = sample();
    let kept = get_children_dept(records.clone(), Some(1));
    assert_eq!(kept, vec![row(3, 1), row(8, 3), row(9, 8), row(4, 1)]);
    for r in &records {
        if r.parent_id == 1 || kept.iter().any(|k| k.id == r.parent_id) {
            assert!(kept.contains(r));
        }
    }
}
