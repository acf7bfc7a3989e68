use dept_tree::record::Info;
use dept_tree::tree::build_forest;
use dept_tree::validate::{check_distinct_ids, try_build_forest, TreeError};

fn row(id: i32, parent_id: i32) -> Info {
    Info { id, parent_id, name: format!("dept-{}", id), status: 1, deleted_at: None }
}

fn rows(pairs: &[(i32, i32)]) -> Vec<Info> {
    pairs.iter().map(|p| row(p.0, p.1)).collect()
}

#[test]
fn distinct_ids_are_accepted() {
    assert_eq!(check_distinct_ids(&Vec::new()), Ok(()));
    assert_eq!(check_distinct_ids(&rows(&[(1, 0)])), Ok(()));
    assert_eq!(check_distinct_ids(&rows(&[(3, 0), (1, 3), (2, 3)])), Ok(()));
}

#[test]
fn repeated_id_is_invalid_input() {
    assert_eq!(
        check_distinct_ids(&rows(&[(1, 0), (2, 1), (1, 2)])),
        Err(TreeError::InvalidInput { id: 1 })
    );
}

#[test]
fn first_repeated_id_is_named() {
    assert_eq!(
        check_distinct_ids(&rows(&[(7, 0), (8, 0), (9, 0), (8, 1), (7, 1)])),
        Err(TreeError::InvalidInput { id: 8 })
    );
}

#[test]
fn checked_build_matches_plain_build() {
    let records = rows(&[(1, 0), (2, 1), (3, 1), (4, 99)]);
    let checked = try_build_forest(&records, 0).unwrap();
    let plain = build_forest(&records, 0);
    assert_eq!(checked.len(), plain.len());
    assert_eq!(checked[0].info, plain[0].info);
    assert_eq!(checked[0].children.len(), 2);
    assert_eq!(checked[0].children[1].info, records[2]);
}

#[test]
fn checked_build_refuses_repeated_id() {
    let built = try_build_forest(&rows(&[(5, 0), (5, 0), (6, 5)]), 0);
    assert_eq!(built.err(), Some(TreeError::InvalidInput { id: 5 }));
}
