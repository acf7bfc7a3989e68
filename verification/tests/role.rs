use dept_tree::role::{get_by_sign, InfoWithMenuIds, Role};

fn role(id: i32, sign: &str) -> Role {
    Role { id, name: format!("role-{}", id), sign: String::from(sign), status: 1 }
}

#[test]
fn sign_held_by_another_role_is_reported() {
    assert_eq!(get_by_sign(Some(role(4, "admin")), Some(9)), Some(role(4, "admin")));
}

#[test]
fn sign_held_by_the_same_role_is_free() {
    assert_eq!(get_by_sign(Some(role(4, "admin")), Some(4)), None);
}

#[test]
fn sign_without_asking_id_is_free() {
    assert_eq!(get_by_sign(Some(role(4, "admin")), None), None);
}

#[test]
fn sign_nobody_holds_is_free() {
    assert_eq!(get_by_sign(None, Some(4)), None);
    assert_eq!(get_by_sign(None, None), None);
}

#[test]
fn role_with_menu_ids_starts_without_any() {
    let info = InfoWithMenuIds::from(role(2, "editor"));
    assert_eq!(info.info, role(2, "editor"));
    assert!(info.menu_ids.is_empty());
}
