use supergravity::types::{Message, Role};

#[test]
fn scaffold_smoke() {
    assert_eq!(2 + 2, 4);
    assert_eq!(Message::text(Role::User, "x").parts.len(), 1);
}
