[package]
name = "dept_tree"
version = "0.1.0"
edition = "2021"
publish = false

[dependencies]
async-trait = "=0.1.92"
diesel = { version = "=2.2.12", default-features = false, features = ["postgres_backend", "32-column-tables"] }
diesel-async = { version = "=0.6.1", features = ["postgres", "deadpool"] }
getset = "=0.1.7"
sea-orm = { version = "=1.1.20", default-features = false, features = ["macros", "with-rust_decimal"] }
sea-orm-migration = { version = "=1.1.20", default-features = false }
serde = { version = "1", features = ["derive"] }
serde_repr = "=0.1.21"
