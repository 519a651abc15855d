[package]
name = "atomic_git"
version = "0.1.0"
edition = "2021"
publish = false

[dependencies]
git2 = { version = "0.20", default-features = false, features = ["vendored-libgit2"] }
serde = { version = "1", features = ["derive"] }
serde_json = "1"
chrono = { version = "0.4", default-features = false, features = ["clock", "std"] }
clap = { version = "4", features = ["derive"] }
rayon = "1"
log = "0.4"
tokio = { version = "1", features = ["rt"] }

[dev-dependencies]
tempfile = "3"
