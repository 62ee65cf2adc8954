[package]
name = "radicle_surf"
version = "0.1.0"
edition = "2021"
publish = false

[dependencies]
chrono = "=0.4.45"
git2 = { version = ">=0.13.25, <0.17", default-features = false }
radicle-git-ext = "=0.1.0"
