[package]
name = "orifude"
version = "1.0.2"
edition = "2021"
publish = false

[dependencies]
sha2 = "=0.11.1"
spdx = "=0.13.6"
toml = "=1.1.8"
serde = { version = "=1.0.229", features = ["derive"] }
zip = { version = "=9.2.2", default-features = false, features = ["deflate"] }
rusqlite = { version = "=0.41.1", features = ["bundled", "limits"] }
directories = "=6.0.0"
