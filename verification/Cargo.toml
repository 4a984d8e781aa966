[package]
name = "klotski"
version = "0.1.0"
edition = "2021"
publish = false

[dependencies]
enum-map = "=2.7.3"
nohash-hasher = "=0.2.0"
pathfinding = "=4.16.0"
thiserror = "=1.0.69"
