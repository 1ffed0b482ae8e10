[package]
name = "iqdb_flat"
version = "0.5.0"
edition = "2021"
publish = false

[dependencies]
iqdb-types = "1"
iqdb-distance = "1"
iqdb-index = "1"
iqdb-filter = "1"
rayon = "1"
