[package]
name = "three_way_merge_finder"
version = "0.1.0"
edition = "2021"
publish = false

[dependencies]
git2 = "*"
clap = "3"
