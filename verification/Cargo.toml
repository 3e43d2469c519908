[package]
name = "vimdir"
version = "0.1.0"
edition = "2021"
publish = false

[dependencies]
anyhow = "1"
fs_extra = "1"
git-version = "0.3"
structopt = "0.3"
tempdir = "0.3"
