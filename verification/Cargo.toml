[package]
name = "file_search"
version = "0.1.0"
edition = "2021"

[dependencies]
walkdir = "2"
