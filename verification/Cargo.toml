[package]
name = "graph_edit"
version = "0.1.0"
edition = "2021"
publish = false
