[package]
name = "graph_bubbles"
version = "0.1.0"
edition = "2021"
publish = false

[dependencies]
csv = "=1.4.0"
gfa = "=0.7.0"
handlegraph = "=0.4.0"
itertools = "=0.15.0"
