[package]
name = "orx_parallel"
version = "0.1.0"
edition = "2021"
publish = false

[dependencies]
orx-concurrent-bag = "*"
orx-concurrent-iter = "*"
orx-concurrent-ordered-bag = "*"
orx-fixed-vec = "*"
orx-pinned-vec = "*"
orx-split-vec = "*"
