[package]
name = "evaluator"
version = "0.1.0"
edition = "2021"

[dependencies]
dashmap = "=6.2.1"
sorted-vec = "=0.8.11"
