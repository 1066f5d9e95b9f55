[package]
name = "codt"
version = "0.1.0"
edition = "2021"
publish = false

[dependencies]
fenwick = "*"
rayon = "1"
thread_local = "1"
