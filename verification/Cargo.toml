[package]
name = "vprogs"
version = "0.1.0"
edition = "2021"
publish = false

[dependencies]
borsh = "=1.8.1"
crossbeam-deque = "=0.8.8"
crossbeam-queue = "0.3"
fastrand = "=2.5.0"
num_cpus = "=1.17.0"
