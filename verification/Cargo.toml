[package]
name = "sbbf_rs_safe"
version = "0.1.0"
edition = "2021"
publish = false
