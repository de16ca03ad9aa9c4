[package]
name = "c_scape"
version = "0.1.0"
edition = "2021"
publish = false

[dependencies]
intrusive-collections = "0.9"
wee_alloc = "0.4"
libc = "0.2"
static_assertions = "1.1"
