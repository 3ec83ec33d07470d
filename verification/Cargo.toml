[package]
name = "collapse_xdebug"
version = "0.1.0"
edition = "2021"
publish = false

[dependencies]
hashbrown = "0.9"
regex = "1"
structopt = "0.3"
