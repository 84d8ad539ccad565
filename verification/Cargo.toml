[package]
name = "dominator-animation"
version = "0.1.0"
edition = "2021"
publish = false

[dependencies]
futures-signals = "0.3"
futures-core = "0.3"
futures-util = "0.3"
discard = "1"
pin-utils = "0.1"
stdweb = "0.4"
