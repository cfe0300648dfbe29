[package]
name = "dombreaker"
version = "0.1.0"
edition = "2021"
publish = false

[dependencies]
rand = "0.8"
log = "0.4"
simple_logger = "*"
cfg-if = "1"
cstr = "0.2"
qmetaobject = "0.2"
sixtyfps = { version = "0.1", default-features = false }

[dev-dependencies]
itertools = "0.10"
