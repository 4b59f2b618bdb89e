[package]
name = "blockless-car"
version = "0.1.0"
edition = "2021"
publish = false

[dependencies]
cid = "0.7"
integer-encoding = "3.0.4"
libipld = { version = "0.12", default-features = false, features = ["dag-cbor", "dag-pb"] }
libipld-cbor = "0.12"
path-absolutize = "3"
quick-protobuf = "0.8"
thiserror = "1"
