[package]
name = "mdns_discovery"
version = "0.1.0"
edition = "2021"
publish = false

[dependencies]
if-addrs = "*"
net2 = "*"
