[package]
name = "dns_forwarder"
version = "0.1.0"
edition = "2021"
publish = false

[dependencies]
nom = "7.1.3"
getopts = "0.2"
