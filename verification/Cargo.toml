[package]
name = "oxlive"
version = "0.1.0"
edition = "2021"
publish = false

[dependencies]
oxiri = "*"
oxrdf = "*"
oxsdatatypes = "*"
oxstr = "*"
rustc-hash = "*"
siphasher = "*"
sparesults = "*"
spargebra = "*"
sparopt = "*"
