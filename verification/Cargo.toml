[package]
name = "ib-matcher"
version = "0.1.0"
edition = "2021"
publish = false

[dependencies]
aho-corasick = "*"
arraystring = "*"
daachorse = "*"
itertools = "*"
regex = "*"
widestring = "*"
