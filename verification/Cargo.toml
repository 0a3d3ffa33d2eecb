[package]
name = "rinsai"
version = "0.1.0"
edition = "2021"
publish = false

[dependencies]
shogi_core = "*"
shogi_legality_lite = "*"
shogi_official_kifu = "*"
shogi_usi_parser = "*"
shunsai = "*"
