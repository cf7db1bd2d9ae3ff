[package]
name = "regexer"
version = "0.1.0"
edition = "2021"
publish = false

[dependencies]
regex = "1"
regex-automata = "0.4"
clap = "4"
color-eyre = "0.6"
ratatui = "0.29"
