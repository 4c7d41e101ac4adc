[package]
name = "dua"
version = "0.1.0"
edition = "2021"
publish = false

[dependencies]
ansi_term = "=0.12.1"
atty = "=0.2.14"
failure = "=0.1.8"
failure-tools = "=4.0.5"
filesize = "=0.2.0"
itertools = "=0.8.2"
jwalk = "=0.4.0"
structopt = "=0.2.18"
termion = "=1.5.6"
tui = "=0.8.0"
tui-react = "=0.2.2"
unicode-segmentation = "=1.13.3"
