[package]
name = "ligeia"
version = "0.1.0"
edition = "2021"
publish = false

[dependencies]
ahash = "*"
anyhow = "1"
bytemuck = "1"
circular = "*"
clap = "2"
effective-limits = "*"
fnv = "1"
itertools = "*"
lazy_format = "*"
lazy_static = "1"
madvise = "*"
mapr = "*"
structopt = "0.3"
tempfile = "3"
termion = "*"
thiserror = "1"
varint-simd = "*"
vcd = "*"
yapb = "*"
