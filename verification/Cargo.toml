[package]
name = "prunepytest"
version = "0.1.0"
edition = "2021"
publish = false

[dependencies]
anyhow = "=1.0.104"
dashmap = "6"
hi_sparse_bitset = "=0.10.0"
ignore = "=0.4.33"
log = "=0.4.34"
regex = "=1.13.1"
ruff_python_ast = "=0.0.10"
ruff_python_parser = "=0.0.10"
ruff_text_size = "=0.0.10"
speedy = "=0.8.7"
zstd = "=0.13.3"
