[package]
name = "ccfolia_log_parser"
version = "0.1.0"
edition = "2021"
publish = false

[dependencies]
scraper = "*"
thiserror = "*"
unicode-segmentation = "*"
