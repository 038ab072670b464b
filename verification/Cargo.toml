[package]
name = "scraper"
version = "0.1.0"
edition = "2021"
publish = false

[dependencies]
auto_encoder = "*"
fast_html5ever = "*"
tendril = "*"
