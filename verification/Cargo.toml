[package]
name = "unic_locale"
version = "0.1.0"
edition = "2021"
publish = false
