[package]
name = "register_machine"
version = "0.1.0"
edition = "2021"
publish = false
