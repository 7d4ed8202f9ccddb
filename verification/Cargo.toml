[package]
name = "sqlhook"
version = "0.1.0"
edition = "2021"
publish = false

[dependencies]
anyhow = "*"
async-trait = "*"
log = "*"
parking_lot = "*"
sea-orm = "*"
spring = "*"
