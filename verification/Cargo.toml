[package]
name = "dsl"
version = "0.1.0"
edition = "2021"
publish = false

[dependencies]
swayipc = "3"
dbus = "0.9"
dbus-crossroads = "0.5"
async-priority-channel = "*"
futures = "0.3"
