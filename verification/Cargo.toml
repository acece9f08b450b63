[package]
name = "mpsquish"
version = "0.1.0"
edition = "2021"
publish = false

[dependencies]
byteorder = "1.5.0"
json-escape = "*"
lasso = "0.7.3"
nyoom-json = "*"
rmp = "0.8.15"
smol_str = "0.3.7"
thiserror = "2.0.21"

[dev-dependencies]
serde_json = "1.0.154"
