[package]
name = "oxidepage_layout"
version = "0.1.0"
edition = "2021"
publish = false

[dependencies]
wuff = "=0.2.9"
smallvec = "=1.16.4"
taffy = "=0.11.0"
parley = { version = "=0.10.0", default-features = false, features = ["std"] }
skrifa = "=0.44.0"
app_units = "=0.7.8"
euclid = "=0.22.14"
