[package]
name = "reachpy"
version = "0.1.0"
edition = "2021"
publish = false

[dependencies]
byteorder = "=1.5.0"
pyo3 = "=0.27.2"
thiserror = "=2.0.21"
zenoh = { version = "=1.10.2", default-features = false, features = ["transport_tcp", "transport_udp", "transport_unixsock-stream"] }
