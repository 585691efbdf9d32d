[package]
name = "doh_gateway"
version = "0.1.0"
edition = "2021"
publish = false

[dependencies]
clap = "*"
crossbeam-channel = "*"
ctrlc = "*"
curl = "*"
exitcode = "*"
log = "*"
log4rs = "*"
num_cpus = "*"
threadpool = "*"

[dev-dependencies]
serde_json = "*"
trust-dns-proto = "*"
