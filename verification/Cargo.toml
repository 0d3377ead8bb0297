[package]
name = "sget"
version = "0.1.0"
edition = "2021"
publish = false

[dependencies]
anyhow = "*"
clap = "*"
oci-distribution = "*"
openssl = "*"
rpassword = "*"
tokio = { version = "*", features = ["macros", "rt-multi-thread"] }
x509-parser = "*"
p256 = { version = "*", features = ["ecdsa"] }
base64 = "*"
sha2 = "*"
