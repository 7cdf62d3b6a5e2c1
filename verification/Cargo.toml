[package]
name = "lti_launch"
version = "0.1.0"
edition = "2021"
publish = false

[dependencies]
base64 = "0.13"
hmac = "0.12"
sha1 = "0.10"
axum = "0.6"
axum-extra = { version = "0.7", features = ["cookie-signed"] }
hyper = { version = "0.14", features = ["full"] }
tokio = { version = "1", features = ["macros", "rt-multi-thread"] }
tower-http = { version = "0.4", features = ["trace"] }
tracing = "0.1"
tracing-subscriber = { version = "0.3", features = ["env-filter"] }

[dev-dependencies]
form_urlencoded = "1"
percent-encoding = "2"
