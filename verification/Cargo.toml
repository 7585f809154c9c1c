[package]
name = "qwen_forced_aligner"
version = "0.1.0"
edition = "2021"
publish = false

[dependencies]
anyhow = "=1.0.104"
clap = { version = "=4.6.7", features = ["derive"] }
cudarc = { version = "*", default-features = false, features = ["std", "driver", "cuda-12080", "dynamic-loading"] }
env_logger = "=0.11.11"
gemm = "=0.18.2"
half = "=2.7.1"
hound = "=3.5.1"
libm = "=0.2.16"
lindera = { version = "=2.3.4", default-features = false }
log = "=0.4.35"
rayon = "=1.12.0"
rustfft = "=6.4.1"
safetensors = "=0.8.0"
serde = { version = "=1.0.229", features = ["derive"] }
serde_json = "=1.0.154"
tokenizers = { version = "=0.22.2", default-features = false, features = ["fancy-regex"] }

[dev-dependencies]
daachorse = "=1.0.1"
lindera-dictionary = { version = "=2.3.4", default-features = false }
