[package]
name = "peer"
version = "0.1.0"
edition = "2021"
publish = false

[dependencies]
anyhow = "=1.0.104"
async-std = "=1.13.2"
async-tungstenite = { version = "=0.35.0", features = ["async-std-runtime"] }
base64 = "=0.13.1"
bincode = "=1.3.3"
bitvec = "=1.1.1"
clap = { version = "=4.6.7", features = ["derive"] }
console_error_panic_hook = "=0.1.7"
console_log = "=1.1.0"
env_logger = "=0.10.2"
futures = "=0.3.34"
fxhash = "=0.2.1"
hex = "=0.4.3"
js-sys = "=0.3.106"
log = "=0.4.34"
rand = "=0.8.8"
rand_chacha = "=0.3.1"
serde = { version = "=1.0.229", features = ["derive"] }
sha2 = "=0.10.9"
thiserror = "=1.0.69"
wasm-bindgen = "=0.2.129"
wasm-bindgen-futures = "=0.4.79"
web-sys = { version = "=0.3.106", features = ["BinaryType", "Blob", "Document", "Element", "Event", "EventTarget", "File", "FileList", "HtmlAnchorElement", "HtmlElement", "HtmlInputElement", "MessageEvent", "Node", "Performance", "RtcConfiguration", "RtcDataChannel", "RtcDataChannelInit", "RtcDataChannelState", "RtcDataChannelType", "RtcIceCandidate", "RtcIceCandidateInit", "RtcIceServer", "RtcPeerConnection", "RtcPeerConnectionIceEvent", "RtcSdpType", "RtcSessionDescriptionInit", "Url", "WebSocket", "Window"] }
