[package]
name = "midi_roll"
version = "0.1.0"
edition = "2021"
publish = false

[dependencies]
midly = "0.5"
serde = { version = "1", features = ["derive"] }
egui = "0.28"
midir = "0.10"
rfd = { version = "0.14", default-features = false }
wasm-bindgen = "0.2"
js-sys = "0.3"
web-sys = { version = "0.3", features = ["Window", "Document", "Element", "HtmlElement", "HtmlAnchorElement", "Node", "Blob", "Url", "CssStyleDeclaration", "Performance", "AudioContext", "BaseAudioContext", "AudioNode", "AudioParam", "AudioDestinationNode", "AudioScheduledSourceNode", "OscillatorNode"] }
