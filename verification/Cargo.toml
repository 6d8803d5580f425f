[package]
name = "validresult"
version = "0.1.0"
edition = "2021"
publish = false

[dependencies]
leptos = { version = "0.8", features = ["csr"] }
leptos_router = "0.8"
leptos-use = "0.16"
gloo-net = "0.6"
serde = { version = "1", features = ["derive"] }
web-sys = { version = "0.3", features = ["Element", "HtmlElement", "HtmlInputElement", "DomRect", "CssStyleDeclaration", "Event", "MouseEvent", "KeyboardEvent", "Window"] }
console_error_panic_hook = "0.1"
tracing = "0.1"
