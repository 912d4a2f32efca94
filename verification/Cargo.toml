[package]
name = "pli_segmenter"
version = "0.1.0"
edition = "2021"
publish = false

[dependencies]
unicode-general-category = "*"
unicode-segmentation = "*"
leptos = { version = "*", features = ["csr"] }
console_error_panic_hook = "*"
