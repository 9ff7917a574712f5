[package]
name = "photo_edit"
version = "0.1.0"
edition = "2021"
publish = false

[dependencies]
rawler = "*"
leptos = { version = "0.6", features = ["csr"] }
wasm-bindgen = "0.2"
wasm-bindgen-futures = "0.4"
js-sys = "0.3"
console_error_panic_hook = "0.1"
web-sys = { version = "0.3", features = ["Blob", "BlobPropertyBag", "CanvasRenderingContext2d", "CssStyleDeclaration", "DataTransfer", "Document", "DomRect", "DragEvent", "Element", "Event", "EventTarget", "File", "FileList", "FontFace", "FontFaceDescriptors", "FontFaceSet", "HtmlAnchorElement", "HtmlCanvasElement", "HtmlElement", "HtmlImageElement", "HtmlInputElement", "HtmlMediaElement", "HtmlVideoElement", "ImageData", "MouseEvent", "Node", "PointerEvent", "Url", "Window", "console"] }
