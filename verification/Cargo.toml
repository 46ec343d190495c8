[package]
name = "chess_engine"
version = "0.1.0"
edition = "2021"
publish = false

[dependencies]
piston = "=1.0.0"
piston2d-graphics = "=0.45.0"
piston2d-opengl_graphics = "=0.89.0"
piston2d-sprite = "=0.69.0"
pistoncore-glutin_window = "=0.73.2"
piston-ai_behavior = "=0.33.0"
freetype-rs = "=0.38.0"
find_folder = "=0.3.0"
config = { version = "=0.15.27", default-features = false, features = ["toml"] }
uuid = "=0.6.5"
