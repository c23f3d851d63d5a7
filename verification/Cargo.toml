[package]
name = "dibujar_poligono"
version = "0.1.0"
edition = "2021"
publish = false

[dependencies]
image = "*"
