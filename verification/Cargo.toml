[package]
name = "pd2tools"
version = "0.1.0"
edition = "2021"
publish = false

[dependencies]
bytemuck = "=1.25.2"
structopt = "=0.3.26"
xmlwriter = "0.1"
