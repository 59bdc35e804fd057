[package]
name = "crysalis"
version = "0.1.0"
edition = "2021"
publish = false

[dependencies]
bootloader = "=0.9.35"
x86_64 = { version = "=0.15.5", default-features = false, features = ["instructions"] }
spin = "=0.12.3"
lazy_static = "=1.5.1"
volatile = "=0.2.7"
uart_16550 = "=0.8.1"
pic8259 = { version = "=0.11.0", default-features = false, features = ["stable"] }
pc-keyboard = "=0.9.0"
