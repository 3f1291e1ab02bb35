[package]
name = "propfile"
version = "0.1.0"
edition = "2021"
publish = false

[dependencies]
byteorder = "=1.5.0"
RustyXML = "0.3"
time = "=0.1.45"
iup = "=0.0.4"
