[package]
name = "pluginproxy_transpiler"
version = "0.1.0"
edition = "2021"
publish = false

[dependencies]
full_moon = "*"
glob-match = "*"
rbx_dom_weak = "*"
rbx_binary = "*"
rbx_xml = "*"
