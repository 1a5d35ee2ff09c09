[package]
name = "minishell"
version = "0.1.0"
edition = "2021"
publish = false

[dependencies]
rustyline = "*"
rustyline-derive = "*"
sysinfo = "*"
