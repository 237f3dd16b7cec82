[package]
name = "pathclosure"
version = "0.1.0"
edition = "2021"
publish = false

[dependencies]
elf = "*"
findshlibs = "*"
infer = "*"
libloading = "*"
path-absolutize = "*"
regex = "*"
shlex = "*"
which = "*"
