[package]
name = "kari"
version = "0.1.0"
edition = "2021"
publish = false

[dependencies]
acc_reader = "2.0"
clap = "2.34"
decorum = "0.3"
termion = "1.5"
walkdir = "2"
