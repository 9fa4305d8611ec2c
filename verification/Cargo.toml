[package]
name = "gpu_msm"
version = "0.1.0"
edition = "2021"
publish = false

[dependencies]
blstrs = "0.7"
ff = "0.13"
group = "0.13"
ec-gpu = "0.2"
log = "0.4"
yastl = "0.1"
