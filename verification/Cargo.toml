[package]
name = "rpt"
version = "0.1.0"
edition = "2021"
publish = false

[dependencies]
nalgebra-glm = "*"
image = "*"
kd-tree = "*"
rand = "0.8"
rand_distr = "0.4"
rayon = "*"
typenum = "*"
