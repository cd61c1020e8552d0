[package]
name = "pathtracer"
version = "0.1.0"
edition = "2021"
publish = false

[dependencies]
rand = { version = "0.8", features = ["small_rng"] }
rand_seeder = "0.2"
glam = "0.24"
rayon = "1"
png = "0.17"
indicatif = "0.17"
tobj = "3"
image = { version = "0.24", default-features = false, features = ["jpeg", "png"] }
