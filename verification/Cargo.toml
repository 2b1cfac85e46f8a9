[package]
name = "healpix_geo"
version = "0.1.0"
edition = "2021"
publish = false

[dependencies]
moc = "*"
cdshealpix = "*"
rayon = "*"
geodesy = "*"
