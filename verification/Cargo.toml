[package]
name = "prouste"
version = "0.1.0"
edition = "2021"

[dependencies]
select = "*"
unicode-segmentation = "1"
stopwords = "*"
regex = "1"
chardet = "0.2"
encoding = "0.2"
indexmap = "*"
serde = { version = "1", features = ["derive"] }
