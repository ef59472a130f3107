[package]
name = "blitz_dom"
version = "0.1.0"
edition = "2021"
publish = false

[dependencies]
icu_casemap = "2"
icu_segmenter = "2"
icu_properties = "2"
icu_locale_core = "2"
percent-encoding = "2"
html-escape = "0.2"
