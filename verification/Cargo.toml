[package]
name = "localized_numbers"
version = "0.1.0"
edition = "2021"
publish = false

[dependencies]
fixed_decimal = { version = "=0.7.3", features = ["ryu"] }
icu_decimal = "=2.4.0"
icu_locale_core = "=2.4.0"
icu_plurals = "=2.4.0"
icu_provider = { version = "=2.4.0", features = ["sync"] }
