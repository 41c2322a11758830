[package]
name = "moonshine_object"
version = "0.1.0"
edition = "2021"
publish = false

[dependencies]
bevy_ecs = "*"
moonshine-kind = "*"
moonshine-tag = "*"
moonshine-util = "*"
