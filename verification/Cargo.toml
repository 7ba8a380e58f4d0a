[package]
name = "bevy_trait_resource"
version = "0.1.0"
edition = "2021"
publish = false

[dependencies]
bevy_ecs = "0.10"
bevy_app = "0.10"
