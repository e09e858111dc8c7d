[package]
name = "gigs"
version = "0.1.0"
edition = "2021"
publish = false

[dependencies]
crossbeam-channel = "0.5"
bevy_app = "0.15"
bevy_ecs = "0.15"
bevy_utils = "0.15"
disqualified = "*"
