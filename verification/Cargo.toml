[package]
name = "rolldown_core"
version = "0.1.0"
edition = "2021"
publish = false

[dependencies]
async-trait = "*"
futures = "*"
nodejs-resolver = "*"
petgraph = "*"
rayon = "*"
schemars = "*"
serde = { version = "*", features = ["derive"] }
serde_json = "*"
sugar_path = "*"
swc_core = { version = "*", features = ["common", "ecma_ast", "ecma_parser", "ecma_transforms", "ecma_transforms_proposal", "ecma_transforms_react", "ecma_transforms_typescript", "ecma_visit"] }
tokio = { version = "*", features = ["rt-multi-thread", "macros", "sync", "fs"] }
