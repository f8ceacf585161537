[package]
name = "biodivine_algo_smt_inference"
version = "0.1.0"
edition = "2021"
publish = false

[dependencies]
biodivine-lib-bdd = "=0.6.3"
biodivine-lib-param-bn = "=0.7.2"
csv = "=1.4.0"
itertools = "=0.15.0"
num-rational = "=0.4.2"
num-traits = "=0.2.19"
z3 = "=0.21.1"
