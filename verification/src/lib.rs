use vstd::prelude::*;

pub mod idtable;
pub mod installer;
pub mod intel_gpu;
pub mod intel_gpu_compute;
pub mod intel_i225;
pub mod ipc;
pub mod knowledge;
pub mod kvdb;
pub mod kvm;
pub mod leak_detect;
pub mod libc;
pub mod merlion_proxy;
pub mod log_rotate;
pub mod login;
pub mod llm;
pub mod ipc_ext;
pub mod iptables;
pub mod ipv6;
pub mod jobs;
pub mod json;
pub mod json_laws;
pub mod kdb;
pub mod kconfig;
pub mod kconfig_ext;
pub mod ksyms;
pub mod keyboard;
pub mod keymap;
pub mod microkernel;
pub mod midi;
pub mod text;

verus! {
} // verus!
