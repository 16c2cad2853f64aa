//! An MQTT 3.1.1 broker core: the wire codec, the per-connection protocol
//! state machine, the session store and the topic registry.
#![allow(non_camel_case_types)]
#![allow(non_snake_case)]

pub mod codec;
pub mod handler;
pub mod opt;
pub mod owners;
pub mod pub_sub;
pub mod qos;
pub mod request;
pub mod response;
pub mod server;
pub mod session;
pub mod wire;

pub use opt::Opt;
pub use qos::Qos;
