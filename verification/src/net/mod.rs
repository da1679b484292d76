//! Messages that go over the network.

pub mod dns;
