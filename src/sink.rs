use vstd::prelude::*;

verus! {

/// Delivery semantics at the sink boundary.
#[derive(Debug, Clone, Copy, PartialEq, Eq, Structural)]
pub enum DeliveryGuarantee {
    AtMostOnce,
    AtLeastOnce,
    ExactlyOnce,
}

/// Options handed to a sink with each write.
#[derive(Debug, Clone, Copy, PartialEq, Eq, Structural)]
pub struct WriteOptions {
    pub require_ack: bool,
    /// Advisory timeout in milliseconds.
    pub timeout_ms: u32,
    pub guarantee: DeliveryGuarantee,
}

impl WriteOptions {
    pub fn at_least_once() -> (o: WriteOptions)
        ensures
            o == (WriteOptions { require_ack: true, timeout_ms: 30000, guarantee: DeliveryGuarantee::AtLeastOnce }),
    {
        WriteOptions { require_ack: true, timeout_ms: 30000, guarantee: DeliveryGuarantee::AtLeastOnce }
    }

    pub fn exactly_once() -> (o: WriteOptions)
        ensures
            o == (WriteOptions { require_ack: true, timeout_ms: 60000, guarantee: DeliveryGuarantee::ExactlyOnce }),
    {
        WriteOptions { require_ack: true, timeout_ms: 60000, guarantee: DeliveryGuarantee::ExactlyOnce }
    }
}

} // verus!
