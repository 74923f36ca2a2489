//! Device bookkeeping: block I/O queues, the device registry and the
//! interrupt handler table.
pub mod bio;
pub mod devtree;
pub mod irq;
