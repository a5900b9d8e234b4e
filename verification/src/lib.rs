//! Hardware-bootstrap core of a minimal kernel: configuration-space
//! enumeration of a USB2 host controller, a bump physical-frame allocator,
//! a fixed-slot MMIO mapper, the controller probe/reset sequence, and the
//! interrupt-to-task scancode bridge.

pub mod bridge;
pub mod controller;
pub mod frames;
pub mod line;
pub mod mapping;
pub mod pci;
