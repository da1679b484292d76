//! The interface of a virtio block device.
use vstd::prelude::*;

verus! {

/// Bytes in a sector of a block device.
pub const BLK_SECTOR_SIZE: u64 = 512;

/// Bytes that the header of a request takes up.
pub const BLK_REQ_SIZE: u64 = 16;

/// The registers of a device.
#[derive(Debug, Clone, Copy, PartialEq, Eq, Structural)]
pub enum MmioRegister {
    MagicValue,
    Version,
    DeviceId,
    VendorId,
    DeviceFeatures,
    DriverFeatures,
    QueueSel,
    QueueNumMax,
    QueueNum,
    QueueReady,
    QueueNotify,
    InterruptStatus,
    InterruptAck,
    Status,
    QueueDescLow,
    QueueDescHigh,
    DriverDescLow,
    DriverDescHigh,
    DeviceDescLow,
    DeviceDescHigh,
}

impl MmioRegister {
    /// Where a register lies behind the address of the device.
    pub open spec fn place(self) -> u64 {
        match self {
            MmioRegister::MagicValue => 0x000,
            MmioRegister::Version => 0x004,
            MmioRegister::DeviceId => 0x008,
            MmioRegister::VendorId => 0x00c,
            MmioRegister::DeviceFeatures => 0x010,
            MmioRegister::DriverFeatures => 0x020,
            MmioRegister::QueueSel => 0x030,
            MmioRegister::QueueNumMax => 0x034,
            MmioRegister::QueueNum => 0x038,
            MmioRegister::QueueReady => 0x044,
            MmioRegister::QueueNotify => 0x050,
            MmioRegister::InterruptStatus => 0x060,
            MmioRegister::InterruptAck => 0x064,
            MmioRegister::Status => 0x070,
            MmioRegister::QueueDescLow => 0x080,
            MmioRegister::QueueDescHigh => 0x084,
            MmioRegister::DriverDescLow => 0x090,
            MmioRegister::DriverDescHigh => 0x094,
            MmioRegister::DeviceDescLow => 0x0a0,
            MmioRegister::DeviceDescHigh => 0x0a4,
        }
    }

    /// Returns where a register lies behind the address of the device.
    pub fn offset(self) -> (r: u64)
        ensures
            r == self.place(),
    {
        match self {
            MmioRegister::MagicValue => 0x000,
            MmioRegister::Version => 0x004,
            MmioRegister::DeviceId => 0x008,
            MmioRegister::VendorId => 0x00c,
            MmioRegister::DeviceFeatures => 0x010,
            MmioRegister::DriverFeatures => 0x020,
            MmioRegister::QueueSel => 0x030,
            MmioRegister::QueueNumMax => 0x034,
            MmioRegister::QueueNum => 0x038,
            MmioRegister::QueueReady => 0x044,
            MmioRegister::QueueNotify => 0x050,
            MmioRegister::InterruptStatus => 0x060,
            MmioRegister::InterruptAck => 0x064,
            MmioRegister::Status => 0x070,
            MmioRegister::QueueDescLow => 0x080,
            MmioRegister::QueueDescHigh => 0x084,
            MmioRegister::DriverDescLow => 0x090,
            MmioRegister::DriverDescHigh => 0x094,
            MmioRegister::DeviceDescLow => 0x0a0,
            MmioRegister::DeviceDescHigh => 0x0a4,
        }
    }
}

/// Status: the driver has noticed the device.
pub const STATUS_ACKNOWLEDGE: u32 = 1;

/// Status: the driver knows how to drive the device.
pub const STATUS_DRIVER: u32 = 2;

/// Status: the driver is ready.
pub const STATUS_DRIVER_OK: u32 = 4;

/// Status: the features are agreed on.
pub const STATUS_FEATURES_OK: u32 = 8;

/// Feature: the disk is read-only.
pub const BLK_RO: u32 = 0x20;

/// Feature: the device takes SCSI commands.
pub const BLK_SCSI: u32 = 0x80;

/// Feature: the write cache can be configured.
pub const BLK_CONFIG_WCE: u32 = 0x800;

/// Feature: the device has more than one queue.
pub const BLK_MQ: u32 = 0x1000;

/// Feature: descriptors can have any layout.
pub const ANY_LAYOUT: u32 = 0x800_0000;

/// Feature: descriptors can be indirect.
pub const RING_INDIRECT_DESC: u32 = 0x1000_0000;

/// Feature: the rings hold event indices.
pub const RING_EVENT_IDX: u32 = 0x2000_0000;

/// The features that the driver does not use.
pub const UNUSED_FEATURES: u32 = 0x3800_18a0;

/// What the device does with a buffer.
#[derive(Debug, Clone, Copy, PartialEq, Eq, Structural)]
pub struct VirtqDescFlags {
    /// There is another descriptor.
    pub next: bool,
    /// The device writes to the buffer.
    pub write: bool,
}

/// A descriptor of a buffer.
#[derive(Debug, Clone, Copy, PartialEq, Eq, Structural)]
pub struct VirtqDesc {
    pub addr: u64,
    pub len: u32,
    pub flags: VirtqDescFlags,
    pub next: u16,
}

impl VirtqDesc {
    /// A descriptor that describes nothing.
    pub open spec fn unused() -> Self {
        VirtqDesc { addr: 0, len: 0, flags: VirtqDescFlags { next: false, write: false }, next: 0 }
    }

    /// A descriptor that describes nothing.
    pub fn empty() -> (r: Self)
        ensures
            r == Self::unused(),
    {
        VirtqDesc { addr: 0, len: 0, flags: VirtqDescFlags { next: false, write: false }, next: 0 }
    }
}

/// Whether a request reads or writes.
#[derive(Debug, Clone, Copy, PartialEq, Eq, Structural)]
pub enum VirtioBlkReqType {
    /// Read the disk.
    In,
    /// Write the disk.
    Out,
}

/// The header of a request.
#[derive(Debug, Clone, Copy, PartialEq, Eq, Structural)]
pub struct VirtioBlkReq {
    pub ty: VirtioBlkReqType,
    pub reserved: u32,
    pub sector: u64,
}

} // verus!
