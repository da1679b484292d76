use ov6::fs::virtio::{MmioRegister, VirtioBlkReqType, STATUS_DRIVER_OK};
use ov6::fs::virtio_disk::{
    addr_high, addr_low, handle_interrupt, read_or_write, Disk, DmaAddrs, InitAction, InitError,
    InitState, QueueLayout, Request, Transfer, TransferAction,
};

const ADDRS: DmaAddrs = DmaAddrs {
    ops: 0x1000,
    status: 0x2000,
};

fn request(to_device: bool) -> Request {
    Request {
        to_device,
        addr: 0x8000_0000,
        len: 1024,
    }
}

#[test]
fn addresses_are_split_into_halves() {
    assert_eq!(addr_low(0x1234_5678_9abc_def0), 0x9abc_def0);
    assert_eq!(addr_high(0x1234_5678_9abc_def0), 0x1234_5678);
}

#[test]
fn requests_have_a_direction() {
    assert!(matches!(request(false).ty(), VirtioBlkReqType::In));
    assert!(matches!(request(true).ty(), VirtioBlkReqType::Out));
    assert!(request(false).flag().write);
    assert!(!request(true).flag().write);
    assert_eq!(request(true).len(), 1024);
}

#[test]
fn descriptors_are_allocated_by_threes() {
    let mut disk: Disk<8> = Disk::new();
    let first = disk.alloc3_desc().unwrap();
    assert_eq!(first, [0, 1, 2]);
    assert_eq!(disk.alloc3_desc().unwrap(), [3, 4, 5]);
    // two are left, which is not enough, and they stay free
    assert!(disk.alloc3_desc().is_none());
    assert_eq!(disk.alloc_desc(), Some(6));
    disk.free_desc(1);
    assert_eq!(disk.alloc_desc(), Some(1));
}

#[test]
fn a_request_is_a_chain_of_three() {
    let mut disk: Disk<8> = Disk::new();
    let idx = disk.alloc3_desc().unwrap();
    disk.send_request(0x2000, &request(false), idx, &ADDRS);
    let [a, b, c] = idx.map(usize::from);
    assert_eq!(disk.desc[a].addr, 0x1000);
    assert_eq!(disk.desc[a].len, 16);
    assert!(disk.desc[a].flags.next && !disk.desc[a].flags.write);
    assert_eq!(usize::from(disk.desc[a].next), b);
    assert_eq!(disk.desc[b].addr, 0x8000_0000);
    assert_eq!(disk.desc[b].len, 1024);
    assert!(disk.desc[b].flags.next && disk.desc[b].flags.write);
    assert_eq!(usize::from(disk.desc[b].next), c);
    assert_eq!(disk.desc[c].addr, 0x2000);
    assert_eq!(disk.desc[c].len, 1);
    assert!(!disk.desc[c].flags.next && disk.desc[c].flags.write);
    assert_eq!(disk.ops[a].sector, 16);
    assert_eq!(disk.info[a].status, 0xff);
    assert!(disk.info[a].in_progress);
    assert_eq!(disk.avail_ring[0], idx[0]);
    assert_eq!(disk.avail_idx, 1);
}

#[test]
fn a_transfer_goes_through_its_steps() {
    let mut disk: Disk<8> = Disk::new();
    let req = request(true);
    let (transfer, action) = read_or_write(&mut disk, Transfer::Waiting, 0, &req, &ADDRS);
    assert!(matches!(action, TransferAction::Notify));
    assert_eq!((disk.avail_ring[0], disk.avail_idx, disk.used_idx), (0, 1, 0));
    let (transfer, action) = read_or_write(&mut disk, transfer, 0, &req, &ADDRS);
    assert!(matches!(action, TransferAction::WaitForCompletion(0)));

    let mut used = [0u32; 8];
    used[0] = 0;
    let mut statuses = [0xffu8; 8];
    statuses[0] = 0;
    let outcome = handle_interrupt(&mut disk, 1, 1, &used, &statuses);
    assert_eq!(outcome.ack, 1);
    assert_eq!(outcome.done, [0]);
    assert_eq!(disk.used_idx, 1);

    let (transfer, action) = read_or_write(&mut disk, transfer, 0, &req, &ADDRS);
    assert!(matches!(action, TransferAction::Done));
    assert!(matches!(transfer, Transfer::Finished));
    assert!(disk.free.iter().all(|f| *f));
}

#[test]
fn a_transfer_waits_for_descriptors() {
    let mut disk: Disk<8> = Disk::new();
    disk.alloc3_desc().unwrap();
    disk.alloc3_desc().unwrap();
    let (transfer, action) =
        read_or_write(&mut disk, Transfer::Waiting, 0, &request(true), &ADDRS);
    assert!(matches!(action, TransferAction::WaitForDesc));
    assert!(matches!(transfer, Transfer::Waiting));
}

const QUEUE: QueueLayout = QueueLayout {
    desc: 0x1_0000_1000,
    avail: 0x1_0000_2000,
    used: 0x1_0000_3000,
};

struct Device {
    magic: u32,
    version: u32,
    device: u32,
    vendor: u32,
    features_ok: bool,
    ready: u32,
    max: u32,
}

impl Device {
    fn good() -> Self {
        Device {
            magic: 0x7472_6976,
            version: 2,
            device: 2,
            vendor: 0x554d_4551,
            features_ok: true,
            ready: 0,
            max: 1024,
        }
    }

    /// Sets the device up; returns what was written, or the error.
    fn run(&self) -> Result<Vec<(u64, u32)>, InitError> {
        let mut state = InitState::new();
        let mut written = vec![];
        let mut value = 0;
        let mut status = 0;
        loop {
            match state.init::<8>(value, &QUEUE) {
                InitAction::Read(reg) => {
                    value = match reg {
                        MmioRegister::MagicValue => self.magic,
                        MmioRegister::Version => self.version,
                        MmioRegister::DeviceId => self.device,
                        MmioRegister::VendorId => self.vendor,
                        MmioRegister::DeviceFeatures => 0xffff_ffff,
                        MmioRegister::Status if self.features_ok => status,
                        MmioRegister::Status => status & !8,
                        MmioRegister::QueueReady => self.ready,
                        MmioRegister::QueueNumMax => self.max,
                        _ => 0,
                    };
                }
                InitAction::Write(reg, v) => {
                    if matches!(reg, MmioRegister::Status) {
                        status = v;
                    }
                    written.push((reg.offset(), v));
                }
                InitAction::Done => return Ok(written),
                InitAction::Fail(e) => return Err(e),
            }
        }
    }
}

#[test]
fn a_device_is_set_up() {
    let written = Device::good().run().unwrap();
    assert_eq!(
        written,
        [
            (0x70, 0),
            (0x70, 1),
            (0x70, 3),
            (0x20, !0x3800_18a0),
            (0x70, 0xb),
            (0x30, 0),
            (0x38, 8),
            (0x80, 0x1000),
            (0x84, 1),
            (0x90, 0x2000),
            (0x94, 1),
            (0xa0, 0x3000),
            (0xa4, 1),
            (0x44, 1),
            (0x70, 0xb | STATUS_DRIVER_OK),
        ]
    );
}

#[test]
fn a_wrong_device_is_refused() {
    let good = Device::good;
    let run = |d: Device| d.run().unwrap_err();
    assert_eq!(run(Device { magic: 1, ..good() }), InitError::WrongMagicValue(1));
    assert_eq!(run(Device { version: 1, ..good() }), InitError::WrongVersion(1));
    assert_eq!(run(Device { device: 1, ..good() }), InitError::WrongDeviceId(1));
    assert_eq!(run(Device { vendor: 1, ..good() }), InitError::WrongVendorId(1));
    assert_eq!(run(Device { features_ok: false, ..good() }), InitError::FeaturesRefused);
    assert_eq!(run(Device { ready: 1, ..good() }), InitError::QueueInUse);
    assert_eq!(run(Device { max: 0, ..good() }), InitError::NoQueue);
    assert_eq!(run(Device { max: 4, ..good() }), InitError::QueueTooShort(4));
}
