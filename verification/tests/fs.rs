use ov6::error::KernelError;
use ov6::fs::inode::{DirEntry, FileSystem, Inode, ROOT_INO, T_DEVICE, T_DIR, T_FILE, T_FREE};
use ov6::fs::log::{decode_header, encode_header, LogAction, LogHeader, SuperBlock};
use ov6::fs::ops::{create, link, unlink, DirWrites};
use ov6::fs::path::Path;
use ov6::fs::tx::{
    begin_readonly_tx, begin_tx, force_begin_tx, BeginAction, BeginEvent, BeginTx, CachedBlock,
    EndAction, LogData,
};
use ov6::sync::spin_lock::WaitError;

fn free(dev: u32) -> Inode {
    Inode {
        dev,
        ty: T_FREE,
        major: 0,
        minor: 0,
        nlink: 0,
        entries: vec![],
    }
}

fn entry(ino: usize, name: &[u8]) -> DirEntry {
    DirEntry {
        ino,
        name: name.to_vec(),
    }
}

fn new_fs() -> FileSystem {
    let mut inodes: Vec<Inode> = (0..20).map(|_| free(1)).collect();
    inodes[ROOT_INO] = Inode {
        ty: T_DIR,
        nlink: 1,
        entries: vec![entry(ROOT_INO, b"."), entry(ROOT_INO, b"..")],
        ..free(1)
    };
    FileSystem { inodes }
}

const ROOM: DirWrites = DirWrites {
    dot: Ok(()),
    dot_dot: Ok(()),
    name: Ok(()),
};

struct User {
    fs: FileSystem,
    cwd: usize,
}

impl User {
    fn new() -> Self {
        User {
            fs: new_fs(),
            cwd: ROOT_INO,
        }
    }

    fn make(&mut self, path: &str, ty: u16) -> Result<usize, KernelError> {
        create(&mut self.fs, self.cwd, &Path::new(path.as_bytes()), ty, 0, 0, &ROOM)
    }

    fn create_dir(&mut self, path: &str) -> Result<usize, KernelError> {
        self.make(path, T_DIR)
    }

    fn create(&mut self, path: &str) -> Result<usize, KernelError> {
        self.make(path, T_FILE)
    }

    fn remove(&mut self, path: &str) -> Result<(), KernelError> {
        unlink(&mut self.fs, self.cwd, &Path::new(path.as_bytes()))
    }

    fn link(&mut self, old: &str, new: &str) -> Result<(), KernelError> {
        link(
            &mut self.fs,
            self.cwd,
            &Path::new(old.as_bytes()),
            &Path::new(new.as_bytes()),
            Ok(()),
        )
    }

    fn open(&self, path: &str) -> Result<usize, KernelError> {
        let path = Path::new(path.as_bytes());
        let n = path.names.len();
        self.fs.resolve(self.cwd, &path, n)
    }

    fn chdir(&mut self, path: &str) {
        self.cwd = self.open(path).unwrap();
        assert_eq!(self.fs.inodes[self.cwd].ty, T_DIR);
    }

    fn nlink(&self, ino: usize) -> u16 {
        self.fs.inodes[ino].nlink
    }
}

#[test]
fn paths_are_split_at_slashes() {
    let path = Path::new(b"/a//bc/");
    assert!(path.absolute);
    assert_eq!(path.names, [b"a".to_vec(), b"bc".to_vec()]);
    let path = Path::new(b"");
    assert!(!path.absolute);
    assert!(path.names.is_empty());
}

#[test]
fn subdir() {
    let mut u = User::new();
    u.create_dir("dd").unwrap();
    let ff = u.create("dd/ff").unwrap();
    assert_eq!(u.remove("dd"), Err(KernelError::DirectoryNotEmpty));
    u.create_dir("/dd/dd").unwrap();
    let inner = u.create("dd/dd/ff").unwrap();
    assert_eq!(u.open("dd/dd/../ff"), Ok(ff));
    u.link("dd/dd/ff", "dd/dd/ffff").unwrap();
    u.remove("dd/dd/ff").unwrap();
    assert_eq!(u.open("dd/dd/ff"), Err(KernelError::FsEntryNotFound));

    u.chdir("dd");
    u.chdir("dd/../../dd");
    u.chdir("dd/../../../dd");
    u.chdir("./..");
    assert_eq!(u.cwd, ROOT_INO);
    assert_eq!(u.open("dd/dd/ffff"), Ok(inner));

    assert_eq!(u.create("dd/ff/ff"), Err(KernelError::NonDirectoryPathComponent));
    assert_eq!(u.create("dd/xx/ff"), Err(KernelError::FsEntryNotFound));
    assert_eq!(u.create("dd"), Err(KernelError::CreateAlreadyExists));
    assert_eq!(
        u.link("dd/ff/ff", "dd/dd/xx"),
        Err(KernelError::NonDirectoryPathComponent)
    );
    assert_eq!(u.link("dd/xx/ff", "dd/dd/xx"), Err(KernelError::FsEntryNotFound));
    assert_eq!(u.link("dd/ff", "dd/dd/ffff"), Err(KernelError::LinkAlreadyExists));
    assert_eq!(
        u.create_dir("dd/ff/ff"),
        Err(KernelError::NonDirectoryPathComponent)
    );
    assert_eq!(u.create_dir("dd/xx/ff"), Err(KernelError::FsEntryNotFound));
    assert_eq!(u.create_dir("dd/dd/ffff"), Err(KernelError::CreateAlreadyExists));
    assert_eq!(u.remove("dd/xx/ff"), Err(KernelError::FsEntryNotFound));
    assert_eq!(u.remove("dd/ff/ff"), Err(KernelError::NonDirectoryPathComponent));
    assert_eq!(u.open("dd/xx"), Err(KernelError::FsEntryNotFound));

    u.remove("dd/dd/ffff").unwrap();
    u.remove("dd/ff").unwrap();
    assert_eq!(u.remove("dd"), Err(KernelError::DirectoryNotEmpty));
    u.remove("dd/dd").unwrap();
    u.remove("dd").unwrap();
    assert_eq!(u.nlink(ROOT_INO), 1);
}

#[test]
fn a_linked_file_outlives_its_first_name() {
    let mut u = User::new();
    let f = u.create("lf1").unwrap();
    u.link("lf1", "lf2").unwrap();
    u.remove("lf1").unwrap();
    assert_eq!(u.open("lf1"), Err(KernelError::FsEntryNotFound));
    assert_eq!(u.open("lf2"), Ok(f));
    assert_eq!(u.link("lf2", "lf2"), Err(KernelError::LinkAlreadyExists));
    u.remove("lf2").unwrap();
    assert_eq!(u.link("lf2", "lf1"), Err(KernelError::FsEntryNotFound));
    assert_eq!(u.link(".", "lf1"), Err(KernelError::NonDirectoryPathComponent));
}

#[test]
fn a_removed_name_can_be_used_again() {
    let mut u = User::new();
    let first = u.create("unlinkread").unwrap();
    u.remove("unlinkread").unwrap();
    // the file itself stays until nobody has it open
    let second = u.create("unlinkread").unwrap();
    assert_ne!(first, second);
    assert_eq!(u.fs.inodes[first].ty, T_FILE);
    assert_eq!(u.nlink(first), 0);
}

#[test]
fn only_fourteen_bytes_of_a_name_count() {
    const N14: &str = "12345678901234";
    const N14_15: &str = "12345678901234/123456789012345";
    const N15_15_15: &str = "123456789012345/123456789012345/123456789012345";
    const N14_14_14: &str = "12345678901234/12345678901234/12345678901234";
    const N14_14: &str = "12345678901234/12345678901234";
    const N15_14: &str = "123456789012345/12345678901234";

    let mut u = User::new();
    u.create_dir(N14).unwrap();
    u.create_dir(N14_15).unwrap();
    u.create(N15_15_15).unwrap();
    u.open(N14_14_14).unwrap();
    assert_eq!(u.create_dir(N14_14), Err(KernelError::CreateAlreadyExists));
    assert_eq!(u.create_dir(N15_14), Err(KernelError::CreateAlreadyExists));
    assert_eq!(u.remove(N15_14), Err(KernelError::DirectoryNotEmpty));
    assert_eq!(u.remove(N14_14), Err(KernelError::DirectoryNotEmpty));
    u.remove(N14_14_14).unwrap();
    assert_eq!(u.remove(N15_15_15), Err(KernelError::FsEntryNotFound));
    u.remove(N14_15).unwrap();
    u.remove(N14).unwrap();
}

#[test]
fn dots_cannot_be_removed() {
    let mut u = User::new();
    u.create_dir("dots").unwrap();
    u.chdir("dots");
    assert_eq!(u.remove("."), Err(KernelError::UnlinkDots));
    assert_eq!(u.remove(".."), Err(KernelError::UnlinkDots));
    u.chdir("/");
    assert_eq!(u.remove("dots/."), Err(KernelError::UnlinkDots));
    assert_eq!(u.remove("dots/.."), Err(KernelError::UnlinkDots));
    u.remove("dots").unwrap();
}

#[test]
fn a_file_is_no_directory() {
    let mut u = User::new();
    u.create("readme").unwrap();
    u.create("dirfile").unwrap();
    assert_eq!(u.open("dirfile/xx"), Err(KernelError::NonDirectoryPathComponent));
    assert_eq!(u.create("dirfile/xx"), Err(KernelError::NonDirectoryPathComponent));
    assert_eq!(u.create_dir("dirfile/xx"), Err(KernelError::NonDirectoryPathComponent));
    assert_eq!(u.remove("dirfile/xx"), Err(KernelError::NonDirectoryPathComponent));
    assert_eq!(u.link("readme", "dirfile/xx"), Err(KernelError::LinkToNonDirectory));
    u.remove("dirfile").unwrap();
}

#[test]
fn the_root_directory_is_always_there() {
    let mut u = User::new();
    u.create("readme").unwrap();
    assert_eq!(u.create_dir(""), Err(KernelError::CreateRootDir));
    assert_eq!(u.create_dir("/"), Err(KernelError::CreateRootDir));
    assert_eq!(u.link("readme", ""), Err(KernelError::LinkRootDir));
    assert_eq!(u.remove("/"), Err(KernelError::UnlinkRootDir));
    assert_eq!(u.open(""), Ok(ROOT_INO));
}

#[test]
fn links_are_counted() {
    let mut u = User::new();
    let f = u.create("a").unwrap();
    assert_eq!(u.nlink(f), 1);
    u.link("a", "b").unwrap();
    assert_eq!(u.nlink(f), 2);
    u.remove("a").unwrap();
    assert_eq!(u.nlink(f), 1);
    assert_eq!(u.open("b"), Ok(f));
    let d = u.create_dir("d").unwrap();
    assert_eq!(u.nlink(d), 1);
    assert_eq!(u.nlink(ROOT_INO), 2);
    u.create_dir("d/e").unwrap();
    assert_eq!(u.nlink(d), 2);
    assert_eq!(u.link("d", "x"), Err(KernelError::NonDirectoryPathComponent));
}

#[test]
fn an_existing_file_is_opened_and_devices_too() {
    let mut u = User::new();
    let f = u.create("a").unwrap();
    assert_eq!(u.create("a"), Ok(f));
    let d = create(
        &mut u.fs,
        ROOT_INO,
        &Path::new(b"console"),
        T_DEVICE,
        1,
        2,
        &ROOM,
    )
    .unwrap();
    assert_eq!((u.fs.inodes[d].major, u.fs.inodes[d].minor), (1, 2));
    assert_eq!(u.create("console"), Ok(d));
    assert_eq!(u.make("a", T_DEVICE), Err(KernelError::CreateAlreadyExists));
}

#[test]
fn there_are_only_so_many_inodes() {
    let mut u = User::new();
    for i in 0..18 {
        u.create(&format!("f{i}")).unwrap();
    }
    assert_eq!(u.create("one_more"), Err(KernelError::NoFreeInode));
}

#[test]
fn a_directory_may_have_no_room() {
    const FULL: Result<(), KernelError> = Err(KernelError::NoFreePage);
    for (writes, entries) in [
        (DirWrites { dot: FULL, ..ROOM }, 0),
        (DirWrites { dot_dot: FULL, ..ROOM }, 1),
        (DirWrites { name: FULL, ..ROOM }, 2),
    ] {
        let mut u = User::new();
        let path = Path::new(b"d");
        let res = create(&mut u.fs, ROOT_INO, &path, T_DIR, 0, 0, &writes);
        assert_eq!(res, Err(KernelError::NoFreePage));
        // the inode that has been taken has no name
        assert_eq!(u.open("d"), Err(KernelError::FsEntryNotFound));
        assert_eq!((u.fs.inodes[2].ty, u.nlink(2)), (T_DIR, 0));
        assert_eq!(u.fs.inodes[2].entries.len(), entries);
        assert_eq!(u.nlink(ROOT_INO), 1);
        assert_eq!(u.create_dir("d"), Ok(3));
    }
    // only a directory has dots to write
    let mut u = User::new();
    let writes = DirWrites { dot: FULL, dot_dot: FULL, ..ROOM };
    let f = create(&mut u.fs, ROOT_INO, &Path::new(b"f"), T_FILE, 0, 0, &writes).unwrap();
    let (old, new) = (Path::new(b"f"), Path::new(b"g"));
    assert_eq!(link(&mut u.fs, ROOT_INO, &old, &new, FULL), FULL);
    assert_eq!(u.nlink(f), 1);
    assert_eq!(u.open("g"), Err(KernelError::FsEntryNotFound));
}

#[test]
fn links_stay_on_one_device() {
    let mut u = User::new();
    let f = u.create("a").unwrap();
    u.fs.inodes[f].dev = 2;
    assert_eq!(u.link("a", "b"), Err(KernelError::LinkCrossDevices));
}

// the log

fn superblock() -> SuperBlock {
    SuperBlock {
        log_start: 2,
        log_len: 31,
    }
}

#[test]
fn where_the_log_is() {
    let sb = superblock();
    assert_eq!(sb.max_log_len(), 30);
    assert_eq!(sb.log_header_block(), 2);
    assert_eq!(sb.log_body_block(4), 7);
}

fn described(actions: &[LogAction]) -> Vec<String> {
    actions
        .iter()
        .map(|a| match a {
            LogAction::CopyToLog { block, slot } => format!("log {block} {slot}"),
            LogAction::WriteHead { blocks } => format!("head {blocks:?}"),
            LogAction::CopyHome { slot, block } => format!("home {slot} {block}"),
        })
        .collect()
}

#[test]
fn a_commit_writes_the_log_before_the_blocks() {
    let mut header = LogHeader::new(superblock());
    assert_eq!(header.max_len(), 30);
    header.push(50);
    header.push(60);
    assert_eq!(header.len(), 2);
    assert_eq!(
        described(&header.commit()),
        [
            "log 50 3",
            "log 60 4",
            "head [50, 60]",
            "home 3 50",
            "home 4 60",
            "head []"
        ]
    );
    assert_eq!(header.len(), 0);
    assert!(header.commit().is_empty());
}

#[test]
fn recovery_installs_what_was_committed() {
    let mut header = LogHeader::new(superblock());
    let stored = encode_header(&[50, 60]);
    assert_eq!(stored.len(), 1024);
    assert_eq!(&stored[..12], &[2, 0, 0, 0, 50, 0, 0, 0, 60, 0, 0, 0]);
    let blocks = decode_header(&stored);
    assert_eq!(blocks, [50, 60]);
    assert_eq!(
        described(&header.recover_from_log(&blocks)),
        ["home 3 50", "home 4 60", "head []"]
    );
}

/// A disk whose blocks are single numbers, with a cache before it.
#[derive(Clone)]
struct TinyDisk {
    blocks: Vec<u32>,
    head: Vec<u64>,
    cache: Vec<u32>,
}

impl TinyDisk {
    fn perform(&mut self, action: &LogAction) {
        match action {
            LogAction::CopyToLog { block, slot } => {
                self.blocks[*slot as usize] = self.cache[*block as usize];
            }
            LogAction::WriteHead { blocks } => self.head = blocks.clone(),
            LogAction::CopyHome { slot, block } => {
                self.blocks[*block as usize] = self.blocks[*slot as usize];
            }
        }
    }

    fn recover(&mut self) {
        let blocks = decode_header(&encode_header(&self.head));
        for action in LogHeader::new(superblock()).recover_from_log(&blocks) {
            self.perform(&action);
        }
    }
}

#[test]
fn a_crash_leaves_all_or_nothing() {
    let mut cache = vec![0; 100];
    (cache[50], cache[60], cache[70]) = (5, 6, 7);
    let before = TinyDisk {
        blocks: vec![0; 100],
        head: vec![],
        cache,
    };
    let mut header = LogHeader::new(superblock());
    for block in [50, 60, 70] {
        header.push(block);
    }
    let actions = header.commit();
    for n in 0..=actions.len() {
        let mut disk = before.clone();
        for action in &actions[..n] {
            disk.perform(action);
        }
        disk.recover();
        let found = (disk.blocks[50], disk.blocks[60], disk.blocks[70]);
        // three blocks go to the log before the header does
        assert_eq!(found, if n > 3 { (5, 6, 7) } else { (0, 0, 0) });
        let once = disk.blocks.clone();
        disk.recover();
        assert_eq!(disk.blocks, once);
    }
}

#[test]
fn operations_share_the_log() {
    let mut log = LogData::new(LogHeader::new(superblock()));
    // three operations of ten blocks each fit into the log
    for _ in 0..3 {
        assert!(matches!(log.begin_op(BeginEvent::Locked), BeginAction::Begun));
    }
    assert!(matches!(log.begin_op(BeginEvent::Locked), BeginAction::Wait));
    assert!(matches!(
        log.begin_op(BeginEvent::Killed),
        BeginAction::Fail(WaitError::WaitingProcessAlreadyKilled)
    ));
    assert!(!log.force_begin_op());
    log.write(70);
    log.write(71);
    log.write(70);
    assert!(matches!(log.end_op(), EndAction::Notify));
    assert!(matches!(log.end_op(), EndAction::Notify));
    let EndAction::Commit(mut header) = log.end_op() else {
        panic!("the last operation commits");
    };
    // a block that is written again is logged once
    assert_eq!(header.len(), 2);
    // nobody begins while the log is being committed
    assert!(matches!(log.begin_op(BeginEvent::Woken), BeginAction::Wait));
    header.commit();
    log.finish_commit(header);
    assert!(log.force_begin_op());
}

#[test]
fn transactions_log_changed_blocks() {
    let mut log = LogData::new(LogHeader::new(superblock()));
    let BeginTx::Begun(tx) = begin_tx(&mut log, BeginEvent::Locked) else {
        panic!("the log is free");
    };
    let cached = CachedBlock {
        valid: false,
        dirty: false,
        data: vec![],
    };
    let guard = tx.get_block(1, 99).lock(cached).read(vec![7; 1024]);
    assert_eq!(guard.cached.data[0], 7);
    let cached = guard.release(&mut log);
    assert_eq!(log.header.as_ref().unwrap().len(), 0);
    let guard = tx.get_block(1, 99).lock(cached).zeroed();
    assert!(guard.cached.data.iter().all(|b| *b == 0));
    assert!(guard.cached.dirty);
    guard.release(&mut log);
    assert_eq!(log.header.as_ref().unwrap().len(), 1);
    assert!(tx.to_writable().is_some());
    assert!(matches!(tx.end(&mut log), Some(EndAction::Commit(_))));
}

#[test]
fn readonly_transactions_leave_the_log_alone() {
    let mut log = LogData::new(LogHeader::new(superblock()));
    let tx = begin_readonly_tx();
    assert!(tx.to_writable().is_none());
    assert!(tx.end(&mut log).is_none());
    assert_eq!(log.outstanding, 0);
    let tx = force_begin_tx(&mut log).unwrap();
    assert_eq!(log.outstanding, 1);
    assert!(tx.end(&mut log).is_some());
}
