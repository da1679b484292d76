use ov6::syscall::{
    OpenFlags, Register, RegisterDecodeError, RegisterValue, SocketAddrV4, SocketAddrV4Pod,
    StatType, SyscallCode, UserMutRef, UserMutSlice, UserRef, UserSlice,
};

#[test]
fn system_calls_are_numbered() {
    assert_eq!(SyscallCode::Fork.code(), 1);
    assert_eq!(SyscallCode::DumpUserPageTable.code(), 33);
    assert_eq!(SyscallCode::from_repr(13), Some(SyscallCode::Open));
    assert_eq!(SyscallCode::from_repr(0), None);
    assert_eq!(SyscallCode::from_repr(34), None);
    for n in 1..=33 {
        assert_eq!(SyscallCode::from_repr(n).unwrap().code(), n);
    }
}

#[test]
fn system_calls_have_names() {
    assert_eq!(SyscallCode::parse_name("fork"), Some(SyscallCode::Fork));
    assert_eq!(SyscallCode::parse_name("FORK"), Some(SyscallCode::Fork));
    assert_eq!(SyscallCode::parse_name("spoon"), None);
    for n in 1..=33 {
        let code = SyscallCode::from_repr(n).unwrap();
        assert_eq!(SyscallCode::parse_name(code.name()), Some(code));
    }
}

#[test]
fn flags_have_bits() {
    let flags = OpenFlags {
        write_only: true,
        read_write: false,
        create: true,
        trunc: false,
    };
    assert_eq!(flags.bits(), 0x201);
    assert_eq!(OpenFlags::from_bits(0x201), Some(flags));
    assert_eq!(OpenFlags::from_bits(0x402).unwrap().bits(), 0x402);
    assert_eq!(OpenFlags::from_bits(0x4), None);
}

#[test]
fn types_of_files_are_numbered() {
    for (ty, n) in [(StatType::Dir, 1), (StatType::File, 2), (StatType::Dev, 3)] {
        assert_eq!(ty.repr(), n);
        assert_eq!(StatType::from_repr(n), Some(ty));
    }
    assert_eq!(StatType::from_repr(0), None);
}

#[test]
fn socket_addresses_keep_their_bytes() {
    let addr = SocketAddrV4 {
        ip: 0x0a00_0202,
        port: 0x1f90,
    };
    let pod = SocketAddrV4Pod::from_addr(addr);
    assert_eq!(pod.to_addr(), addr);
    assert_eq!((pod.addr, pod.port), ([2, 2, 0, 10], [0x90, 0x1f]));
}

#[test]
fn values_go_through_registers() {
    assert_eq!(u64::try_decode(u64::MAX.encode()), Ok(u64::MAX));
    assert_eq!(u32::try_decode(7u32.encode()), Ok(7));
    assert_eq!(
        u32::try_decode(Register::new([1 << 32])),
        Err(RegisterDecodeError::IntConversion)
    );
    assert_eq!(
        OpenFlags::try_decode(Register::new([4])),
        Err(RegisterDecodeError::InvalidOpenFlags(4))
    );
    let flags = OpenFlags::from_bits(0x600).unwrap();
    assert_eq!(OpenFlags::try_decode(flags.encode()), Ok(flags));
}

#[test]
fn slices_are_cut_by_elements() {
    let values = [1u32, 2, 3, 4];
    let s = UserSlice::new(&values);
    assert_eq!(s.addr(), values.as_ptr().addr() as u64);
    assert_eq!((s.len(), s.size()), (4, Some(16)));
    assert_eq!(s.nth(2).addr(), s.addr() + 8);
    assert_eq!(s.skip(1).addr(), s.addr() + 4);
    assert_eq!(s.skip(1).len(), 3);
    assert_eq!(s.take(3).len(), 3);
    assert_eq!(s.cast::<u8>().len(), 16);
    let huge: UserSlice<u64> = UserSlice::from_raw_parts(0, u64::MAX);
    assert_eq!(huge.size(), None);
}

#[test]
fn mutable_slices_are_cut_by_elements() {
    let mut values = [1u16, 2, 3];
    let addr = values.as_ptr().addr() as u64;
    let mut s = UserMutSlice::new(&mut values);
    assert_eq!((s.addr(), s.len(), s.size()), (addr, 3, Some(6)));
    assert_eq!(s.nth_mut(1).addr(), addr + 2);
    assert_eq!(s.skip_mut(2).len(), 1);
    assert_eq!(s.take_mut(2).len(), 2);
    assert_eq!(s.cast_mut::<u8>().len(), 6);
}

#[test]
fn references_have_addresses() {
    let mut x = 5u32;
    let at = std::ptr::from_ref(&x).addr() as u64;
    assert_eq!(UserRef::new(&x).addr(), at);
    let mut r = UserMutRef::new(&mut x);
    assert_eq!((r.addr(), r.size()), (at, 4));
    assert_eq!(r.as_bytes_mut().addr(), at);
    let f: UserRef<u8> = UserRef::from_fn(0x1234);
    assert_eq!(f.addr(), 0x1234);
}
