//! Tests for the arithmetic helpers, the hexdump renderer, trap-cause
//! names, the register-region model and the serial driver, and the
//! device tree parser.

use rvkernel::math;
use rvkernel::heap;
use rvkernel::debug::hexdump;
use rvkernel::trap::trap_reason;
use rvkernel::trap::TrapContext;
use rvkernel::mmio::MmioRegion;
use rvkernel::uart::Uart;
use rvkernel::device_tree::DeviceTree;
use rvkernel::device_tree::DeviceTreeStructure;
use rvkernel::device_tree::parse_hex;
use rvkernel::device_tree::str_from_bytes;

#[test]
fn test_round_up() {
    assert_eq!(math::round_up(0x0, 0x10), 0x10);
    assert_eq!(math::round_up(0x1, 0x10), 0x10);
    assert_eq!(math::round_up(0x11, 0x10), 0x20);
    assert_eq!(math::round_up(0x21, 0x10), 0x30);
    assert_eq!(math::round_up(0x100, 0x10), 0x100);
}

#[test]
fn test_alignment_helpers() {
    assert_eq!(math::align_down_by(0x1234, 0x100), 0x1200);
    assert_eq!(math::align_up_by(0x1234, 0x100), 0x1300);
    assert_eq!(math::align_up_by(0x1200, 0x100), 0x1200);
    assert_eq!(math::align_up_by(0, 0x100), 0);
    assert!(math::is_power_of_two(64));
    assert!(!math::is_power_of_two(65));
    assert!(math::is_aligned_by(0x4000, 0x1000));
    assert!(!math::is_aligned_by(0x4008, 0x1000));
    assert!(math::is_ptr_aligned_by(0x4000, 0x1000));
    assert_eq!(heap::round_next(0x1001, 0x1000), 0x2000);
    assert_eq!(heap::round_next(0x1000, 0x1000), 0x1000);
    assert_eq!(heap::get_size(), 16 * 1024 * 1024);
}

#[test]
fn test_hexdump_exact() {
    let out = hexdump(&[0xab, 0xcd]);
    assert_eq!(out, b"0000 abcd \n".to_vec());
    let empty = hexdump(&[]);
    assert_eq!(empty, b"\n".to_vec());
    let line = hexdump(&[0u8; 16]);
    assert_eq!(line, b"0000 0000 0000 0000 0000 0000 0000 0000 0000 \n\n".to_vec());
}

#[test]
fn test_trap_reason_names() {
    assert_eq!(trap_reason(5), "Supervisor timer interrupt");
    assert_eq!(trap_reason(9), "Supervisor external interrupt");
    assert_eq!(trap_reason(3 | 0x100_0000_0000_0000), "Breakpoint");
    assert_eq!(trap_reason(0xdead), "Unknown reason");
    let ctx = TrapContext::empty();
    assert_eq!(ctx.satp, 0);
    assert_eq!(ctx.regs[31], 0);
}

#[test]
fn test_mmio_region_rw() {
    let mut rgn = MmioRegion::from_slice(vec![0u8; 8]);
    rgn.write(3, 0xaa);
    assert_eq!(rgn.read(3), 0xaa);
    assert_eq!(rgn.read(0), 0);
}

#[test]
fn test_uart_configure() {
    let mut uart = Uart::new(vec![0u8; 8]);
    uart.putc(b'x');
    uart.init(vec![0u8; 8]);
    uart.write_bytes(b"hello");
}

#[test]
fn test_parse_hex() {
    assert_eq!(parse_hex(b"10000000"), Some(0x10000000));
    assert_eq!(parse_hex(b"c000000"), Some(0xc000000));
    assert_eq!(parse_hex(b"DEADbeef"), Some(0xdeadbeef));
    assert_eq!(parse_hex(b""), None);
    assert_eq!(parse_hex(b"12g4"), None);
    assert_eq!(parse_hex(b"ffffffffffffffff"), Some(usize::MAX));
    assert_eq!(parse_hex(b"10000000000000000"), None);
}

#[test]
fn test_str_from_bytes() {
    assert_eq!(str_from_bytes(b"uart\0junk"), Some(&b"uart"[..]));
    assert_eq!(str_from_bytes(b"\0"), Some(&b""[..]));
    assert_eq!(str_from_bytes(b"nozero"), None);
    assert_eq!(str_from_bytes(b""), None);
    // Multi-byte names pass; ill-formed bytes are rejected.
    assert_eq!(str_from_bytes(b"caf\xc3\xa9\0x"), Some(&b"caf\xc3\xa9"[..]));
    assert_eq!(str_from_bytes(b"\xff\0"), None);
    assert_eq!(str_from_bytes(b"\xc0\x80\0"), None);
    assert_eq!(str_from_bytes(b"\xe0\x80\x80\0"), None);
    assert_eq!(str_from_bytes(b"\xf0\x90\x80\x80\0"), Some(&b"\xf0\x90\x80\x80"[..]));
}

fn push_be32(out: &mut Vec<u8>, v: u32) {
    out.push((v >> 24) as u8);
    out.push((v >> 16) as u8);
    out.push((v >> 8) as u8);
    out.push(v as u8);
}

/// A tiny flattened tree: one node `uart@10000000` with a 16-byte `reg`
/// property holding the two big-endian words 0x10000000 and 0x100.
fn tiny_dtb() -> Vec<u8> {
    let mut structure = Vec::new();
    push_be32(&mut structure, 1); // BEGIN_NODE
    structure.extend_from_slice(b"uart@10000000\0");
    while structure.len() % 4 != 0 {
        structure.push(0);
    }
    push_be32(&mut structure, 3); // PROP
    push_be32(&mut structure, 16); // len
    push_be32(&mut structure, 0); // nameoff -> "reg"
    push_be32(&mut structure, 0);
    push_be32(&mut structure, 0x10000000);
    push_be32(&mut structure, 0);
    push_be32(&mut structure, 0x100);
    push_be32(&mut structure, 2); // END_NODE
    push_be32(&mut structure, 9); // END
    let strings = b"reg\0".to_vec();

    let header_len = 40u32;
    let off_struct = header_len;
    let size_struct = structure.len() as u32;
    let off_strings = off_struct + size_struct;
    let size_strings = strings.len() as u32;
    let total = off_strings + size_strings;

    let mut blob = Vec::new();
    push_be32(&mut blob, 0xd00d_feed); // magic
    push_be32(&mut blob, total); // totalsize
    push_be32(&mut blob, off_struct); // off_dt_struct
    push_be32(&mut blob, off_strings); // off_dt_strings
    push_be32(&mut blob, 0); // off_mem_rsvmap
    push_be32(&mut blob, 17); // version
    push_be32(&mut blob, 16); // last_comp_version
    push_be32(&mut blob, 0); // boot_cpuid_phys
    push_be32(&mut blob, size_strings); // size_dt_strings
    push_be32(&mut blob, size_struct); // size_dt_struct
    blob.extend_from_slice(&structure);
    blob.extend_from_slice(&strings);
    blob
}

#[test]
fn parse_tiny_device_tree() {
    let data = tiny_dtb();
    let dtb = DeviceTree::from_bytes(&data).expect("valid blob");
    assert_eq!(dtb.find(b"uart"), Some(0x10000000));
    assert_eq!(dtb.find(b"pci"), None);
    let prop = dtb.find_property(b"uart", b"reg").expect("reg property");
    assert_eq!(prop.name, b"reg");
    assert_eq!(prop.read_u64(0), Some(0x10000000));
    assert_eq!(prop.read_u64(8), Some(0x100));
    assert_eq!(prop.read_u64(9), None);
    assert_eq!(prop.read_u64(16), None);
    let regs = dtb.find_regs(b"uart").expect("regs");
    assert_eq!(regs, (0x10000000, 0x100));
}

#[test]
fn walk_tiny_device_tree() {
    let data = tiny_dtb();
    let dtb = DeviceTree::from_bytes(&data).expect("valid blob");
    let mut it = dtb.walk();
    match it.next() {
        Some(DeviceTreeStructure::NodeBegin(name)) => assert_eq!(name, b"uart@10000000"),
        _ => panic!("expected node begin"),
    }
    match it.next() {
        Some(DeviceTreeStructure::Property(p)) => {
            assert_eq!(p.name, b"reg");
            assert_eq!(p.bytes.len(), 16);
        },
        _ => panic!("expected property"),
    }
    assert!(matches!(it.next(), Some(DeviceTreeStructure::NodeEnd)));
    assert!(it.next().is_none());
    assert!(it.next().is_none());
}

#[test]
fn corrupt_structure_stops_walk() {
    // A bad token inside the structure block ends the walk instead of
    // reading out of bounds.
    let mut data = tiny_dtb();
    // The first structure word sits right after the 40-byte header.
    data[40] = 0xff;
    let dtb = DeviceTree::from_bytes(&data).expect("header still valid");
    let mut it = dtb.walk();
    assert!(it.next().is_none());
    assert_eq!(dtb.find(b"uart"), None);
}

#[test]
fn reject_bad_device_tree() {
    let mut data = tiny_dtb();
    data[0] = 0;
    assert!(DeviceTree::from_bytes(&data).is_none());
    let mut short = tiny_dtb();
    short.truncate(24);
    assert!(DeviceTree::from_bytes(&short).is_none());
    let empty = DeviceTree::empty();
    let _ = empty;
}
