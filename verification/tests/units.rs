use dtb_walker::structure_block::{StructureBlock, U32BigEndian};
use dtb_walker::{indent, Node, Path, Property, Reg, RegCfg, Str};

fn be_bytes(words: &[u32]) -> Vec<u8> {
    let mut v = Vec::new();
    for w in words {
        v.extend_from_slice(&w.to_be_bytes());
    }
    v
}

#[test]
fn reg_decodes_default_cells() {
    // Two address cells and one size cell: one entry covering
    // [0x4000_0000, 0x4800_0000).
    let raw = be_bytes(&[0x0000_0000, 0x4000_0000, 0x0800_0000]);
    let mut reg = Reg::new(&raw, RegCfg { address_cells: 2, size_cells: 1 }).unwrap();
    let range = reg.next().unwrap();
    assert_eq!(range.start, 0x4000_0000);
    assert_eq!(range.end, 0x4800_0000);
    assert!(reg.next().is_none());
}

#[test]
fn reg_decodes_two_entries() {
    let raw = be_bytes(&[0, 0x1000, 0x100, 0, 0x8000, 0x200]);
    let mut reg = Reg::new(&raw, RegCfg { address_cells: 2, size_cells: 1 }).unwrap();
    assert_eq!(reg.next().unwrap(), 0x1000..0x1100);
    assert_eq!(reg.next().unwrap(), 0x8000..0x8200);
    assert!(reg.next().is_none());
}

#[test]
fn reg_refuses_misfit() {
    let raw = be_bytes(&[1, 2]);
    assert!(Reg::new(&raw, RegCfg { address_cells: 2, size_cells: 1 }).is_none());
    assert!(Reg::new(&raw, RegCfg { address_cells: 0, size_cells: 0 }).is_none());
}

#[test]
fn reg_sixty_four_bit_address() {
    let raw = be_bytes(&[0x1, 0x2345_6789, 0x10]);
    let mut reg = Reg::new(&raw, RegCfg { address_cells: 2, size_cells: 1 }).unwrap();
    assert_eq!(reg.next().unwrap(), 0x1_2345_6789..0x1_2345_6799);
}

#[test]
fn string_list_splits_in_order() {
    match Property::new(b"compatible", b"abc\0def\0") {
        Property::Compatible(mut list) => {
            assert_eq!(list.next().unwrap().as_bytes(), b"abc");
            assert_eq!(list.next().unwrap().as_bytes(), b"def");
            assert!(list.next().is_none());
        },
        _ => panic!("compatible did not decode as a string list"),
    }
}

#[test]
fn string_list_without_terminator_degrades() {
    match Property::new(b"compatible", b"abc") {
        Property::General { name, value } => {
            assert_eq!(name.as_bytes(), b"compatible");
            assert_eq!(value, b"abc");
        },
        _ => panic!("unterminated list did not degrade"),
    }
}

#[test]
fn decode_model_strips_terminator() {
    match Property::new(b"model", b"board-9\0") {
        Property::Model(s) => assert_eq!(s.as_bytes(), b"board-9"),
        _ => panic!("model did not decode"),
    }
}

#[test]
fn decode_status() {
    match Property::new(b"status", b"okay\0") {
        Property::Status(s) => assert_eq!(s.as_bytes(), b"okay"),
        _ => panic!("status did not decode"),
    }
}

#[test]
fn decode_phandle_both_names() {
    match Property::new(b"phandle", &be_bytes(&[42])) {
        Property::PHandle(p) => assert_eq!(p.value(), 42),
        _ => panic!("phandle did not decode"),
    }
    match Property::new(b"linux,phandle", &be_bytes(&[7])) {
        Property::PHandle(p) => assert_eq!(p.value(), 7),
        _ => panic!("linux,phandle did not decode"),
    }
}

#[test]
fn decode_phandle_wrong_width_degrades() {
    match Property::new(b"phandle", &be_bytes(&[1, 2])) {
        Property::General { name, value } => {
            assert_eq!(name.as_bytes(), b"phandle");
            assert_eq!(value.len(), 8);
        },
        _ => panic!("malformed phandle did not degrade"),
    }
}

#[test]
fn decode_virtual_reg() {
    match Property::new(b"virtual-reg", &be_bytes(&[0xdead_beef])) {
        Property::VirtualReg(v) => assert_eq!(v, 0xdead_beef),
        _ => panic!("virtual-reg did not decode"),
    }
}

#[test]
fn decode_dma_coherent() {
    assert!(matches!(
        Property::new(b"dma-coherent", b""),
        Property::DmaCoherent
    ));
    assert!(matches!(
        Property::new(b"dma-coherent", b"x"),
        Property::General { .. }
    ));
}

#[test]
fn decode_unknown_name() {
    match Property::new(b"clock-frequency", &be_bytes(&[24_000_000])) {
        Property::General { name, value } => {
            assert_eq!(name.as_bytes(), b"clock-frequency");
            assert_eq!(value, be_bytes(&[24_000_000]).as_slice());
        },
        _ => panic!("unknown name did not decode as general"),
    }
}

#[test]
fn path_truncation_reports_buffer_length() {
    // "/abcdefghi" needs ten bytes; a four-byte buffer reports Err(4).
    let root = Path::root();
    let leaf = root.grow(Str(b"abcdefghi"));
    let mut small = [0u8; 4];
    assert_eq!(leaf.join(&mut small), Err(4));
    assert_eq!(&small, b"/abc");
    let mut big = [0u8; 32];
    assert_eq!(leaf.join(&mut big), Ok(10));
    assert_eq!(&big[..10], b"/abcdefghi");
}

#[test]
fn path_levels_and_names() {
    let root = Path::root();
    assert!(root.is_root());
    assert_eq!(root.level(), 0);
    let soc = root.grow(Str(b"soc"));
    let uart = soc.grow(Str(b"uart"));
    assert!(!uart.is_root());
    assert_eq!(uart.level(), 2);
    assert_eq!(uart.last().as_bytes(), b"uart");
    let mut buf = [0u8; 16];
    assert_eq!(uart.join(&mut buf), Ok(9));
    assert_eq!(&buf[..9], b"/soc/uart");
}

#[test]
fn node_chain_levels() {
    let root = Node::root(1u32);
    assert!(root.is_root());
    assert_eq!(root.level(), 0);
    let a = root.grow(2);
    let b = a.grow(3);
    assert!(!b.is_root());
    assert_eq!(b.level(), 2);
    assert_eq!(b.data, 3);
    assert_eq!(b.parent.unwrap().data, 2);
}

#[test]
fn node_fold_skips_root_and_runs_root_first() {
    let root = Node::root(0u32);
    let a = root.grow(1);
    let b = a.grow(2);
    let r: Result<Vec<u32>, ()> = b.fold(Vec::new(), |mut acc: Vec<u32>, t: &u32| {
        acc.push(*t);
        Ok(acc)
    });
    assert_eq!(r.unwrap(), vec![1, 2]);
}

#[test]
fn node_fold_r_includes_root_and_runs_leaf_first() {
    let root = Node::root(0u32);
    let a = root.grow(1);
    let b = a.grow(2);
    let r: Result<Vec<u32>, ()> = b.fold_r(Vec::new(), |mut acc: Vec<u32>, t: &u32| {
        acc.push(*t);
        Ok(acc)
    });
    assert_eq!(r.unwrap(), vec![2, 1, 0]);
}

#[test]
fn node_fold_stops_at_first_error() {
    let root = Node::root(0u32);
    let a = root.grow(1);
    let b = a.grow(2);
    let r: Result<u32, &'static str> = b.fold(0, |acc: u32, t: &u32| {
        if *t == 1 {
            Err("stop")
        } else {
            Ok(acc + *t)
        }
    });
    assert_eq!(r, Err("stop"));
}

#[test]
fn str_views() {
    let s = Str(b"serial0");
    assert_eq!(s.as_bytes(), b"serial0");
    assert_eq!(s.as_str().unwrap(), "serial0");
    assert!(s.starts_with("ser"));
    assert!(!s.starts_with("serial00"));
    assert!(!s.starts_with("x"));
    let bad = Str(&[0xff, 0xfe]);
    assert!(bad.as_str().is_err());
}

#[test]
fn big_endian_words() {
    let w = U32BigEndian::from_u32(0x1234_5678);
    assert_eq!(w.into_u32(), 0x1234_5678);
    let bytes = [0x12u8, 0x34, 0x56, 0x78];
    assert_eq!(U32BigEndian::read(&bytes, 0).into_u32(), 0x1234_5678);
}

#[test]
fn structure_block_string_ends() {
    let ends = StructureBlock::read(&[b'a', b'b', b'c', 0], 0);
    assert!(ends.is_end_of_str());
    assert_eq!(ends.str_tail_zero(), 1);
    let pad2 = StructureBlock::read(&[b'a', b'b', 0, 0], 0);
    assert_eq!(pad2.str_tail_zero(), 2);
    let pad3 = StructureBlock::read(&[b'a', 0, 0, 0], 0);
    assert_eq!(pad3.str_tail_zero(), 3);
    let pad4 = StructureBlock::read(&[0, 0, 0, 0], 0);
    assert_eq!(pad4.str_tail_zero(), 4);
    let mid = StructureBlock::read(&[b'a', 0, b'c', b'd'], 0);
    assert!(!mid.is_end_of_str());
    assert_eq!(StructureBlock::read(&[0, 0, 0, 9], 0).into_u32(), 9);
}

#[test]
fn indent_renders_spaces() {
    let i = indent(3, 2);
    let bytes = i.render();
    assert_eq!(bytes.len(), 6);
    assert!(bytes.iter().all(|b| *b == b' '));
    assert_eq!(indent(0, 4).render().len(), 0);
}
