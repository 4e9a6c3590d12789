use sdr_fm::rds::{
    apply_group0_ps, assemble_ps, crc_ok, identify_offset, ps_name_from_text, BlockOffset,
    BlockSync, GroupAssembler, RdsGroupDecoder,
};

/// Check bits of a data word, computed bit by bit from the generator.
fn check_bits(data: u16) -> u32 {
    let mut reg: u32 = (data as u32) << 10;
    for bit in (10..26).rev() {
        if reg & (1 << bit) != 0 {
            reg ^= 0x5B9 << (bit - 10);
        }
    }
    reg & 0x3FF
}

fn block(data: u16, offset: BlockOffset) -> u32 {
    ((data as u32) << 10) | (check_bits(data) ^ offset.word() as u32)
}

#[test]
fn assembles_complete_ps() {
    let segs = [
        Some([b'H', b'I']),
        Some([b'T', b' ']),
        Some([b'F', b'M']),
        Some([b' ', b' ']),
    ];
    assert_eq!(assemble_ps(&segs).as_deref(), Some("HIT FM"));
}

#[test]
fn rejects_incomplete_ps() {
    let segs = [Some([b'H', b'I']), None, None, None];
    assert!(assemble_ps(&segs).is_none());
}

#[test]
fn assemble_skips_zero_bytes_and_blank_names() {
    let segs = [Some([0, b'A']), Some([b'B', 0]), Some([0, 0]), Some([b'C', b'D'])];
    assert_eq!(assemble_ps(&segs).as_deref(), Some("ABCD"));
    let blank = [Some([b' ', b' ']), Some([0, 0]), Some([b' ', 0]), Some([0, b' '])];
    assert!(assemble_ps(&blank).is_none());
    assert_eq!(ps_name_from_text("  Kiss FM \t").as_deref(), Some("Kiss FM"));
    assert!(ps_name_from_text(" \n ").is_none());
}

#[test]
fn assemble_replaces_invalid_utf8() {
    let segs = [Some([b'A', 0xFF]), Some([b'B', b'C']), Some([b'D', b'E']), Some([b'F', b'G'])];
    assert_eq!(assemble_ps(&segs).as_deref(), Some("A\u{FFFD}BCDEFG"));
}

#[test]
fn apply_group0_fills_segment() {
    let mut segs = [None; 4];
    // type 0, addr 1 → bits in B: type in top nibble 0, addr in low 2 bits = 1
    let block_b = 0x0001;
    let block_d = (('X' as u16) << 8) | ('Y' as u16);
    apply_group0_ps(&mut segs, block_b, block_d);
    assert_eq!(segs[1], Some([b'X', b'Y']));
}

#[test]
fn apply_group0_ignores_other_groups_and_cleans_chars() {
    let mut segs = [None; 4];
    apply_group0_ps(&mut segs, 0x2003, 0x4142);
    assert_eq!(segs, [None; 4]);
    apply_group0_ps(&mut segs, 0x0803, 0x7F41);
    assert_eq!(segs[3], Some([b' ', b'A']));
    assert_eq!(segs[0], None);
}

#[test]
fn crc_is_deterministic() {
    assert_eq!(crc_ok(0), crc_ok(0));
    assert_eq!(crc_ok(0x123456), crc_ok(0x123456));
}

#[test]
fn crc_accepts_codewords_only() {
    assert!(crc_ok(0));
    for data in [0u16, 1, 0x1234, 0xBEEF, 0xFFFF] {
        let cw = ((data as u32) << 10) | check_bits(data);
        assert!(crc_ok(cw));
        assert!(!crc_ok(cw ^ 1));
        assert!(!crc_ok(cw ^ (1 << 20)));
    }
}

#[test]
fn identifies_each_offset() {
    let offsets = [BlockOffset::A, BlockOffset::B, BlockOffset::C, BlockOffset::Cp, BlockOffset::D];
    for data in [0u16, 0x5A5A, 0xFFFF, 0x2001] {
        for offset in offsets {
            assert_eq!(identify_offset(block(data, offset)), Some((offset, data)));
        }
    }
    let data = 0x1234u16;
    let garbled = ((data as u32) << 10) | (check_bits(data) ^ 0x3FF);
    assert_eq!(identify_offset(garbled), None);
}

#[test]
fn offset_words() {
    assert_eq!(BlockOffset::A.word(), 0x0FC);
    assert_eq!(BlockOffset::Cp.word(), 0x350);
    assert_eq!(BlockOffset::all().len(), 5);
}

fn push_block(sync: &mut BlockSync, b: u32) -> Vec<Option<(BlockOffset, u16)>> {
    (0..26).rev().map(|k| sync.push_bit(((b >> k) & 1) as u8)).collect()
}

#[test]
fn sync_takes_block_on_last_bit() {
    let mut sync = BlockSync::new();
    let out = push_block(&mut sync, block(0xCAFE, BlockOffset::B));
    assert!(out[..25].iter().all(|o| o.is_none()));
    assert_eq!(out[25], Some((BlockOffset::B, 0xCAFE)));
    assert_eq!(sync, BlockSync::new());
}

#[test]
fn sync_slides_over_noise() {
    let mut sync = BlockSync::new();
    for bit in [1u8, 0, 1] {
        assert_eq!(sync.push_bit(bit), None);
    }
    let out = push_block(&mut sync, block(0x0042, BlockOffset::D));
    assert_eq!(out[25], Some((BlockOffset::D, 0x0042)));
}

fn feed_group(dec: &mut RdsGroupDecoder, addr: u16, chars: [u8; 2]) {
    let b = addr & 3;
    let d = ((chars[0] as u16) << 8) | chars[1] as u16;
    for (data, offset) in [
        (0x1234u16, BlockOffset::A),
        (b, BlockOffset::B),
        (0x0000, BlockOffset::C),
        (d, BlockOffset::D),
    ] {
        let w = block(data, offset);
        for k in (0..26).rev() {
            dec.push_bit(((w >> k) & 1) as u8);
        }
    }
}

#[test]
fn decoder_assembles_ps_from_bits() {
    let mut dec = RdsGroupDecoder::new();
    feed_group(&mut dec, 0, *b"RA");
    feed_group(&mut dec, 1, *b"DI");
    feed_group(&mut dec, 2, *b"O ");
    assert_eq!(dec.ps_name(), None);
    feed_group(&mut dec, 3, *b"1 ");
    assert_eq!(dec.ps_name(), Some("RADIO 1"));
}

#[test]
fn group_assembler_needs_a_before_d() {
    let mut g = GroupAssembler::new();
    g.handle_block(BlockOffset::B, 0x0000);
    g.handle_block(BlockOffset::C, 0x0000);
    g.handle_block(BlockOffset::D, 0x4142);
    assert_eq!(g.ps_segments, [None; 4]);
    g.handle_block(BlockOffset::A, 0x1111);
    g.handle_block(BlockOffset::B, 0x0002);
    g.handle_block(BlockOffset::Cp, 0x0000);
    g.handle_block(BlockOffset::D, 0x4142);
    assert_eq!(g.ps_segments[2], Some([b'A', b'B']));
    assert!(g.ps.is_none());
}
