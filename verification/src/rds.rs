//! RDS block layer: CRC syndromes, offset-word identification and
//! Program Service (PS) name assembly from type-0 groups.

use vstd::prelude::*;

use crate::text::{trim_seq, trim_to_string};

verus! {

/// One step of the long division of a 26-bit block by the RDS generator
/// g(x) = x^10 + x^8 + x^7 + x^5 + x^4 + x^3 + 1 (0x5B9): when bit 25 is set
/// the generator, with its x^10 term on bit 25, is subtracted (XOR), then the
/// register moves up one place.
pub open spec fn crc_step(reg: u32) -> u32 {
    let r = if reg & (1u32 << 25u32) != 0 {
        reg ^ (0x5B9u32 << 15u32)
    } else {
        reg
    };
    r << 1u32
}

pub open spec fn crc_register(reg: u32, n: nat) -> u32
    decreases n,
{
    if n == 0 {
        reg
    } else {
        crc_step(crc_register(reg, (n - 1) as nat))
    }
}

/// The 10-bit remainder of a 26-bit block (16 data + 10 check bits)
/// after division by g(x): zero for a valid codeword.
pub open spec fn rds_syndrome(block26: u32) -> u32 {
    (crc_register(block26 & 0x3FF_FFFFu32, 16) >> 16u32) & 0x3FFu32
}

/// The 10 check bits that make `data` (shifted into the top 16 bits) a codeword.
pub open spec fn rds_check_bits(data: u16) -> u32 {
    rds_syndrome((data as u32) << 10u32)
}

/// 10-bit remainder of a 26-bit RDS block.
fn syndrome(block26: u32) -> (s: u16)
    ensures
        s as u32 == rds_syndrome(block26),
{
    let mut reg = block26 & 0x3FF_FFFF;
    let mut i: u32 = 0;
    while i < 16
        invariant
            i <= 16,
            reg == crc_register(block26 & 0x3FF_FFFFu32, i as nat),
        decreases 16 - i,
    {
        if (reg & (1u32 << 25u32)) != 0 {
            reg ^= 0x5B9u32 << 15u32;
        }
        reg <<= 1u32;
        i = i + 1;
    }
    let r = (reg >> 16u32) & 0x3FF;
    assert(r <= 0x3FF) by (bit_vector)
        requires
            r == (reg >> 16u32) & 0x3FFu32,
    ;
    r as u16
}

/// CRC syndrome check for a 26-bit RDS block (16 data + 10 check).
pub fn crc_ok(block26: u32) -> (ok: bool)
    ensures
        ok == (rds_syndrome(block26) == 0),
{
    syndrome(block26) == 0
}

proof fn lemma_crc_step_xor(a: u32, b: u32)
    ensures
        crc_step(a ^ b) == crc_step(a) ^ crc_step(b),
{
    assert(crc_step(a ^ b) == crc_step(a) ^ crc_step(b)) by (bit_vector);
}

proof fn lemma_crc_register_xor(a: u32, b: u32, n: nat)
    ensures
        crc_register(a ^ b, n) == crc_register(a, n) ^ crc_register(b, n),
    decreases n,
{
    if n > 0 {
        lemma_crc_register_xor(a, b, (n - 1) as nat);
        lemma_crc_step_xor(crc_register(a, (n - 1) as nat), crc_register(b, (n - 1) as nat));
    }
}

/// The syndrome is linear over GF(2): the syndrome of the XOR of two blocks
/// is the XOR of their syndromes.
pub proof fn lemma_syndrome_xor(a: u32, b: u32)
    ensures
        rds_syndrome(a ^ b) == rds_syndrome(a) ^ rds_syndrome(b),
{
    let ma = a & 0x3FF_FFFFu32;
    let mb = b & 0x3FF_FFFFu32;
    assert((a ^ b) & 0x3FF_FFFFu32 == ma ^ mb) by (bit_vector)
        requires
            ma == a & 0x3FF_FFFFu32,
            mb == b & 0x3FF_FFFFu32,
    ;
    lemma_crc_register_xor(ma, mb, 16);
    let ra = crc_register(ma, 16);
    let rb = crc_register(mb, 16);
    assert(((ra ^ rb) >> 16u32) & 0x3FFu32 == ((ra >> 16u32) & 0x3FFu32) ^ ((rb >> 16u32)
        & 0x3FFu32)) by (bit_vector);
}

proof fn lemma_crc_register_small(w: u32, k: nat)
    requires
        w < 1024,
        k <= 16,
    ensures
        crc_register(w, k) == w << (k as u32),
    decreases k,
{
    if k > 0 {
        lemma_crc_register_small(w, (k - 1) as nat);
        let j = (k - 1) as u32;
        assert(crc_step(w << j) == w << ((j + 1) as u32)) by (bit_vector)
            requires
                w < 1024,
                j < 16,
        ;
        assert(k as u32 == (j + 1) as u32);
    } else {
        assert(w << 0u32 == w) by (bit_vector);
    }
}

/// A 10-bit word is its own syndrome (it is already a remainder).
pub proof fn lemma_syndrome_of_check_word(w: u32)
    requires
        w < 1024,
    ensures
        rds_syndrome(w) == w,
{
    assert(w & 0x3FF_FFFFu32 == w) by (bit_vector)
        requires
            w < 1024,
    ;
    lemma_crc_register_small(w, 16);
    assert(((w << 16u32) >> 16u32) & 0x3FFu32 == w) by (bit_vector)
        requires
            w < 1024,
    ;
}

/// Appending the check bits of `data` yields a block with zero syndrome,
/// and any other 10-bit tail does not.
pub proof fn lemma_codeword(data: u16, check: u32)
    requires
        check < 1024,
    ensures
        rds_syndrome(((data as u32) << 10u32) | check) == rds_check_bits(data) ^ check,
        crc_ok_spec(((data as u32) << 10u32) | check) <==> check == rds_check_bits(data),
{
    let hi = (data as u32) << 10u32;
    assert(hi | check == hi ^ check) by (bit_vector)
        requires
            check < 1024,
            hi == (data as u32) << 10u32,
    ;
    lemma_syndrome_xor(hi, check);
    lemma_syndrome_of_check_word(check);
    let s = rds_check_bits(data);
    assert(s ^ check == 0 <==> check == s) by (bit_vector);
}

pub open spec fn crc_ok_spec(block26: u32) -> bool {
    rds_syndrome(block26) == 0
}

/// Offset words used to identify block position within a group.
#[derive(Debug, Clone, Copy, PartialEq, Eq, Structural)]
pub enum BlockOffset {
    A,
    B,
    C,
    Cp,
    D,
}

pub open spec fn offset_word(offset: BlockOffset) -> u32 {
    match offset {
        BlockOffset::A => 0x0FC,
        BlockOffset::B => 0x198,
        BlockOffset::C => 0x168,
        BlockOffset::Cp => 0x350,
        BlockOffset::D => 0x1B4,
    }
}

/// The offset whose word equals `w`, trying A, B, C, C', D in turn.
pub open spec fn offset_with_word(w: u32) -> Option<BlockOffset> {
    if w == 0x0FC {
        Some(BlockOffset::A)
    } else if w == 0x198 {
        Some(BlockOffset::B)
    } else if w == 0x168 {
        Some(BlockOffset::C)
    } else if w == 0x350 {
        Some(BlockOffset::Cp)
    } else if w == 0x1B4 {
        Some(BlockOffset::D)
    } else {
        None
    }
}

/// The 16 information bits of a 26-bit block.
pub open spec fn block_data(block26: u32) -> u16 {
    ((block26 >> 10u32) & 0xFFFFu32) as u16
}

/// The 26-bit block that carries `data` at position `offset`:
/// data, then its check bits with the offset word added.
pub open spec fn rds_block(data: u16, offset: BlockOffset) -> u32 {
    ((data as u32) << 10u32) | (rds_check_bits(data) ^ offset_word(offset))
}

/// What `identify_offset` answers for a block: the offset whose word is the
/// block's syndrome, together with the block's data bits.
pub open spec fn identify_spec(block26: u32) -> Option<(BlockOffset, u16)> {
    match offset_with_word(rds_syndrome(block26)) {
        Some(o) => Some((o, block_data(block26))),
        None => None,
    }
}

impl BlockOffset {
    pub fn word(self) -> (w: u16)
        ensures
            w as u32 == offset_word(self),
    {
        match self {
            BlockOffset::A => 0x0FC,
            BlockOffset::B => 0x198,
            BlockOffset::C => 0x168,
            BlockOffset::Cp => 0x350,
            BlockOffset::D => 0x1B4,
        }
    }

    pub fn all() -> (r: [BlockOffset; 5])
        ensures
            r@ == seq![
                BlockOffset::A,
                BlockOffset::B,
                BlockOffset::C,
                BlockOffset::Cp,
                BlockOffset::D,
            ],
    {
        let r = [BlockOffset::A, BlockOffset::B, BlockOffset::C, BlockOffset::Cp, BlockOffset::D];
        assert(r@ =~= seq![
            BlockOffset::A,
            BlockOffset::B,
            BlockOffset::C,
            BlockOffset::Cp,
            BlockOffset::D,
        ]);
        r
    }
}

proof fn lemma_syndrome_small(block26: u32)
    ensures
        rds_syndrome(block26) < 1024,
{
    let r = crc_register(block26 & 0x3FF_FFFFu32, 16);
    assert((r >> 16u32) & 0x3FFu32 < 1024) by (bit_vector);
}

/// Removing the offset word `w` from the check bits shifts the syndrome by `w`.
proof fn lemma_remove_offset(block26: u32, w: u32)
    requires
        w < 1024,
    ensures
        rds_syndrome(((((block26 >> 10u32) & 0xFFFFu32) << 10u32) | ((block26 & 0x3FFu32) ^ w)))
            == rds_syndrome(block26) ^ w,
{
    let m = block26 & 0x3FF_FFFFu32;
    let x = (((block26 >> 10u32) & 0xFFFFu32) << 10u32) | ((block26 & 0x3FFu32) ^ w);
    assert(x == m ^ w) by (bit_vector)
        requires
            w < 1024,
            m == block26 & 0x3FF_FFFFu32,
            x == (((block26 >> 10u32) & 0xFFFFu32) << 10u32) | ((block26 & 0x3FFu32) ^ w),
    ;
    lemma_syndrome_xor(m, w);
    lemma_syndrome_of_check_word(w);
    assert(m & 0x3FF_FFFFu32 == block26 & 0x3FF_FFFFu32) by (bit_vector)
        requires
            m == block26 & 0x3FF_FFFFu32,
    ;
}

/// Identify block type by matching residual syndrome to offset words.
pub fn identify_offset(block26: u32) -> (r: Option<(BlockOffset, u16)>)
    ensures
        r == identify_spec(block26),
{
    assert((block26 >> 10u32) & 0xFFFFu32 <= 0xFFFF) by (bit_vector);
    assert(block26 & 0x3FFu32 <= 0x3FF) by (bit_vector);
    let data = ((block26 >> 10u32) & 0xFFFF) as u16;
    let check = (block26 & 0x3FF) as u16;
    let all = BlockOffset::all();
    let ghost syn = rds_syndrome(block26);
    let mut i: usize = 0;
    while i < 5
        invariant
            i <= 5,
            all@ == seq![
                BlockOffset::A,
                BlockOffset::B,
                BlockOffset::C,
                BlockOffset::Cp,
                BlockOffset::D,
            ],
            syn == rds_syndrome(block26),
            data == block_data(block26),
            check as u32 == block26 & 0x3FFu32,
            forall|j: int| 0 <= j < i ==> offset_word(#[trigger] all@[j]) != syn,
        decreases 5 - i,
    {
        let offset = all[i];
        let w = offset.word();
        let with_offset_removed = ((data as u32) << 10u32) | ((check ^ w) as u32);
        proof {
            assert(((data as u32) << 10u32) | ((check ^ w) as u32) == (((block26 >> 10u32)
                & 0xFFFFu32) << 10u32) | ((block26 & 0x3FFu32) ^ (w as u32))) by (bit_vector)
                requires
                    data == ((block26 >> 10u32) & 0xFFFFu32) as u16,
                    check as u32 == block26 & 0x3FFu32,
            ;
            lemma_remove_offset(block26, w as u32);
            assert(syn ^ (w as u32) == 0 <==> syn == w as u32) by (bit_vector);
        }
        if crc_ok(with_offset_removed) {
            return Some((offset, data));
        }
        i = i + 1;
    }
    // A block whose syndrome is one of the offset words was found above.
    None
}

/// The character a PS slot shows for a received byte: printable ASCII
/// stays, anything else becomes a space.
pub open spec fn ps_char(c: u8) -> u8 {
    if 0x20 <= c <= 0x7E {
        c
    } else {
        0x20
    }
}

fn clean_ps_char(c: u8) -> (r: u8)
    ensures
        r == ps_char(c),
{
    if 0x20 <= c && c <= 0x7E {
        c
    } else {
        0x20
    }
}

/// Group type code carried in the top nibble of block B.
pub open spec fn group_type(block_b: u16) -> u16 {
    (block_b >> 12u16) & 0xFu16
}

/// The PS segment address (0..=3) carried in the low bits of block B.
pub open spec fn ps_address(block_b: u16) -> int {
    (block_b & 3u16) as int
}

/// `after` is `before` with the type-0 PS fragment (`block_b`, `block_d`) applied.
pub open spec fn group0_applied(
    before: Seq<Option<[u8; 2]>>,
    after: Seq<Option<[u8; 2]>>,
    block_b: u16,
    block_d: u16,
) -> bool {
    &&& after.len() == before.len()
    &&& if group_type(block_b) != 0 {
        after == before
    } else {
        &&& forall|i: int|
            0 <= i < before.len() && i != ps_address(block_b) ==> after[i] == before[i]
        &&& after[ps_address(block_b)] matches Some(p) && p@ == seq![
            ps_char((block_d >> 8u16) as u8),
            ps_char((block_d & 0xFFu16) as u8),
        ]
    }
}

/// Apply a decoded type-0 group fragment into PS segment slots.
pub fn apply_group0_ps(segments: &mut [Option<[u8; 2]>; 4], block_b: u16, block_d: u16)
    ensures
        group0_applied(old(segments)@, final(segments)@, block_b, block_d),
        block_b >= 0x1000 ==> final(segments)@ == old(segments)@,
        block_b < 0x1000 ==> {
            &&& forall|i: int|
                0 <= i < 4 && i != (block_b % 4) as int ==> #[trigger] final(segments)@[i] == old(segments)@[i]
            &&& final(segments)@[(block_b % 4) as int] matches Some(p) && {
                &&& (0x20 <= block_d / 256 <= 0x7E ==> p@[0] == block_d / 256)
                &&& (!(0x20 <= block_d / 256 <= 0x7E) ==> p@[0] == 0x20)
                &&& (0x20 <= block_d % 256 <= 0x7E ==> p@[1] == block_d % 256)
                &&& (!(0x20 <= block_d % 256 <= 0x7E) ==> p@[1] == 0x20)
            }
        },
{
    proof {
        assert(block_b >= 0x1000 <==> (block_b >> 12u16) & 0xFu16 != 0) by (bit_vector);
        assert(block_b & 3u16 == block_b % 4) by (bit_vector);
        assert((block_d >> 8u16) == block_d / 256) by (bit_vector);
        assert((block_d & 0xFFu16) == block_d % 256) by (bit_vector);
    }
    let group_type = (block_b >> 12u16) & 0xF;
    if group_type != 0 {
        return;
    }
    assert(block_b & 3u16 <= 3) by (bit_vector);
    let addr = (block_b & 0x3) as usize;
    assert((block_d >> 8u16) & 0xFFu16 <= 0xFF) by (bit_vector);
    assert(block_d & 0xFFu16 <= 0xFF) by (bit_vector);
    assert((block_d >> 8u16) & 0xFFu16 == block_d >> 8u16) by (bit_vector);
    let c0 = ((block_d >> 8u16) & 0xFF) as u8;
    let c1 = (block_d & 0xFF) as u8;
    let pair = [clean_ps_char(c0), clean_ps_char(c1)];
    segments[addr] = Some(pair);
    assert(pair@ =~= seq![ps_char((block_d >> 8u16) as u8), ps_char((block_d & 0xFFu16) as u8)]);
}

/// The non-zero bytes of one PS segment, in order.
pub open spec fn segment_bytes(p: [u8; 2]) -> Seq<u8> {
    (if p@[0] != 0 {
        seq![p@[0]]
    } else {
        Seq::empty()
    }) + (if p@[1] != 0 {
        seq![p@[1]]
    } else {
        Seq::empty()
    })
}

/// The bytes of the PS name: the non-zero bytes of every received segment.
pub open spec fn ps_bytes(segments: Seq<Option<[u8; 2]>>) -> Seq<u8>
    decreases segments.len(),
{
    if segments.len() == 0 {
        Seq::empty()
    } else {
        ps_bytes(segments.drop_last()) + match segments.last() {
            Some(p) => segment_bytes(p),
            None => Seq::empty(),
        }
    }
}

pub open spec fn all_segments_received(segments: Seq<Option<[u8; 2]>>) -> bool {
    forall|i: int| 0 <= i < segments.len() ==> (#[trigger] segments[i]) is Some
}

/// What `String::from_utf8_lossy` makes of a byte string.
pub uninterp spec fn utf8_lossy(bytes: Seq<u8>) -> Seq<char>;

/// Calls `String::from_utf8_lossy`. Its documentation promises that valid
/// UTF-8 comes back as the string it encodes; how invalid sequences are
/// replaced by U+FFFD is left to the name `utf8_lossy`.
#[verifier::external_body]
fn string_from_utf8_lossy(bytes: &Vec<u8>) -> (s: String)
    ensures
        s@ == utf8_lossy(bytes@),
        vstd::utf8::valid_utf8(bytes@) ==> s@ == vstd::utf8::decode_utf8(bytes@),
{
    String::from_utf8_lossy(bytes.as_slice()).into_owned()
}

/// The PS name shown for decoded text: the text without surrounding white
/// space, or nothing when that leaves it empty.
pub open spec fn ps_name_spec(text: Seq<char>) -> Option<Seq<char>> {
    if trim_seq(text).len() == 0 {
        None
    } else {
        Some(trim_seq(text))
    }
}

pub open spec fn assemble_ps_spec(segments: Seq<Option<[u8; 2]>>) -> Option<Seq<char>> {
    if !all_segments_received(segments) {
        None
    } else {
        ps_name_spec(utf8_lossy(ps_bytes(segments)))
    }
}

/// The PS name for decoded text, or `None` when it is blank.
pub fn ps_name_from_text(text: &str) -> (r: Option<String>)
    ensures
        match r {
            Some(s) => ps_name_spec(text@) == Some(s@),
            None => ps_name_spec(text@) is None,
        },
{
    let name = trim_to_string(text);
    if name.as_str().is_empty() {
        None
    } else {
        Some(name)
    }
}

/// Assemble PS from type-0 group fragments. `segments[i]` is characters 2*i, 2*i+1.
/// Bytes that are valid UTF-8 (plain ASCII among them) come back as the text
/// they encode, trimmed.
pub fn assemble_ps(segments: &[Option<[u8; 2]>; 4]) -> (r: Option<String>)
    ensures
        match r {
            Some(s) => assemble_ps_spec(segments@) == Some(s@),
            None => assemble_ps_spec(segments@) is None,
        },
        all_segments_received(segments@) && vstd::utf8::valid_utf8(ps_bytes(segments@)) ==> match r {
            Some(s) => ps_name_spec(vstd::utf8::decode_utf8(ps_bytes(segments@))) == Some(s@),
            None => ps_name_spec(vstd::utf8::decode_utf8(ps_bytes(segments@))) is None,
        },
{
    let mut bytes: Vec<u8> = Vec::new();
    let mut i: usize = 0;
    while i < 4
        invariant
            i <= 4,
            segments@.len() == 4,
            bytes@ == ps_bytes(segments@.subrange(0, i as int)),
            all_segments_received(segments@.subrange(0, i as int)),
        decreases 4 - i,
    {
        let seg = segments[i];
        assert(segments@.subrange(0, i + 1).drop_last() =~= segments@.subrange(0, i as int));
        match seg {
            None => {
                assert(!all_segments_received(segments@)) by {
                    assert(segments@[i as int] is None);
                }
                return None;
            },
            Some(pair) => {
                let a = pair[0];
                let b = pair[1];
                if a != 0 {
                    bytes.push(a);
                }
                if b != 0 {
                    bytes.push(b);
                }
                assert(bytes@ =~= ps_bytes(segments@.subrange(0, i + 1)));
            },
        }
        i = i + 1;
        assert(all_segments_received(segments@.subrange(0, i as int))) by {
            assert forall|j: int| 0 <= j < i implies (#[trigger] segments@.subrange(
                0,
                i as int,
            )[j]) is Some by {
                if j < i - 1 {
                    assert(segments@.subrange(0, i as int)[j] == segments@.subrange(
                        0,
                        i - 1,
                    )[j]);
                }
            }
        }
    }
    assert(segments@.subrange(0, 4) =~= segments@);
    let text = string_from_utf8_lossy(&bytes);
    ps_name_from_text(text.as_str())
}

/// Decoding a block built from `data` and `offset` gives them back.
pub proof fn lemma_identify_block(data: u16, offset: BlockOffset)
    ensures
        identify_spec(rds_block(data, offset)) == Some((offset, data)),
{
    let c = rds_check_bits(data);
    let w = offset_word(offset);
    lemma_syndrome_small((data as u32) << 10u32);
    assert(c ^ w < 1024) by (bit_vector)
        requires
            c < 1024,
            w < 1024,
    ;
    lemma_codeword(data, c ^ w);
    assert(c ^ (c ^ w) == w) by (bit_vector);
    let b = rds_block(data, offset);
    assert(((b >> 10u32) & 0xFFFFu32) as u16 == data) by (bit_vector)
        requires
            b == ((data as u32) << 10u32) | (c ^ w),
            c ^ w < 1024,
    ;
}


/// Bit-level block synchronisation: the last 26 received bits and how many
/// bits have arrived since the last block was taken.
#[derive(Debug, Clone, Copy, PartialEq, Eq, Structural)]
pub struct BlockSync {
    pub bit_buf: u64,
    pub bit_count: u32,
}

pub open spec fn block_sync_reset() -> BlockSync {
    BlockSync { bit_buf: 0, bit_count: 0 }
}

/// One received bit: shift it in; once 26 bits are there, a block with a
/// known offset word is taken (and the window starts over), otherwise the
/// window keeps sliding.
pub open spec fn sync_push(s: BlockSync, bit: u8) -> (BlockSync, Option<(BlockOffset, u16)>) {
    let buf = ((s.bit_buf << 1u64) | (bit as u64)) & 0x3FF_FFFFu64;
    let count = if s.bit_count == u32::MAX {
        u32::MAX
    } else {
        (s.bit_count + 1) as u32
    };
    if count < 26 {
        (BlockSync { bit_buf: buf, bit_count: count }, None)
    } else {
        match identify_spec(buf as u32) {
            Some(found) => (block_sync_reset(), Some(found)),
            None => (BlockSync { bit_buf: buf, bit_count: 26 }, None),
        }
    }
}

impl BlockSync {
    pub fn new() -> (s: BlockSync)
        ensures
            s == block_sync_reset(),
    {
        BlockSync { bit_buf: 0, bit_count: 0 }
    }

    /// Shift in one bit; returns the block that it completes, if any.
    pub fn push_bit(&mut self, bit: u8) -> (r: Option<(BlockOffset, u16)>)
        ensures
            (*final(self), r) == sync_push(*old(self), bit),
    {
        let raw = (self.bit_buf << 1u64) | (bit as u64);
        let buf = raw & 0x3FF_FFFFu64;
        assert(buf < 0x400_0000) by (bit_vector)
            requires
                buf == raw & 0x3FF_FFFFu64,
        ;
        self.bit_buf = buf;
        self.bit_count = self.bit_count.saturating_add(1);
        if self.bit_count < 26 {
            return None;
        }
        let block26 = self.bit_buf as u32;
        match identify_offset(block26) {
            Some(found) => {
                self.bit_count = 0;
                self.bit_buf = 0;
                Some(found)
            },
            None => {
                self.bit_count = 26;
                None
            },
        }
    }
}

/// The bit sent at position `k` (most significant first) of a 26-bit block.
pub open spec fn block_bit(block26: u32, k: nat) -> u8 {
    ((block26 >> ((25 - k) as u32)) & 1u32) as u8
}

/// The synchroniser after the first `k` bits of `block26` arrived.
pub open spec fn sync_after_bits(s: BlockSync, block26: u32, k: nat) -> BlockSync
    decreases k,
{
    if k == 0 {
        s
    } else {
        sync_push(sync_after_bits(s, block26, (k - 1) as nat), block_bit(block26, (k - 1) as nat)).0
    }
}

proof fn lemma_sync_prefix(block26: u32, k: nat)
    requires
        block26 < 0x400_0000,
        k <= 25,
    ensures
        sync_after_bits(block_sync_reset(), block26, k) == (BlockSync {
            bit_buf: (block26 >> ((26 - k) as u32)) as u64,
            bit_count: k as u32,
        }),
        k < 25 ==> sync_push(sync_after_bits(block_sync_reset(), block26, k), block_bit(block26, k)).1 is None,
    decreases k,
{
    if k == 0 {
        assert((block26 >> 26u32) == 0) by (bit_vector)
            requires
                block26 < 0x400_0000,
        ;
    } else {
        lemma_sync_prefix(block26, (k - 1) as nat);
        let s1 = (26 - (k - 1)) as u32;
        let s2 = (25 - (k - 1)) as u32;
        let prev = (block26 >> s1) as u64;
        let bit = ((block26 >> s2) & 1u32) as u8;
        assert(((prev << 1u64) | (bit as u64)) & 0x3FF_FFFFu64 == (block26 >> s2) as u64)
            by (bit_vector)
            requires
                block26 < 0x400_0000,
                s2 < 26,
                s1 == s2 + 1,
                prev == (block26 >> s1) as u64,
                bit == ((block26 >> s2) & 1u32) as u8,
        ;
        assert((26 - k) as u32 == s2);
    }
}

/// Receiving the 26 bits of a block from a freshly reset synchroniser takes
/// nothing before the last bit, and on the last bit yields exactly the
/// block's offset and data and starts over.
pub proof fn lemma_sync_takes_block(data: u16, offset: BlockOffset)
    ensures
        forall|k: nat|
            k < 25 ==> (#[trigger] sync_push(
                sync_after_bits(block_sync_reset(), rds_block(data, offset), k),
                block_bit(rds_block(data, offset), k),
            )).1 is None,
        sync_push(
            sync_after_bits(block_sync_reset(), rds_block(data, offset), 25),
            block_bit(rds_block(data, offset), 25),
        ) == (block_sync_reset(), Some((offset, data))),
{
    let b = rds_block(data, offset);
    let c = rds_check_bits(data);
    let w = offset_word(offset);
    lemma_syndrome_small((data as u32) << 10u32);
    assert(c ^ w < 1024) by (bit_vector)
        requires
            c < 1024,
            w < 1024,
    ;
    assert(b < 0x400_0000) by (bit_vector)
        requires
            b == ((data as u32) << 10u32) | (c ^ w),
            c ^ w < 1024,
    ;
    assert forall|k: nat| k < 25 implies (#[trigger] sync_push(
        sync_after_bits(block_sync_reset(), b, k),
        block_bit(b, k),
    )).1 is None by {
        lemma_sync_prefix(b, k);
    }
    lemma_sync_prefix(b, 25);
    let prev = (b >> 1u32) as u64;
    let bit = ((b >> 0u32) & 1u32) as u8;
    assert(((prev << 1u64) | (bit as u64)) & 0x3FF_FFFFu64 == b as u64) by (bit_vector)
        requires
            b < 0x400_0000,
            prev == (b >> 1u32) as u64,
            bit == ((b >> 0u32) & 1u32) as u8,
    ;
    lemma_identify_block(data, offset);
}

/// Group-level state: which block of the group comes next, the blocks
/// received so far, the PS segments and the PS name once complete.
pub struct GroupAssembler {
    pub expecting: Option<BlockOffset>,
    pub block_a: Option<u16>,
    pub block_b: Option<u16>,
    pub block_c: Option<u16>,
    pub ps_segments: [Option<[u8; 2]>; 4],
    pub ps: Option<String>,
}

pub open spec fn opt_string_view(s: Option<String>) -> Option<Seq<char>> {
    match s {
        Some(t) => Some(t@),
        None => None,
    }
}

/// `new` is the group state after `old` took a block with `offset` and `data`.
pub open spec fn handle_block_spec(
    old: GroupAssembler,
    new: GroupAssembler,
    offset: BlockOffset,
    data: u16,
) -> bool {
    match offset {
        BlockOffset::A => {
            &&& new.block_a == Some(data)
            &&& new.block_b is None
            &&& new.block_c is None
            &&& new.expecting == Some(BlockOffset::B)
            &&& new.ps_segments@ == old.ps_segments@
            &&& opt_string_view(new.ps) == opt_string_view(old.ps)
        },
        BlockOffset::B => {
            &&& new.block_a == old.block_a
            &&& new.block_c == old.block_c
            &&& new.ps_segments@ == old.ps_segments@
            &&& opt_string_view(new.ps) == opt_string_view(old.ps)
            &&& if old.expecting == Some(BlockOffset::B) || old.block_a is Some {
                new.block_b == Some(data) && new.expecting == Some(BlockOffset::C)
            } else {
                new.block_b == old.block_b && new.expecting == old.expecting
            }
        },
        BlockOffset::C | BlockOffset::Cp => {
            &&& new.block_a == old.block_a
            &&& new.block_b == old.block_b
            &&& new.ps_segments@ == old.ps_segments@
            &&& opt_string_view(new.ps) == opt_string_view(old.ps)
            &&& if old.expecting == Some(BlockOffset::C) {
                new.block_c == Some(data) && new.expecting == Some(BlockOffset::D)
            } else {
                new.block_c == old.block_c && new.expecting == old.expecting
            }
        },
        BlockOffset::D => {
            &&& new.expecting is None
            &&& new.block_a is None
            &&& new.block_b is None
            &&& new.block_c is None
            &&& if old.block_a is Some && old.block_b is Some && old.block_c is Some {
                &&& group0_applied(
                    old.ps_segments@,
                    new.ps_segments@,
                    old.block_b->0,
                    data,
                )
                &&& opt_string_view(new.ps) == match assemble_ps_spec(new.ps_segments@) {
                    Some(name) => Some(name),
                    None => opt_string_view(old.ps),
                }
            } else {
                &&& new.ps_segments@ == old.ps_segments@
                &&& opt_string_view(new.ps) == opt_string_view(old.ps)
            }
        },
    }
}

impl GroupAssembler {
    pub fn new() -> (g: GroupAssembler)
        ensures
            g.expecting is None,
            g.block_a is None,
            g.block_b is None,
            g.block_c is None,
            forall|i: int| 0 <= i < 4 ==> (#[trigger] g.ps_segments@[i]) is None,
            g.ps is None,
    {
        GroupAssembler {
            expecting: None,
            block_a: None,
            block_b: None,
            block_c: None,
            ps_segments: [None, None, None, None],
            ps: None,
        }
    }

    /// Take one identified block into the group being assembled.
    pub fn handle_block(&mut self, offset: BlockOffset, data: u16)
        ensures
            handle_block_spec(*old(self), *final(self), offset, data),
    {
        match offset {
            BlockOffset::A => {
                self.block_a = Some(data);
                self.block_b = None;
                self.block_c = None;
                self.expecting = Some(BlockOffset::B);
            },
            BlockOffset::B => {
                let expecting_b = match self.expecting {
                    Some(BlockOffset::B) => true,
                    _ => false,
                };
                if expecting_b || self.block_a.is_some() {
                    self.block_b = Some(data);
                    self.expecting = Some(BlockOffset::C);
                }
            },
            BlockOffset::C | BlockOffset::Cp => {
                let expecting_c = match self.expecting {
                    Some(BlockOffset::C) => true,
                    _ => false,
                };
                if expecting_c {
                    self.block_c = Some(data);
                    self.expecting = Some(BlockOffset::D);
                }
            },
            BlockOffset::D => {
                if let (Some(_a), Some(b), Some(_c)) = (self.block_a, self.block_b, self.block_c) {
                    apply_group0_ps(&mut self.ps_segments, b, data);
                    if let Some(name) = assemble_ps(&self.ps_segments) {
                        self.ps = Some(name);
                    }
                }
                self.expecting = None;
                self.block_a = None;
                self.block_b = None;
                self.block_c = None;
            },
        }
    }
}

/// A group received in order (A, B, C or C', D) writes the PS fragment
/// carried in its D block into the segment that its B block addresses,
/// whatever state the assembler was in before.
pub proof fn lemma_group_fills_segment(
    s0: GroupAssembler,
    s1: GroupAssembler,
    s2: GroupAssembler,
    s3: GroupAssembler,
    s4: GroupAssembler,
    a: u16,
    b: u16,
    c_offset: BlockOffset,
    c: u16,
    d: u16,
)
    requires
        c_offset == BlockOffset::C || c_offset == BlockOffset::Cp,
        handle_block_spec(s0, s1, BlockOffset::A, a),
        handle_block_spec(s1, s2, BlockOffset::B, b),
        handle_block_spec(s2, s3, c_offset, c),
        handle_block_spec(s3, s4, BlockOffset::D, d),
    ensures
        group0_applied(s0.ps_segments@, s4.ps_segments@, b, d),
        s4.expecting is None,
{
}

/// Bits in, PS name out: block synchronisation followed by group assembly.
pub struct RdsGroupDecoder {
    pub sync: BlockSync,
    pub groups: GroupAssembler,
}

impl RdsGroupDecoder {
    pub fn new() -> (d: RdsGroupDecoder)
        ensures
            d.sync == block_sync_reset(),
            d.groups.expecting is None,
            d.groups.block_a is None,
            d.groups.block_b is None,
            d.groups.block_c is None,
            forall|i: int| 0 <= i < 4 ==> (#[trigger] d.groups.ps_segments@[i]) is None,
            d.groups.ps is None,
    {
        RdsGroupDecoder { sync: BlockSync::new(), groups: GroupAssembler::new() }
    }

    /// The Program Service name, once a complete one has been received.
    pub fn ps_name(&self) -> (r: Option<&str>)
        ensures
            match r {
                Some(s) => opt_string_view(self.groups.ps) == Some(s@),
                None => self.groups.ps is None,
            },
    {
        match &self.groups.ps {
            Some(name) => Some(name.as_str()),
            None => None,
        }
    }

    /// Feed one demodulated bit.
    pub fn push_bit(&mut self, bit: u8)
        ensures
            final(self).sync == sync_push(old(self).sync, bit).0,
            match sync_push(old(self).sync, bit).1 {
                Some((offset, data)) => handle_block_spec(
                    old(self).groups,
                    final(self).groups,
                    offset,
                    data,
                ),
                None => final(self).groups == old(self).groups,
            },
    {
        if let Some((offset, data)) = self.sync.push_bit(bit) {
            self.groups.handle_block(offset, data);
        }
    }
}

/// A received PS name is never lost: once the assembler holds a name, it
/// holds one after any further block.
pub proof fn lemma_ps_name_kept(
    old: GroupAssembler,
    new: GroupAssembler,
    offset: BlockOffset,
    data: u16,
)
    requires
        handle_block_spec(old, new, offset, data),
        old.ps is Some,
    ensures
        new.ps is Some,
{
}
} // verus!
