//! Protocol logic of the DigitalPersona U.are.U 4500 reader (USB `05ba:000a`):
//! frame header parsing, descrambling, assembly and normalization of images.

use vstd::prelude::*;

use crate::text::{
    ascii_bytes, decimal_nat, hex_fixed, hex_nat, push_char, push_decimal_bytes, push_decimal_u64,
    push_hex, push_hex_fixed, string_of,
};

verus! {

pub const VID: u16 = 0x05ba;
pub const PID: u16 = 0x000a;

pub const IMAGE_WIDTH: usize = 384;
pub const IMAGE_HEIGHT: usize = 290;
/// The sensor resolution in pixels per inch; MINDTCT scales minutiae with it.
pub const IMAGE_PPI: u16 = 500;

pub const HEADER_LEN: usize = 64;
pub const TRANSFER_LEN: usize = 111424;
pub const NUM_BLOCKS: usize = 15;

pub const REG_HWSTAT: u16 = 0x07;
pub const REG_SCRAMBLE_DATA_INDEX: u16 = 0x33;
pub const REG_SCRAMBLE_DATA_KEY: u16 = 0x34;
pub const REG_MODE: u16 = 0x4e;
pub const REG_DEVICE_INFO: u16 = 0xf0;

pub const MODE_AWAIT_FINGER_ON: u8 = 0x10;
pub const MODE_AWAIT_FINGER_OFF: u8 = 0x12;
pub const MODE_CAPTURE: u8 = 0x20;
pub const MODE_OFF: u8 = 0x70;

pub const IRQ_SCANPWR_ON: u16 = 0x56aa;
pub const IRQ_FINGER_ON: u16 = 0x0101;
pub const IRQ_FINGER_OFF: u16 = 0x0200;
pub const IRQ_DEATH: u16 = 0x0800;

/// A frame whose first two lines are noisier than this is taken to be scrambled.
pub const ENC_THRESHOLD: i64 = 5000;

pub const BLOCKF_CHANGE_KEY: u8 = 0x80;
pub const BLOCKF_NO_KEY_UPDATE: u8 = 0x04;
pub const BLOCKF_ENCRYPTED: u8 = 0x02;
pub const BLOCKF_NOT_PRESENT: u8 = 0x01;

/// Bit `i` of `k`, as 0 or 1.
pub open spec fn bit(k: u32, i: u32) -> u32 {
    (k >> i) & 1
}

/// The feedback bit of the reader's scrambling LFSR: the parity of the taps
/// at bits 0 2 3 6 10 12 19 22 25 28 31.
pub open spec fn lfsr_feedback(key: u32) -> u32 {
    bit(key, 0) ^ bit(key, 2) ^ bit(key, 3) ^ bit(key, 6) ^ bit(key, 10) ^ bit(key, 12)
        ^ bit(key, 19) ^ bit(key, 22) ^ bit(key, 25) ^ bit(key, 28) ^ bit(key, 31)
}

/// One LFSR step: shift right, feedback bit enters at bit 31.
pub open spec fn lfsr_next(key: u32) -> u32 {
    (lfsr_feedback(key) << 31) | (key >> 1)
}

/// `n` LFSR steps.
pub open spec fn lfsr_iter(key: u32, n: nat) -> u32
    decreases n,
{
    if n == 0 {
        key
    } else {
        lfsr_next(lfsr_iter(key, (n - 1) as nat))
    }
}

proof fn lemma_smear_parity(key: u32, b0: u32, b1: u32, b2: u32, b3: u32, b4: u32, b5: u32)
    by (bit_vector)
    requires
        b0 == key & 0x9248_144d,
        b1 == b0 ^ (b0 << 16),
        b2 == b1 ^ (b1 << 8),
        b3 == b2 ^ (b2 << 4),
        b4 == b3 ^ (b3 << 2),
        b5 == b4 ^ (b4 << 1),
    ensures
        ((b5 & 0x8000_0000) | (key >> 1)) == lfsr_next(key),
{
}

/// Advances the scrambling key by one LFSR step.
pub fn update_key(key: u32) -> (r: u32)
    ensures
        r == lfsr_next(key),
{
    let b0 = key & 0x9248_144d;
    let b1 = b0 ^ (b0 << 16);
    let b2 = b1 ^ (b1 << 8);
    let b3 = b2 ^ (b2 << 4);
    let b4 = b3 ^ (b3 << 2);
    let b5 = b4 ^ (b4 << 1);
    proof {
        lemma_smear_parity(key, b0, b1, b2, b3, b4, b5);
    }
    (b5 & 0x8000_0000) | (key >> 1)
}

/// The keystream byte the reader XORs into a pixel for a given key state:
/// key bits 4 8 11 14 18 21 24 29 become bits 0..7 of the byte.
pub open spec fn xor_byte(key: u32) -> u8 {
    (bit(key, 4) | (bit(key, 8) << 1) | (bit(key, 11) << 2) | (bit(key, 14) << 3) | (bit(key, 18)
        << 4) | (bit(key, 21) << 5) | (bit(key, 24) << 6) | (bit(key, 29) << 7)) as u8
}

/// `data` after the span `[off, off + len)` is descrambled with `key`: each byte
/// but the last takes its successor XOR the keystream byte, the last becomes 0.
pub open spec fn decoded_span(data: Seq<u8>, off: int, len: int, key: u32) -> Seq<u8> {
    Seq::new(
        data.len(),
        |i: int|
            if off <= i && i < off + len - 1 {
                data[i + 1] ^ xor_byte(lfsr_iter(key, (i - off) as nat))
            } else if len > 0 && i == off + len - 1 {
                0u8
            } else {
                data[i]
            },
    )
}

fn keystream_byte(key: u32) -> (b: u8)
    ensures
        b == xor_byte(key),
{
    let b = (((key >> 4) & 1) as u8) | ((((key >> 8) & 1) as u8) << 1) | ((((key >> 11) & 1) as u8)
        << 2) | ((((key >> 14) & 1) as u8) << 3) | ((((key >> 18) & 1) as u8) << 4) | ((((key
        >> 21) & 1) as u8) << 5) | ((((key >> 24) & 1) as u8) << 6) | ((((key >> 29) & 1) as u8)
        << 7);
    assert(b == xor_byte(key)) by (bit_vector)
        requires
            b == (((key >> 4) & 1) as u8) | ((((key >> 8) & 1) as u8) << 1) | ((((key >> 11) & 1)
                as u8) << 2) | ((((key >> 14) & 1) as u8) << 3) | ((((key >> 18) & 1) as u8) << 4)
                | ((((key >> 21) & 1) as u8) << 5) | ((((key >> 24) & 1) as u8) << 6) | ((((key
                >> 29) & 1) as u8) << 7),
    ;
    b
}

/// Descrambles `data[off..off + len]` in place and returns the key for the
/// next block.
pub fn decode_span(data: &mut [u8], off: usize, len: usize, key: u32) -> (next: u32)
    requires
        off + len <= old(data)@.len(),
    ensures
        final(data)@ == decoded_span(old(data)@, off as int, len as int, key),
        next == lfsr_iter(key, len as nat),
{
    let ghost orig = data@;
    let total = data.len();
    if len == 0 {
        assert(data@ =~= decoded_span(orig, off as int, 0, key));
        return key;
    }
    let mut k = key;
    let mut i: usize = 0;
    while i < len - 1
        invariant
            0 < len,
            total == orig.len(),
            off + len <= orig.len(),
            i <= len - 1,
            data@.len() == orig.len(),
            k == lfsr_iter(key, i as nat),
            forall|j: int|
                0 <= j < orig.len() ==> #[trigger] data@[j] == (if off <= j && j < off + i {
                    decoded_span(orig, off as int, len as int, key)[j]
                } else {
                    orig[j]
                }),
        decreases len - 1 - i,
    {
        let x = keystream_byte(k);
        let next_byte = data[off + i + 1];
        data[off + i] = next_byte ^ x;
        k = update_key(k);
        i = i + 1;
    }
    data[off + len - 1] = 0;
    assert(data@ =~= decoded_span(orig, off as int, len as int, key));
    update_key(k)
}

/// Descrambles a whole block in place and returns the key for the next block.
pub fn do_decode(data: &mut [u8], key: u32) -> (next: u32)
    ensures
        final(data)@ == decoded_span(old(data)@, 0, old(data)@.len() as int, key),
        next == lfsr_iter(key, old(data)@.len()),
{
    let n = data.len();
    decode_span(data, 0, n, key)
}

/// `s` reversed with every pixel inverted (`255 - p`).
pub open spec fn inverted_reverse(s: Seq<u8>) -> Seq<u8> {
    Seq::new(s.len(), |i: int| (255 - s[s.len() - 1 - i]) as u8)
}

/// The image as the reader's host sees it: rows of `IMAGE_WIDTH` pixels (the
/// last one possibly shorter) are each mirrored, their order is reversed, and
/// every pixel is inverted.
pub open spec fn normalized(img: Seq<u8>) -> Seq<u8>
    decreases img.len(),
{
    if img.len() <= IMAGE_WIDTH {
        inverted_reverse(img)
    } else {
        normalized(img.subrange(IMAGE_WIDTH as int, img.len() as int)) + inverted_reverse(
            img.subrange(0, IMAGE_WIDTH as int),
        )
    }
}

/// Normalizing is a rotation by 180 degrees with inverted pixels, whatever
/// the image's length: reversing each row and then the order of the rows
/// reverses the whole.
pub proof fn lemma_normalized_is_turn(img: Seq<u8>)
    ensures
        normalized(img) == inverted_reverse(img),
    decreases img.len(),
{
    if img.len() > IMAGE_WIDTH {
        let rest = img.subrange(IMAGE_WIDTH as int, img.len() as int);
        lemma_normalized_is_turn(rest);
        assert(normalized(img) =~= inverted_reverse(img));
    }
}

/// Normalizing twice gives back the image.
pub proof fn normalize_twice_is_identity(img: Seq<u8>)
    ensures
        normalized(normalized(img)) == img,
{
    lemma_normalized_is_turn(img);
    lemma_normalized_is_turn(inverted_reverse(img));
    assert(inverted_reverse(inverted_reverse(img)) =~= img);
}

/// Flips a raw frame horizontally and vertically and inverts its pixels, as
/// the reader delivers images upside down and in negative.
pub fn normalize(img: Vec<u8>) -> (out: Vec<u8>)
    ensures
        out@ == normalized(img@),
        out@ == inverted_reverse(img@),
{
    proof {
        lemma_normalized_is_turn(img@);
    }
    let n = img.len();
    let rows: usize = if n == 0 {
        0
    } else {
        (n - 1) / IMAGE_WIDTH + 1
    };
    let mut out: Vec<u8> = Vec::with_capacity(n);
    let mut r: usize = rows;
    proof {
        assert(rows * IMAGE_WIDTH >= n) by (nonlinear_arith)
            requires
                n == 0 ==> rows == 0,
                n > 0 ==> rows == (n - 1) / 384 + 1,
        ;
        assert(img@.subrange(n as int, n as int) =~= Seq::<u8>::empty());
    }
    while r > 0
        invariant
            n == img@.len(),
            r <= rows,
            n > 0 ==> rows == (n - 1) / (IMAGE_WIDTH as int) + 1,
            n == 0 ==> rows == 0,
            out@ == normalized(
                img@.subrange(
                    if r * IMAGE_WIDTH < n {
                        (r * IMAGE_WIDTH) as int
                    } else {
                        n as int
                    },
                    n as int,
                ),
            ),
        decreases r,
    {
        let ghost prev = out@;
        r = r - 1;
        proof {
            assert(r * IMAGE_WIDTH < n) by (nonlinear_arith)
                requires
                    r < rows,
                    rows == (n - 1) / 384 + 1,
                    n > 0,
            ;
        }
        let start = r * IMAGE_WIDTH;
        let end = if n - start < IMAGE_WIDTH {
            n
        } else {
            start + IMAGE_WIDTH
        };
        let mut j = end;
        while j > start
            invariant
                n == img@.len(),
                start < end <= n,
                start <= j <= end,
                out@.len() == prev.len() + (end - j),
                forall|k: int| 0 <= k < prev.len() ==> #[trigger] out@[k] == prev[k],
                forall|k: int|
                    0 <= k < end - j ==> #[trigger] out@[prev.len() + k] == (255 - img@[end - 1
                        - k]) as u8,
            decreases j,
        {
            let p = img[j - 1];
            out.push(255 - p);
            j = j - 1;
        }
        proof {
            let s = img@.subrange(start as int, n as int);
            let row = img@.subrange(start as int, end as int);
            let ir = inverted_reverse(row);
            assert forall|k: int| 0 <= k < out@.len() implies #[trigger] out@[k] == (prev
                + ir)[k] by {
                if k >= prev.len() {
                    let kk = k - prev.len();
                    assert(out@[prev.len() + kk] == (255 - img@[end - 1 - kk]) as u8);
                    assert(row[row.len() - 1 - kk] == img@[end - 1 - kk]);
                }
            }
            assert(out@ =~= prev + ir);
            if s.len() <= IMAGE_WIDTH {
                assert(row =~= s);
                assert((r + 1) * IMAGE_WIDTH >= n);
                assert(img@.subrange(n as int, n as int) =~= Seq::<u8>::empty());
                assert(prev =~= Seq::<u8>::empty());
                assert(out@ =~= normalized(s));
            } else {
                assert(s.subrange(IMAGE_WIDTH as int, s.len() as int) =~= img@.subrange(
                    (start + IMAGE_WIDTH) as int,
                    n as int,
                ));
                assert(s.subrange(0, IMAGE_WIDTH as int) =~= row);
                assert((r + 1) * IMAGE_WIDTH < n);
            }
        }
    }
    proof {
        assert(img@.subrange(0, n as int) =~= img@);
    }
    out
}

/// `out` with `len` bytes of `raw` starting at `src` copied to `dst`.
pub open spec fn copy_span(out: Seq<u8>, dst: int, raw: Seq<u8>, src: int, len: int) -> Seq<u8> {
    Seq::new(out.len(), |i: int| if dst <= i && i < dst + len { raw[src + i - dst] } else { out[i] })
}

/// Whether the block described by `num` lines is copied when assembling with
/// `src_line` source lines and `dst` output bytes already placed.
pub open spec fn block_copied(num: int, num_lines: int, src_line: int, dst: int) -> bool {
    &&& num != 0
    &&& src_line < num_lines
    &&& src_line + num <= IMAGE_HEIGHT
    &&& dst + num * IMAGE_WIDTH <= IMAGE_WIDTH * IMAGE_HEIGHT
}

/// The source line count after a block: lines of a block marked not present
/// are read again by the next block.
pub open spec fn next_src_line(flags: u8, num: int, src_line: int) -> int {
    if flags & BLOCKF_NOT_PRESENT == 0 {
        src_line + num
    } else {
        src_line
    }
}

/// Assembling the rest of the blocks onto `out`: each block's lines are
/// copied in order until a block is empty, the frame's lines are used up,
/// or a block would overrun the image.
pub open spec fn assembled_from(
    raw: Seq<u8>,
    blocks: Seq<(u8, usize)>,
    num_lines: int,
    src_line: int,
    dst: int,
    out: Seq<u8>,
) -> Seq<u8>
    decreases blocks.len(),
{
    if blocks.len() == 0 {
        out
    } else {
        let flags = blocks[0].0;
        let num = blocks[0].1 as int;
        if !block_copied(num, num_lines, src_line, dst) {
            out
        } else {
            assembled_from(
                raw,
                blocks.drop_first(),
                num_lines,
                next_src_line(flags, num, src_line),
                dst + num * IMAGE_WIDTH,
                copy_span(out, dst, raw, HEADER_LEN + src_line * IMAGE_WIDTH, num * IMAGE_WIDTH),
            )
        }
    }
}

/// Assembling blocks keeps the size of the image they are laid out onto.
pub proof fn lemma_assembled_from_len(
    raw: Seq<u8>,
    blocks: Seq<(u8, usize)>,
    num_lines: int,
    src_line: int,
    dst: int,
    out: Seq<u8>,
)
    ensures
        assembled_from(raw, blocks, num_lines, src_line, dst, out).len() == out.len(),
    decreases blocks.len(),
{
    if blocks.len() > 0 {
        let flags = blocks[0].0;
        let num = blocks[0].1 as int;
        if block_copied(num, num_lines, src_line, dst) {
            lemma_assembled_from_len(
                raw,
                blocks.drop_first(),
                num_lines,
                next_src_line(flags, num, src_line),
                dst + num * IMAGE_WIDTH,
                copy_span(out, dst, raw, HEADER_LEN + src_line * IMAGE_WIDTH, num * IMAGE_WIDTH),
            );
        }
    }
}

/// Normalizing keeps the number of pixels.
pub proof fn lemma_normalized_len(img: Seq<u8>)
    ensures
        normalized(img).len() == img.len(),
    decreases img.len(),
{
    if img.len() > IMAGE_WIDTH {
        lemma_normalized_len(img.subrange(IMAGE_WIDTH as int, img.len() as int));
    }
}

/// Every decoded frame is a whole `IMAGE_WIDTH` by `IMAGE_HEIGHT` image,
/// whatever its header says.
pub proof fn frame_images_are_whole(raw: Seq<u8>, blocks: Seq<(u8, usize)>, num_lines: int)
    ensures
        normalized(assembled(raw, blocks, num_lines)).len() == IMAGE_WIDTH * IMAGE_HEIGHT,
{
    lemma_assembled_from_len(raw, blocks, num_lines, 0, 0, blank_image());
    lemma_normalized_len(assembled(raw, blocks, num_lines));
}

/// The lines each copied block reads lie within a raw buffer of `raw_len` bytes.
pub open spec fn assembly_reads_fit(
    raw_len: int,
    blocks: Seq<(u8, usize)>,
    num_lines: int,
    src_line: int,
    dst: int,
) -> bool
    decreases blocks.len(),
{
    if blocks.len() == 0 {
        true
    } else {
        let flags = blocks[0].0;
        let num = blocks[0].1 as int;
        if !block_copied(num, num_lines, src_line, dst) {
            true
        } else {
            &&& HEADER_LEN + (src_line + num) * IMAGE_WIDTH <= raw_len
            &&& assembly_reads_fit(
                raw_len,
                blocks.drop_first(),
                num_lines,
                next_src_line(flags, num, src_line),
                dst + num * IMAGE_WIDTH,
            )
        }
    }
}

/// The blank image blocks are assembled onto.
pub open spec fn blank_image() -> Seq<u8> {
    Seq::new((IMAGE_WIDTH * IMAGE_HEIGHT) as nat, |i: int| 0u8)
}

/// The image assembled from a frame's blocks.
pub open spec fn assembled(raw: Seq<u8>, blocks: Seq<(u8, usize)>, num_lines: int) -> Seq<u8> {
    assembled_from(raw, blocks, num_lines, 0, 0, blank_image())
}

/// Lays the lines of the frame's blocks out into one `IMAGE_WIDTH` by
/// `IMAGE_HEIGHT` image.
pub fn assemble(raw: &[u8], blocks: &[(u8, usize)], num_lines: usize) -> (out: Vec<u8>)
    requires
        assembly_reads_fit(raw@.len() as int, blocks@, num_lines as int, 0, 0),
    ensures
        out@ == assembled(raw@, blocks@, num_lines as int),
{
    let mut out: Vec<u8> = vec![0u8; IMAGE_WIDTH * IMAGE_HEIGHT];
    assert(out@ =~= blank_image());
    let mut src_line: usize = 0;
    let mut dst: usize = 0;
    let mut b: usize = 0;
    let raw_len = raw.len();
    assert(blocks@.skip(0) =~= blocks@);
    while b < blocks.len()
        invariant
            raw_len == raw@.len(),
            b <= blocks@.len(),
            src_line <= IMAGE_HEIGHT,
            dst <= IMAGE_WIDTH * IMAGE_HEIGHT,
            out@.len() == IMAGE_WIDTH * IMAGE_HEIGHT,
            assembled(raw@, blocks@, num_lines as int) == assembled_from(
                raw@,
                blocks@.skip(b as int),
                num_lines as int,
                src_line as int,
                dst as int,
                out@,
            ),
            assembly_reads_fit(
                raw@.len() as int,
                blocks@.skip(b as int),
                num_lines as int,
                src_line as int,
                dst as int,
            ),
        ensures
            out@ == assembled(raw@, blocks@, num_lines as int),
        decreases blocks@.len() - b,
    {
        let ghost rest = blocks@.skip(b as int);
        assert(rest[0] == blocks@[b as int]);
        assert(rest.drop_first() =~= blocks@.skip(b + 1));
        let (flags, num) = blocks[b];
        if num == 0 || src_line >= num_lines {
            break;
        }
        if num > IMAGE_HEIGHT - src_line || num * IMAGE_WIDTH > IMAGE_WIDTH * IMAGE_HEIGHT - dst {
            assert(!block_copied(num as int, num_lines as int, src_line as int, dst as int));
            break;
        }
        assert(block_copied(num as int, num_lines as int, src_line as int, dst as int));
        assert(HEADER_LEN + (src_line + num) * IMAGE_WIDTH <= raw@.len());
        let off = HEADER_LEN + src_line * IMAGE_WIDTH;
        let len = num * IMAGE_WIDTH;
        let ghost before = out@;
        let mut i: usize = 0;
        while i < len
            invariant
                len == num * IMAGE_WIDTH,
                dst + len <= IMAGE_WIDTH * IMAGE_HEIGHT,
                before.len() == IMAGE_WIDTH * IMAGE_HEIGHT,
                off + len <= raw@.len(),
                raw_len == raw@.len(),
                i <= len,
                out@.len() == before.len(),
                forall|k: int|
                    0 <= k < out@.len() ==> #[trigger] out@[k] == (if dst <= k && k < dst + i {
                        raw@[off + k - dst]
                    } else {
                        before[k]
                    }),
            decreases len - i,
        {
            out.set(dst + i, raw[off + i]);
            i = i + 1;
        }
        assert(out@ =~= copy_span(before, dst as int, raw@, off as int, len as int));
        if flags & BLOCKF_NOT_PRESENT == 0 {
            src_line = src_line + num;
        }
        dst = dst + len;
        b = b + 1;
        proof {
            if b == blocks@.len() {
                assert(blocks@.skip(b as int) =~= Seq::<(u8, usize)>::empty());
            }
        }
    }
    out
}

/// The number of lines in blocks that are present in the frame.
pub open spec fn present_lines(blocks: Seq<(u8, usize)>) -> int
    decreases blocks.len(),
{
    if blocks.len() == 0 {
        0
    } else {
        (if blocks[0].0 & BLOCKF_NOT_PRESENT == 0 {
            blocks[0].1 as int
        } else {
            0
        }) + present_lines(blocks.drop_first())
    }
}

proof fn lemma_present_lines_push(blocks: Seq<(u8, usize)>, b: int)
    requires
        0 <= b < blocks.len(),
    ensures
        present_lines(blocks.take(b + 1)) == present_lines(blocks.take(b)) + (if blocks[b].0
            & BLOCKF_NOT_PRESENT == 0 {
            blocks[b].1 as int
        } else {
            0
        }),
    decreases b,
{
    if b > 0 {
        lemma_present_lines_push(blocks.drop_first(), b - 1);
        assert(blocks.take(b + 1).drop_first() =~= blocks.drop_first().take(b));
        assert(blocks.take(b).drop_first() =~= blocks.drop_first().take(b - 1));
        assert(blocks.take(b + 1)[0] == blocks[0]);
        assert(blocks.take(b)[0] == blocks[0]);
        assert(blocks.drop_first()[b - 1] == blocks[b]);
    } else {
        assert(blocks.take(1).drop_first() =~= Seq::<(u8, usize)>::empty());
        assert(blocks.take(0) =~= Seq::<(u8, usize)>::empty());
        assert(present_lines(Seq::<(u8, usize)>::empty()) == 0);
        assert(blocks.take(1)[0] == blocks[0]);
    }
}

proof fn lemma_present_lines_nonneg(blocks: Seq<(u8, usize)>)
    ensures
        present_lines(blocks) >= 0,
    decreases blocks.len(),
{
    if blocks.len() > 0 {
        lemma_present_lines_nonneg(blocks.drop_first());
    }
}

proof fn lemma_present_lines_prefix(blocks: Seq<(u8, usize)>, b: int)
    requires
        0 <= b <= blocks.len(),
    ensures
        present_lines(blocks.take(b)) <= present_lines(blocks),
    decreases blocks.len() - b,
{
    if b < blocks.len() {
        lemma_present_lines_push(blocks, b);
        lemma_present_lines_prefix(blocks, b + 1);
    } else {
        assert(blocks.take(b) =~= blocks);
    }
}

/// The sum of the two pixels in column `i` of the frame's first two lines.
pub open spec fn column_pair(raw: Seq<u8>, i: int) -> int {
    raw[HEADER_LEN + i] as int + raw[HEADER_LEN + IMAGE_WIDTH + i] as int
}

pub open spec fn column_pair_sum(raw: Seq<u8>, n: int) -> int
    decreases n,
{
    if n <= 0 {
        0
    } else {
        column_pair_sum(raw, n - 1) + column_pair(raw, n - 1)
    }
}

pub open spec fn squared_deviation_sum(raw: Seq<u8>, n: int, mean: int) -> int
    decreases n,
{
    if n <= 0 {
        0
    } else {
        squared_deviation_sum(raw, n - 1, mean) + (column_pair(raw, n - 1) - mean) * (column_pair(
            raw,
            n - 1,
        ) - mean)
    }
}

/// The variance of the column sums of the frame's first two lines: the
/// measure the reader's driver uses to tell a scrambled frame from a clear one.
pub open spec fn line_noise(raw: Seq<u8>) -> int {
    let mean = column_pair_sum(raw, IMAGE_WIDTH as int) / (IMAGE_WIDTH as int);
    squared_deviation_sum(raw, IMAGE_WIDTH as int, mean) / (IMAGE_WIDTH as int)
}

/// The noise of a frame: `line_noise` when its present blocks hold at least
/// two lines, else 0.
pub open spec fn frame_noise(raw: Seq<u8>, blocks: Seq<(u8, usize)>) -> int {
    if present_lines(blocks) >= 2 {
        line_noise(raw)
    } else {
        0
    }
}

/// How noisy the first two lines of a frame are; frames at or above
/// `ENC_THRESHOLD` are scrambled.
pub fn noisiness(raw: &[u8], blocks: &[(u8, usize)]) -> (noise: i64)
    requires
        present_lines(blocks@) >= 2 ==> raw@.len() >= HEADER_LEN + 2 * IMAGE_WIDTH,
    ensures
        noise == frame_noise(raw@, blocks@),
{
    let mut count: usize = 0;
    let mut b: usize = 0;
    assert(blocks@.take(0) =~= Seq::<(u8, usize)>::empty());
    while b < blocks.len() && count < 2
        invariant
            b <= blocks@.len(),
            count <= 2,
            count < 2 ==> count == present_lines(blocks@.take(b as int)),
            count == 2 ==> present_lines(blocks@.take(b as int)) >= 2,
        decreases blocks@.len() - b,
    {
        proof {
            lemma_present_lines_push(blocks@, b as int);
        }
        let (flags, num) = blocks[b];
        b = b + 1;
        if flags & BLOCKF_NOT_PRESENT == 0 {
            if num >= 2 - count {
                count = 2;
            } else {
                count = count + num;
            }
        }
    }
    proof {
        if count == 2 {
            lemma_present_lines_prefix(blocks@, b as int);
        } else {
            assert(blocks@.take(b as int) =~= blocks@);
        }
    }
    if count < 2 {
        return 0;
    }
    let mut total: i64 = 0;
    let mut i: usize = 0;
    while i < IMAGE_WIDTH
        invariant
            raw@.len() >= HEADER_LEN + 2 * IMAGE_WIDTH,
            i <= IMAGE_WIDTH,
            total == column_pair_sum(raw@, i as int),
            0 <= total <= 510 * i,
        decreases IMAGE_WIDTH - i,
    {
        total = total + raw[HEADER_LEN + i] as i64 + raw[HEADER_LEN + IMAGE_WIDTH + i] as i64;
        i = i + 1;
    }
    let mean = total / (IMAGE_WIDTH as i64);
    assert(0 <= mean <= 510);
    let mut res: i64 = 0;
    i = 0;
    while i < IMAGE_WIDTH
        invariant
            raw@.len() >= HEADER_LEN + 2 * IMAGE_WIDTH,
            i <= IMAGE_WIDTH,
            0 <= mean <= 510,
            mean == column_pair_sum(raw@, IMAGE_WIDTH as int) / (IMAGE_WIDTH as int),
            res == squared_deviation_sum(raw@, i as int, mean as int),
            0 <= res <= 260100 * i,
        decreases IMAGE_WIDTH - i,
    {
        let dev = raw[HEADER_LEN + i] as i64 + raw[HEADER_LEN + IMAGE_WIDTH + i] as i64 - mean;
        assert(0 <= dev * dev <= 260100) by (nonlinear_arith)
            requires
                -510 <= dev <= 510,
        ;
        res = res + dev * dev;
        i = i + 1;
    }
    res / (IMAGE_WIDTH as i64)
}

/// Failures of the reader. `Usb` and `Transfer` carry the text of the
/// USB stack's error.
#[derive(Debug)]
pub enum Error {
    NotFound,
    Usb(String),
    Transfer(String),
    /// The device did not answer in time; names what was awaited.
    Timeout(String),
    /// The device sent data that makes no sense.
    Protocol(String),
    /// The "interrupt of death": the next scan is bound to fail.
    DeviceDeath,
}

/// The text of an error, as the reader's users see it.
pub open spec fn error_text(e: Error) -> Seq<char> {
    match e {
        Error::NotFound => "U.are.U 4500 ("@ + hex_fixed(VID as nat, 4) + seq![':'] + hex_fixed(
            PID as nat,
            4,
        ) + ") tidak ditemukan di bus USB"@,
        Error::Usb(m) => "usb: "@ + m@,
        Error::Transfer(m) => "transfer: "@ + m@,
        Error::Timeout(m) => "timeout menunggu "@ + m@,
        Error::Protocol(m) => "protokol: "@ + m@,
        Error::DeviceDeath => "device mengirim interrupt 0x0800 (scan gagal)"@,
    }
}

impl Error {
    /// The text of the error.
    pub fn message(&self) -> (m: String)
        ensures
            m@ == error_text(*self),
    {
        match self {
            Error::NotFound => {
                let mut m = string_of("U.are.U 4500 (");
                push_hex_fixed(&mut m, VID as u64, 4);
                push_char(&mut m, ':');
                push_hex_fixed(&mut m, PID as u64, 4);
                m.append(") tidak ditemukan di bus USB");
                m
            },
            Error::Usb(e) => {
                let mut m = string_of("usb: ");
                m.append(e.as_str());
                m
            },
            Error::Transfer(e) => {
                let mut m = string_of("transfer: ");
                m.append(e.as_str());
                m
            },
            Error::Timeout(what) => {
                let mut m = string_of("timeout menunggu ");
                m.append(what.as_str());
                m
            },
            Error::Protocol(what) => {
                let mut m = string_of("protokol: ");
                m.append(what.as_str());
                m
            },
            Error::DeviceDeath => string_of("device mengirim interrupt 0x0800 (scan gagal)"),
        }
    }
}

/// The text of a protocol error naming a number.
pub open spec fn with_number(prefix: Seq<char>, n: nat, suffix: Seq<char>) -> Seq<char> {
    prefix + decimal_nat(n) + suffix
}

fn protocol_with_number(prefix: &str, n: u64, suffix: &str) -> (e: Error)
    ensures
        e matches Error::Protocol(m) && m@ == with_number(prefix@, n as nat, suffix@),
{
    let mut m = string_of(prefix);
    push_decimal_u64(&mut m, n);
    m.append(suffix);
    Error::Protocol(m)
}

/// What an interrupt packet means: too short, the interrupt of death, or an
/// interrupt code (big-endian in the first two bytes).
pub fn decode_irq(packet: &[u8]) -> (r: Result<u16, Error>)
    ensures
        packet@.len() < 2 ==> (r matches Err(Error::Protocol(m)) && m@ == with_number(
            "interrupt cuma "@,
            packet@.len(),
            " byte"@,
        )),
        packet@.len() >= 2 && packet@[0] as int * 256 + packet@[1] as int == IRQ_DEATH ==> (
        r matches Err(Error::DeviceDeath)),
        packet@.len() >= 2 && packet@[0] as int * 256 + packet@[1] as int != IRQ_DEATH ==> r
            == Ok::<u16, Error>((packet@[0] as int * 256 + packet@[1] as int) as u16),
{
    if packet.len() < 2 {
        return Err(protocol_with_number("interrupt cuma ", packet.len() as u64, " byte"));
    }
    let irq: u16 = packet[0] as u16 * 256 + packet[1] as u16;
    if irq == IRQ_DEATH {
        return Err(Error::DeviceDeath);
    }
    Ok(irq)
}

/// The value of the first register in a register read, or the error for an
/// empty answer.
pub fn first_register(reg: u16, values: &[u8]) -> (r: Result<u8, Error>)
    ensures
        values@.len() > 0 ==> r == Ok::<u8, Error>(values@[0]),
        values@.len() == 0 ==> (r matches Err(Error::Protocol(m)) && m@ == "register 0x"@
            + hex_nat(reg as nat) + " balik kosong"@),
{
    if values.len() > 0 {
        Ok(values[0])
    } else {
        let mut m = string_of("register 0x");
        push_hex(&mut m, reg as u64);
        m.append(" balik kosong");
        Err(Error::Protocol(m))
    }
}

/// The hardware/firmware version text: bytes 10, 11, 4 and 5 of the device
/// information registers in two-digit hex, as `hhhh / ffff`.
pub open spec fn version_text(info: Seq<u8>) -> Seq<char> {
    hex_fixed(info[10] as nat, 2) + hex_fixed(info[11] as nat, 2) + " / "@ + hex_fixed(
        info[4] as nat,
        2,
    ) + hex_fixed(info[5] as nat, 2)
}

/// Formats the hardware/firmware version from the device information registers.
pub fn version_from_info(info: &[u8]) -> (r: Result<String, Error>)
    ensures
        info@.len() < 12 ==> (r matches Err(Error::Protocol(m)) && m@
            == "device info terlalu pendek"@),
        info@.len() >= 12 ==> (r matches Ok(v) && v@ == version_text(info@)),
{
    if info.len() < 12 {
        return Err(Error::Protocol(string_of("device info terlalu pendek")));
    }
    let mut v = String::new();
    push_hex_fixed(&mut v, info[10] as u64, 2);
    push_hex_fixed(&mut v, info[11] as u64, 2);
    v.append(" / ");
    push_hex_fixed(&mut v, info[4] as u64, 2);
    push_hex_fixed(&mut v, info[5] as u64, 2);
    assert(v@ =~= version_text(info@));
    Ok(v)
}

/// The PGM (P5) header of an `IMAGE_WIDTH` by `IMAGE_HEIGHT` grayscale image.
pub open spec fn pgm_header() -> Seq<u8> {
    seq![80u8, 53u8, 10u8] + ascii_bytes(decimal_nat(IMAGE_WIDTH as nat)) + seq![32u8]
        + ascii_bytes(decimal_nat(IMAGE_HEIGHT as nat)) + seq![10u8, 50u8, 53u8, 53u8, 10u8]
}

/// The bytes of a PGM file holding `img`.
pub fn pgm_bytes(img: &[u8]) -> (out: Vec<u8>)
    ensures
        out@ == pgm_header() + img@,
{
    let mut out: Vec<u8> = Vec::new();
    out.push(80);
    out.push(53);
    out.push(10);
    push_decimal_bytes(&mut out, IMAGE_WIDTH as u64);
    out.push(32);
    push_decimal_bytes(&mut out, IMAGE_HEIGHT as u64);
    out.push(10);
    out.push(50);
    out.push(53);
    out.push(53);
    out.push(10);
    let ghost header = out@;
    assert(header =~= pgm_header());
    let mut i: usize = 0;
    while i < img.len()
        invariant
            i <= img@.len(),
            out@ =~= header + img@.subrange(0, i as int),
        decreases img@.len() - i,
    {
        out.push(img[i]);
        i = i + 1;
    }
    assert(img@.subrange(0, img@.len() as int) =~= img@);
    out
}

/// A frame read from the bulk endpoint: its buffer padded or cut to
/// `TRANSFER_LEN`, with the header fields the rest of the decoding needs.
pub struct Frame {
    pub raw: Vec<u8>,
    pub num_lines: usize,
    pub key_number: u8,
    /// `(flags, lines)` of each of the `NUM_BLOCKS` blocks.
    pub blocks: Vec<(u8, usize)>,
}

/// `buf` zero-padded or cut to `TRANSFER_LEN` bytes.
pub open spec fn padded_transfer(buf: Seq<u8>) -> Seq<u8> {
    if buf.len() >= TRANSFER_LEN {
        buf.subrange(0, TRANSFER_LEN as int)
    } else {
        buf + Seq::new((TRANSFER_LEN - buf.len()) as nat, |i: int| 0u8)
    }
}

/// The line count in a frame header (little-endian at bytes 4 and 5).
pub open spec fn header_lines(raw: Seq<u8>) -> int {
    raw[4] as int + 256 * raw[5] as int
}

/// The block table in a frame header: `(flags, lines)` pairs from byte 16 on.
pub open spec fn header_blocks(raw: Seq<u8>) -> Seq<(u8, usize)> {
    Seq::new(NUM_BLOCKS as nat, |i: int| (raw[16 + 2 * i], raw[17 + 2 * i] as usize))
}

/// Whether a header's line count is impossible for a frame of `actual` bytes.
pub open spec fn frame_corrupt(num_lines: int, actual: int) -> bool {
    num_lines >= IMAGE_HEIGHT || actual < num_lines * IMAGE_WIDTH + HEADER_LEN
}

/// Checks and splits up a frame buffer as read from the bulk endpoint.
pub fn parse_frame(buffer: Vec<u8>) -> (r: Result<Frame, Error>)
    ensures
        buffer@.len() < HEADER_LEN ==> (r matches Err(Error::Protocol(m)) && m@ == with_number(
            "citra cuma "@,
            buffer@.len(),
            " byte"@,
        )),
        buffer@.len() >= HEADER_LEN && frame_corrupt(
            header_lines(padded_transfer(buffer@)),
            buffer@.len() as int,
        ) ==> (r matches Err(Error::Protocol(m)) && m@ == "citra rusak: "@ + decimal_nat(
            header_lines(padded_transfer(buffer@)) as nat,
        ) + " baris, "@ + decimal_nat(buffer@.len()) + " byte"@),
        buffer@.len() >= HEADER_LEN && !frame_corrupt(
            header_lines(padded_transfer(buffer@)),
            buffer@.len() as int,
        ) ==> (r matches Ok(f) && f.raw@ == padded_transfer(buffer@) && f.num_lines
            == header_lines(padded_transfer(buffer@)) && f.key_number == padded_transfer(
            buffer@,
        )[6] && f.blocks@ == header_blocks(padded_transfer(buffer@))),
{
    let actual = buffer.len();
    if actual < HEADER_LEN {
        return Err(protocol_with_number("citra cuma ", actual as u64, " byte"));
    }
    let mut raw = buffer;
    raw.truncate(TRANSFER_LEN);
    while raw.len() < TRANSFER_LEN
        invariant
            actual == buffer@.len(),
            raw@.len() <= TRANSFER_LEN,
            raw@.len() >= actual || raw@.len() == TRANSFER_LEN,
            forall|i: int| 0 <= i < raw@.len() ==> #[trigger] raw@[i] == padded_transfer(buffer@)[i],
        decreases TRANSFER_LEN - raw@.len(),
    {
        raw.push(0);
    }
    assert(raw@ =~= padded_transfer(buffer@));
    let num_lines = raw[4] as usize + 256 * raw[5] as usize;
    let key_number = raw[6];
    if num_lines >= IMAGE_HEIGHT || actual < num_lines * IMAGE_WIDTH + HEADER_LEN {
        let mut m = string_of("citra rusak: ");
        push_decimal_u64(&mut m, num_lines as u64);
        m.append(" baris, ");
        push_decimal_u64(&mut m, actual as u64);
        m.append(" byte");
        return Err(Error::Protocol(m));
    }
    let mut blocks: Vec<(u8, usize)> = Vec::new();
    let mut i: usize = 0;
    while i < NUM_BLOCKS
        invariant
            raw@.len() == TRANSFER_LEN,
            i <= NUM_BLOCKS,
            blocks@ =~= header_blocks(raw@).subrange(0, i as int),
        decreases NUM_BLOCKS - i,
    {
        blocks.push((raw[16 + i * 2], raw[17 + i * 2] as usize));
        i = i + 1;
    }
    Ok(Frame { raw, num_lines, key_number, blocks })
}

/// Every block that assembly copies lies inside a full-size frame buffer.
pub proof fn lemma_full_frame_reads_fit(
    blocks: Seq<(u8, usize)>,
    num_lines: int,
    src_line: int,
    dst: int,
)
    ensures
        assembly_reads_fit(TRANSFER_LEN as int, blocks, num_lines, src_line, dst),
    decreases blocks.len(),
{
    if blocks.len() > 0 {
        let flags = blocks[0].0;
        let num = blocks[0].1 as int;
        lemma_full_frame_reads_fit(
            blocks.drop_first(),
            num_lines,
            next_src_line(flags, num, src_line),
            dst + num * IMAGE_WIDTH,
        );
    }
}

/// The image of a decoded frame: its blocks assembled, then normalized.
pub fn frame_image(raw: &[u8], blocks: &[(u8, usize)], num_lines: usize) -> (img: Vec<u8>)
    requires
        raw@.len() == TRANSFER_LEN,
    ensures
        img@ == normalized(assembled(raw@, blocks@, num_lines as int)),
{
    proof {
        lemma_full_frame_reads_fit(blocks@, num_lines as int, 0, 0);
    }
    normalize(assemble(raw, blocks, num_lines))
}

/// How one pass over the blocks with one key ended.
#[derive(PartialEq, Eq, Structural, Debug, Clone, Copy)]
pub enum PassEnd {
    /// All lines were decoded.
    Finished,
    /// A block asked for the next key.
    ChangeKey,
    /// Block `.0` of `.1` lines runs past the image.
    Overrun(usize, usize),
}

/// The state of a decoding pass after the blocks before `idx`.
pub open spec fn decode_pass(
    raw: Seq<u8>,
    blocks: Seq<(u8, usize)>,
    idx: int,
    lines_done: int,
    key: u32,
    num_lines: int,
) -> (Seq<u8>, Seq<(u8, usize)>, PassEnd)
    decreases blocks.len() - idx,
{
    if idx < 0 || idx >= blocks.len() || lines_done >= num_lines {
        (raw, blocks, PassEnd::Finished)
    } else {
        let flags = blocks[idx].0;
        let num = blocks[idx].1 as int;
        if num == 0 {
            (raw, blocks, PassEnd::Finished)
        } else if lines_done + num > IMAGE_HEIGHT {
            (raw, blocks, PassEnd::Overrun(idx as usize, num as usize))
        } else if flags & BLOCKF_CHANGE_KEY != 0 {
            (raw, blocks.update(idx, (flags & 0x7f, blocks[idx].1)), PassEnd::ChangeKey)
        } else {
            let off = HEADER_LEN + lines_done * IMAGE_WIDTH;
            let len = IMAGE_WIDTH * num;
            let mode = flags & (BLOCKF_NO_KEY_UPDATE | BLOCKF_ENCRYPTED);
            let raw2 = if mode == BLOCKF_ENCRYPTED {
                decoded_span(raw, off, len, key)
            } else {
                raw
            };
            let key2 = if mode == BLOCKF_ENCRYPTED || mode == 0 {
                lfsr_iter(key, len as nat)
            } else {
                key
            };
            decode_pass(
                raw2,
                blocks,
                idx + 1,
                if flags & BLOCKF_NOT_PRESENT == 0 {
                    lines_done + num
                } else {
                    lines_done
                },
                key2,
                num_lines,
            )
        }
    }
}

/// The next scrambling seed (the reader's driver uses a linear congruential
/// generator).
pub open spec fn next_seed(seed: u32) -> u32 {
    ((seed as int * 1103515245 + 12345) % 0x1_0000_0000) as u32
}

/// A little-endian 32-bit value.
pub open spec fn le_u32(b0: u8, b1: u8, b2: u8, b3: u8) -> u32 {
    (b0 as int + b1 as int * 0x100 + b2 as int * 0x1_0000 + b3 as int * 0x100_0000) as u32
}

/// The bytes written to the scramble-index registers to ask for key `key_number`.
pub open spec fn key_request_bytes(key_number: u8, seed: u32) -> Seq<u8> {
    seq![
        key_number,
        (seed % 0x100) as u8,
        ((seed / 0x100) % 0x100) as u8,
        ((seed / 0x1_0000) % 0x100) as u8,
        (seed / 0x100_0000) as u8,
    ]
}

/// The key request carries the seed as a little-endian word after the key
/// number, the same byte order in which the key's reply is read: the device
/// gets back exactly the seed the driver XORs the reply with.
pub proof fn key_request_carries_seed(key_number: u8, seed: u32)
    ensures
        key_request_bytes(key_number, seed)[0] == key_number,
        le_u32(
            key_request_bytes(key_number, seed)[1],
            key_request_bytes(key_number, seed)[2],
            key_request_bytes(key_number, seed)[3],
            key_request_bytes(key_number, seed)[4],
        ) == seed,
{
    let b = key_request_bytes(key_number, seed);
    assert(b[1] == seed % 0x100);
    assert(b[2] == (seed / 0x100) % 0x100);
    assert(b[3] == (seed / 0x1_0000) % 0x100);
    assert(b[4] == seed / 0x100_0000);
    assert(seed % 0x100 + ((seed / 0x100) % 0x100) * 0x100 + ((seed / 0x1_0000) % 0x100) * 0x1_0000
        + (seed / 0x100_0000) * 0x100_0000 == seed) by (nonlinear_arith);
}

/// A decoding pass over a whole frame with the key derived from a reply of
/// the scramble-key register and the current seed.
pub open spec fn reply_pass(
    raw: Seq<u8>,
    blocks: Seq<(u8, usize)>,
    reply: Seq<u8>,
    seed: u32,
    num_lines: int,
) -> (Seq<u8>, Seq<(u8, usize)>, PassEnd) {
    decode_pass(raw, blocks, 0, 0, le_u32(reply[0], reply[1], reply[2], reply[3]) ^ seed, num_lines)
}

/// The number of blocks that ask for a new key.
pub open spec fn key_changes(blocks: Seq<(u8, usize)>) -> int
    decreases blocks.len(),
{
    if blocks.len() == 0 {
        0
    } else {
        (if blocks[0].0 & BLOCKF_CHANGE_KEY != 0 {
            1int
        } else {
            0int
        }) + key_changes(blocks.drop_first())
    }
}

proof fn lemma_key_changes_bounds(blocks: Seq<(u8, usize)>)
    ensures
        0 <= key_changes(blocks) <= blocks.len(),
    decreases blocks.len(),
{
    if blocks.len() > 0 {
        lemma_key_changes_bounds(blocks.drop_first());
    }
}

proof fn lemma_key_changes_clear(blocks: Seq<(u8, usize)>, j: int)
    requires
        0 <= j < blocks.len(),
        blocks[j].0 & BLOCKF_CHANGE_KEY != 0,
    ensures
        key_changes(blocks.update(j, (blocks[j].0 & 0x7f, blocks[j].1))) == key_changes(blocks) - 1,
    decreases blocks.len(),
{
    let f = blocks[j].0;
    assert(f & 0x7f & 0x80 == 0) by (bit_vector);
    let updated = blocks.update(j, (f & 0x7f, blocks[j].1));
    if j == 0 {
        assert(updated.drop_first() =~= blocks.drop_first());
    } else {
        assert(updated[0] == blocks[0]);
        assert(updated.drop_first() =~= blocks.drop_first().update(j - 1, (f & 0x7f, blocks[j].1)));
        lemma_key_changes_clear(blocks.drop_first(), j - 1);
    }
}

proof fn lemma_pass_clears_one_request(
    raw: Seq<u8>,
    blocks: Seq<(u8, usize)>,
    idx: int,
    lines_done: int,
    key: u32,
    num_lines: int,
)
    ensures
        decode_pass(raw, blocks, idx, lines_done, key, num_lines).2 is ChangeKey ==> key_changes(
            decode_pass(raw, blocks, idx, lines_done, key, num_lines).1,
        ) == key_changes(blocks) - 1,
        !(decode_pass(raw, blocks, idx, lines_done, key, num_lines).2 is ChangeKey) ==> decode_pass(
            raw,
            blocks,
            idx,
            lines_done,
            key,
            num_lines,
        ).1 == blocks,
    decreases blocks.len() - idx,
{
    if !(idx < 0 || idx >= blocks.len() || lines_done >= num_lines) {
        let flags = blocks[idx].0;
        let num = blocks[idx].1 as int;
        if num != 0 && lines_done + num <= IMAGE_HEIGHT {
            if flags & BLOCKF_CHANGE_KEY != 0 {
                lemma_key_changes_clear(blocks, idx);
            } else {
                let off = HEADER_LEN + lines_done * IMAGE_WIDTH;
                let len = IMAGE_WIDTH * num;
                let mode = flags & (BLOCKF_NO_KEY_UPDATE | BLOCKF_ENCRYPTED);
                let raw2 = if mode == BLOCKF_ENCRYPTED {
                    decoded_span(raw, off, len, key)
                } else {
                    raw
                };
                let key2 = if mode == BLOCKF_ENCRYPTED || mode == 0 {
                    lfsr_iter(key, len as nat)
                } else {
                    key
                };
                let ld2 = if flags & BLOCKF_NOT_PRESENT == 0 {
                    lines_done + num
                } else {
                    lines_done
                };
                lemma_pass_clears_one_request(raw2, blocks, idx + 1, ld2, key2, num_lines);
            }
        }
    }
}

/// A parsed frame has `NUM_BLOCKS` blocks, so fewer than `MAX_KEY_ROUNDS`
/// of them ask for a new key: the bound of `descramble_never_runs_out`
/// What one block of a frame does to the key, by its flags: a block whose
/// lines are not encrypted and that does not say "no key update" still
/// advances the key by one LFSR step per byte of its lines, leaving the
/// lines as they are; a "no key update" block leaves both the lines and the
/// key as they are.
pub proof fn block_key_step(
    raw: Seq<u8>,
    blocks: Seq<(u8, usize)>,
    idx: int,
    lines_done: int,
    key: u32,
    num_lines: int,
)
    requires
        0 <= idx < blocks.len(),
        0 <= lines_done < num_lines,
        blocks[idx].1 > 0,
        lines_done + blocks[idx].1 <= IMAGE_HEIGHT,
        blocks[idx].0 & BLOCKF_CHANGE_KEY == 0,
    ensures
        ({
            let flags = blocks[idx].0;
            let num = blocks[idx].1 as int;
            let next_lines = if flags & BLOCKF_NOT_PRESENT == 0 {
                lines_done + num
            } else {
                lines_done
            };
            &&& flags & (BLOCKF_NO_KEY_UPDATE | BLOCKF_ENCRYPTED) == 0 ==> decode_pass(
                raw,
                blocks,
                idx,
                lines_done,
                key,
                num_lines,
            ) == decode_pass(raw, blocks, idx + 1, next_lines, lfsr_iter(key, (IMAGE_WIDTH * num) as nat), num_lines)
            &&& flags & BLOCKF_NO_KEY_UPDATE != 0 ==> decode_pass(raw, blocks, idx, lines_done, key, num_lines)
                == decode_pass(raw, blocks, idx + 1, next_lines, key, num_lines)
        }),
{
    let flags = blocks[idx].0;
    assert(flags & 0x04u8 != 0 ==> flags & (0x04u8 | 0x02u8) != 0x02u8 && flags & (0x04u8 | 0x02u8) != 0) by (bit_vector);
}

/// A plain block before an encrypted one advances the key: when a frame of
/// `n1 + n2` lines is a plain block of `n1` lines followed by an encrypted
/// block of `n2` lines, the plain lines are left as they are and the
/// encrypted lines are decoded with the keystream that starts
/// `IMAGE_WIDTH * n1` LFSR steps after the key, not at the key itself.
pub proof fn plain_block_advances_key(raw: Seq<u8>, blocks: Seq<(u8, usize)>, key: u32)
    requires
        blocks.len() >= 2,
        blocks[0].0 == 0,
        blocks[1].0 == BLOCKF_ENCRYPTED,
        blocks[0].1 > 0,
        blocks[1].1 > 0,
        blocks[0].1 + blocks[1].1 <= IMAGE_HEIGHT,
    ensures
        decode_pass(raw, blocks, 0, 0, key, blocks[0].1 + blocks[1].1) == (
            decoded_span(
                raw,
                HEADER_LEN + IMAGE_WIDTH * blocks[0].1,
                IMAGE_WIDTH * blocks[1].1,
                lfsr_iter(key, (IMAGE_WIDTH * blocks[0].1) as nat),
            ),
            blocks,
            PassEnd::Finished,
        ),
{
    let n1 = blocks[0].1 as int;
    let n2 = blocks[1].1 as int;
    let nl = n1 + n2;
    assert(0u8 & 0x80u8 == 0 && 0u8 & (0x04u8 | 0x02u8) == 0 && 0u8 & 0x01u8 == 0) by (bit_vector);
    assert(0x02u8 & 0x80u8 == 0 && 0x02u8 & (0x04u8 | 0x02u8) == 0x02u8 && 0x02u8 & 0x01u8 == 0) by (bit_vector);
    let k1 = lfsr_iter(key, (IMAGE_WIDTH * n1) as nat);
    let raw2 = decoded_span(raw, HEADER_LEN + IMAGE_WIDTH * n1, IMAGE_WIDTH * n2, k1);
    let k2 = lfsr_iter(k1, (IMAGE_WIDTH * n2) as nat);
    assert(decode_pass(raw2, blocks, 2, nl, k2, nl) == (raw2, blocks, PassEnd::Finished));
    assert(decode_pass(raw, blocks, 1, n1, k1, nl) == decode_pass(raw2, blocks, 2, nl, k2, nl));
    assert(decode_pass(raw, blocks, 0, 0, key, nl) == decode_pass(raw, blocks, 1, n1, k1, nl));
}

/// holds for its first pass, when `rounds` is 1.
pub proof fn frame_starts_within_rounds(blocks: Seq<(u8, usize)>)
    requires
        blocks.len() == NUM_BLOCKS,
    ensures
        key_changes(blocks) + 1 <= MAX_KEY_ROUNDS,
{
    lemma_key_changes_bounds(blocks);
}

/// A frame never runs out of key rounds. Each pass that asks for a new key
/// clears one block's request, so the bound holds again after the next key
/// request (which adds one round), and such a pass always comes before the
/// last round: starting from `frame_starts_within_rounds`, the descrambler
/// never answers that the device keeps asking for new keys.
pub proof fn descramble_never_runs_out(
    raw: Seq<u8>,
    blocks: Seq<(u8, usize)>,
    reply: Seq<u8>,
    seed: u32,
    num_lines: int,
    rounds: int,
)
    requires
        reply.len() >= 4,
        key_changes(blocks) + rounds <= MAX_KEY_ROUNDS,
    ensures
        reply_pass(raw, blocks, reply, seed, num_lines).2 is ChangeKey ==> rounds < MAX_KEY_ROUNDS
            && key_changes(reply_pass(raw, blocks, reply, seed, num_lines).1) + rounds + 1
            <= MAX_KEY_ROUNDS,
{
    lemma_key_changes_bounds(blocks);
    let key = le_u32(reply[0], reply[1], reply[2], reply[3]) ^ seed;
    lemma_pass_clears_one_request(raw, blocks, 0, 0, key, num_lines);
    lemma_key_changes_bounds(reply_pass(raw, blocks, reply, seed, num_lines).1);
}

/// The most rounds of key requests for one frame.
pub const MAX_KEY_ROUNDS: usize = 16;

/// Whether a descrambling step ended the frame or needs a new key.
#[derive(PartialEq, Eq, Structural, Debug, Clone, Copy)]
pub enum DescrambleStatus {
    Finished,
    NeedsNewKey,
}

/// Descrambling of one frame, driven by the caller, who talks to the
/// device: ask `key_request` for the bytes to write to the scramble-index
/// registers, read four bytes from the scramble-key register, hand them to
/// `apply_key`, and repeat while it answers `NeedsNewKey`.
pub struct Descrambler {
    pub seed: u32,
    pub key_number: u8,
    /// Key requests made so far.
    pub rounds: usize,
}

impl Descrambler {
    pub fn new(seed: u32, key_number: u8) -> (d: Descrambler)
        ensures
            d.seed == seed,
            d.key_number == key_number,
            d.rounds == 0,
    {
        Descrambler { seed, key_number, rounds: 0 }
    }

    /// Advances the seed and gives the bytes that ask the device for the
    /// current key.
    pub fn key_request(&mut self) -> (payload: Vec<u8>)
        requires
            old(self).rounds < MAX_KEY_ROUNDS,
        ensures
            final(self).seed == next_seed(old(self).seed),
            final(self).key_number == old(self).key_number,
            final(self).rounds == old(self).rounds + 1,
            payload@ == key_request_bytes(old(self).key_number, final(self).seed),
    {
        let seed = self.seed.wrapping_mul(1_103_515_245).wrapping_add(12_345);
        assert(seed == next_seed(self.seed)) by (nonlinear_arith)
            requires
                seed == ((((self.seed as int * 1103515245) % 0x1_0000_0000) + 12345)
                    % 0x1_0000_0000),
        ;
        self.seed = seed;
        self.rounds = self.rounds + 1;
        let mut payload: Vec<u8> = Vec::new();
        payload.push(self.key_number);
        payload.push((seed % 0x100) as u8);
        payload.push(((seed / 0x100) % 0x100) as u8);
        payload.push(((seed / 0x1_0000) % 0x100) as u8);
        payload.push((seed / 0x100_0000) as u8);
        assert(payload@ =~= key_request_bytes(self.key_number, seed));
        payload
    }

    /// Decodes the frame with the key the device answered; the key is the
    /// little-endian answer XOR the seed.
    pub fn apply_key(
        &mut self,
        raw: &mut Vec<u8>,
        blocks: &mut Vec<(u8, usize)>,
        reply: &[u8],
        num_lines: usize,
    ) -> (r: Result<DescrambleStatus, Error>)
        requires
            old(raw)@.len() == TRANSFER_LEN,
        ensures
            final(self).seed == old(self).seed,
            final(self).rounds == old(self).rounds,
            reply@.len() < 4 ==> (r matches Err(Error::Protocol(m)) && m@
                == "kunci scramble < 4 byte"@ && final(raw)@ == old(raw)@ && final(blocks)@ == old(
                blocks,
            )@ && final(self).key_number == old(self).key_number),
            reply@.len() >= 4 ==> final(raw)@ == reply_pass(old(raw)@, old(blocks)@, reply@, old(
                self,
            ).seed, num_lines as int).0,
            reply@.len() >= 4 ==> final(blocks)@ == reply_pass(old(raw)@, old(blocks)@, reply@, old(
                self,
            ).seed, num_lines as int).1,
            reply@.len() >= 4 && reply_pass(old(raw)@, old(blocks)@, reply@, old(self).seed, num_lines as int).2 is Finished
                ==> r == Ok::<DescrambleStatus, Error>(DescrambleStatus::Finished) && final(self).key_number == old(self).key_number,
            reply@.len() >= 4 && reply_pass(old(raw)@, old(blocks)@, reply@, old(self).seed, num_lines as int).2 is ChangeKey
                ==> final(self).key_number == (old(self).key_number + 1) % 256,
            reply@.len() >= 4 && reply_pass(old(raw)@, old(blocks)@, reply@, old(self).seed, num_lines as int).2 is ChangeKey
                && old(self).rounds < MAX_KEY_ROUNDS ==> r == Ok::<DescrambleStatus, Error>(DescrambleStatus::NeedsNewKey),
            reply@.len() >= 4 && reply_pass(old(raw)@, old(blocks)@, reply@, old(self).seed, num_lines as int).2 is ChangeKey
                && old(self).rounds >= MAX_KEY_ROUNDS ==> (r matches Err(Error::Protocol(m)) && m@ == "device terus minta ganti kunci"@),
            reply@.len() >= 4 ==> (reply_pass(old(raw)@, old(blocks)@, reply@, old(self).seed, num_lines as int).2 matches PassEnd::Overrun(idx, num)
                ==> (r matches Err(Error::Protocol(m)) && m@ == "blok "@ + decimal_nat(idx as nat) + " ("@ + decimal_nat(num as nat)
                    + " baris) melewati batas citra"@) && final(self).key_number == old(self).key_number),
    {
        if reply.len() < 4 {
            return Err(Error::Protocol(string_of("kunci scramble < 4 byte")));
        }
        let word = (reply[0] as u32) + (reply[1] as u32) * 0x100 + (reply[2] as u32) * 0x1_0000
            + (reply[3] as u32) * 0x100_0000;
        let mut key = word ^ self.seed;
        let ghost key0 = key;
        let ghost raw0 = raw@;
        let ghost blocks0 = blocks@;
        let mut lines_done: usize = 0;
        let mut idx: usize = 0;
        let n = blocks.len();
        let mut end = PassEnd::Finished;
        while idx < n
            invariant_except_break
                end == PassEnd::Finished,
                decode_pass(raw0, blocks0, 0, 0, key0, num_lines as int) == decode_pass(
                    raw@,
                    blocks@,
                    idx as int,
                    lines_done as int,
                    key,
                    num_lines as int,
                ),
            invariant
                n == blocks@.len(),
                raw@.len() == TRANSFER_LEN,
                idx <= n,
                lines_done <= IMAGE_HEIGHT,
            ensures
                decode_pass(raw0, blocks0, 0, 0, key0, num_lines as int) == (raw@, blocks@, end),
            decreases n - idx,
        {
            if lines_done >= num_lines {
                break;
            }
            let (flags, num) = blocks[idx];
            if num == 0 {
                break;
            }
            if num > IMAGE_HEIGHT - lines_done {
                end = PassEnd::Overrun(idx, num);
                break;
            }
            if flags & BLOCKF_CHANGE_KEY != 0 {
                blocks.set(idx, (flags & 0x7f, num));
                end = PassEnd::ChangeKey;
                break;
            }
            let off = HEADER_LEN + lines_done * IMAGE_WIDTH;
            let len = IMAGE_WIDTH * num;
            let mode = flags & (BLOCKF_NO_KEY_UPDATE | BLOCKF_ENCRYPTED);
            if mode == BLOCKF_ENCRYPTED {
                key = decode_span(raw.as_mut_slice(), off, len, key);
            } else if mode == 0 {
                let ghost k0 = key;
                let mut j: usize = 0;
                while j < len
                    invariant
                        j <= len,
                        key == lfsr_iter(k0, j as nat),
                    decreases len - j,
                {
                    key = update_key(key);
                    j = j + 1;
                }
            }
            if flags & BLOCKF_NOT_PRESENT == 0 {
                lines_done = lines_done + num;
            }
            idx = idx + 1;
        }
        assert(word == le_u32(reply@[0], reply@[1], reply@[2], reply@[3]));
        assert(key0 == le_u32(reply@[0], reply@[1], reply@[2], reply@[3]) ^ old(self).seed);
        assert(decode_pass(raw0, blocks0, 0, 0, key0, num_lines as int) == (raw@, blocks@, end));
        match end {
            PassEnd::Finished => Ok(DescrambleStatus::Finished),
            PassEnd::ChangeKey => {
                self.key_number = self.key_number.wrapping_add(1);
                if self.rounds >= MAX_KEY_ROUNDS {
                    Err(Error::Protocol(string_of("device terus minta ganti kunci")))
                } else {
                    Ok(DescrambleStatus::NeedsNewKey)
                }
            },
            PassEnd::Overrun(i, num) => {
                let mut m = string_of("blok ");
                push_decimal_u64(&mut m, i as u64);
                m.append(" (");
                push_decimal_u64(&mut m, num as u64);
                m.append(" baris) melewati batas citra");
                Err(Error::Protocol(m))
            },
        }
    }
}

/// A frame is taken to be scrambled when its first two lines are at least
/// `ENC_THRESHOLD` noisy.
pub fn is_scrambled(raw: &[u8], blocks: &[(u8, usize)]) -> (b: bool)
    requires
        present_lines(blocks@) >= 2 ==> raw@.len() >= HEADER_LEN + 2 * IMAGE_WIDTH,
    ensures
        b == (frame_noise(raw@, blocks@) >= ENC_THRESHOLD),
{
    noisiness(raw, blocks) >= ENC_THRESHOLD
}

/// Whether a USB device is the reader, by its vendor and product ids.
pub fn is_reader(vendor_id: u16, product_id: u16) -> (b: bool)
    ensures
        b == (vendor_id == VID && product_id == PID),
{
    vendor_id == VID && product_id == PID
}

/// How many times the power-up sequence waits for the scan-power interrupt.
pub const POWER_ATTEMPTS: u32 = 3;
/// How many times a power reboot or a power-up is checked before giving up.
pub const POWER_TRIES: usize = 100;

/// Where the power-up sequence stands, and what it waits for.
#[derive(PartialEq, Eq, Structural, Debug, Clone, Copy)]
pub enum PowerPhase {
    /// The status read that begins an attempt.
    Start,
    /// The status write that starts a power reboot.
    RebootWritten,
    /// A status read to see whether the reboot finished; `.0` reads so far.
    RebootRead(usize),
    /// The pause after `.0` reads that found the reboot unfinished.
    RebootPause(usize),
    /// The write that puts the device in low power mode with status `.0`.
    LowPowerWritten(u8),
    /// The write of power-up status `.0`, try `.1` (counted from 0).
    PowerWrite(u8, usize),
    /// The status read after that write.
    PowerRead(u8, usize),
    /// The pause after `.1` tries that found the device still in low power.
    PowerPause(u8, usize),
    /// The wait for the scan-power interrupt.
    AwaitScanPower,
    /// The sequence is over.
    Finished,
}

/// Why the power-up sequence failed.
#[derive(PartialEq, Eq, Structural, Debug, Clone, Copy)]
pub enum PowerFailure {
    RebootFailed,
    PowerUpRefused,
    ScanPowerTimeout,
}

/// What the caller does next for the power-up sequence.
#[derive(PartialEq, Eq, Structural, Debug, Clone, Copy)]
pub enum PowerAction {
    /// Read `REG_HWSTAT` and hand back `PowerEvent::Status`.
    ReadStatus,
    /// Write this value to `REG_HWSTAT` and hand back `PowerEvent::Written`.
    WriteStatus(u8),
    /// Sleep 10 ms and hand back `PowerEvent::Paused`.
    Pause,
    /// Wait up to 900 ms for `IRQ_SCANPWR_ON` and hand back
    /// `PowerEvent::ScanPower`, true if it came, false on a timeout.
    AwaitScanPower,
    /// The device is ready to scan.
    Ready,
    /// The sequence failed.
    Fail(PowerFailure),
}

/// What the caller reports back after an action.
#[derive(PartialEq, Eq, Structural, Debug, Clone, Copy)]
pub enum PowerEvent {
    Status(u8),
    Written,
    Paused,
    ScanPower(bool),
}

/// The power-up sequence of the reader: check the status, reboot the
/// power if the device is confused (bits 2 and 7 set), make sure it is in
/// low power mode, power it up, and wait for the scan-power interrupt;
/// three attempts. The caller performs the actions and reports the events.
#[derive(PartialEq, Eq, Structural, Debug, Clone, Copy)]
pub struct PowerUp {
    /// The attempt under way, from 1.
    pub attempt: u32,
    pub phase: PowerPhase,
}

/// Whether `e` answers the action that led to `phase`.
pub open spec fn power_expects(phase: PowerPhase, e: PowerEvent) -> bool {
    match phase {
        PowerPhase::Start | PowerPhase::RebootRead(_) | PowerPhase::PowerRead(_, _) => e is Status,
        PowerPhase::RebootWritten | PowerPhase::LowPowerWritten(_) | PowerPhase::PowerWrite(_, _) => e is Written,
        PowerPhase::RebootPause(_) | PowerPhase::PowerPause(_, _) => e is Paused,
        PowerPhase::AwaitScanPower => e is ScanPower,
        PowerPhase::Finished => false,
    }
}

/// Whether `a` is the action that `phase` waits on the answer of.
pub open spec fn power_action_fits(phase: PowerPhase, a: PowerAction) -> bool {
    match phase {
        PowerPhase::Start | PowerPhase::RebootRead(_) | PowerPhase::PowerRead(_, _) => a is ReadStatus,
        PowerPhase::RebootWritten | PowerPhase::LowPowerWritten(_) | PowerPhase::PowerWrite(_, _) => a is WriteStatus,
        PowerPhase::RebootPause(_) | PowerPhase::PowerPause(_, _) => a is Pause,
        PowerPhase::AwaitScanPower => a is AwaitScanPower,
        PowerPhase::Finished => a is Ready || a is Fail,
    }
}

/// What follows a known status `h` (with no reboot pending): a write into
/// low power mode if the device is not there, else the first power-up write.
pub open spec fn after_status(attempt: u32, h: u8) -> (PowerUp, PowerAction) {
    if h & 0x80 == 0 {
        (
            PowerUp { attempt, phase: PowerPhase::LowPowerWritten(h | 0x80) },
            PowerAction::WriteStatus(h | 0x80),
        )
    } else {
        (
            PowerUp { attempt, phase: PowerPhase::PowerWrite(h & 0x0f, 0) },
            PowerAction::WriteStatus(h & 0x0f),
        )
    }
}

/// The transition of the power-up sequence on an event.
pub open spec fn power_next(p: PowerUp, e: PowerEvent) -> (PowerUp, PowerAction) {
    let a = p.attempt;
    match (p.phase, e) {
        (PowerPhase::Start, PowerEvent::Status(h)) => if h & 0x84 == 0x84 {
            (PowerUp { attempt: a, phase: PowerPhase::RebootWritten }, PowerAction::WriteStatus(h & 0x0f))
        } else {
            after_status(a, h)
        },
        (PowerPhase::RebootWritten, PowerEvent::Written) => (
            PowerUp { attempt: a, phase: PowerPhase::RebootRead(0) },
            PowerAction::ReadStatus,
        ),
        (PowerPhase::RebootRead(k), PowerEvent::Status(h)) => if h & 0x01 != 0 {
            after_status(a, h)
        } else {
            (PowerUp { attempt: a, phase: PowerPhase::RebootPause((k + 1) as usize) }, PowerAction::Pause)
        },
        (PowerPhase::RebootPause(k), PowerEvent::Paused) => if k >= POWER_TRIES {
            (
                PowerUp { attempt: a, phase: PowerPhase::Finished },
                PowerAction::Fail(PowerFailure::RebootFailed),
            )
        } else {
            (PowerUp { attempt: a, phase: PowerPhase::RebootRead(k) }, PowerAction::ReadStatus)
        },
        (PowerPhase::LowPowerWritten(h), PowerEvent::Written) => (
            PowerUp { attempt: a, phase: PowerPhase::PowerWrite(h & 0x0f, 0) },
            PowerAction::WriteStatus(h & 0x0f),
        ),
        (PowerPhase::PowerWrite(t, k), PowerEvent::Written) => (
            PowerUp { attempt: a, phase: PowerPhase::PowerRead(t, k) },
            PowerAction::ReadStatus,
        ),
        (PowerPhase::PowerRead(t, k), PowerEvent::Status(h)) => if h & 0x80 == 0 {
            (PowerUp { attempt: a, phase: PowerPhase::AwaitScanPower }, PowerAction::AwaitScanPower)
        } else {
            (PowerUp { attempt: a, phase: PowerPhase::PowerPause(t, (k + 1) as usize) }, PowerAction::Pause)
        },
        (PowerPhase::PowerPause(t, k), PowerEvent::Paused) => if k >= POWER_TRIES {
            (
                PowerUp { attempt: a, phase: PowerPhase::Finished },
                PowerAction::Fail(PowerFailure::PowerUpRefused),
            )
        } else {
            (PowerUp { attempt: a, phase: PowerPhase::PowerWrite(t, k) }, PowerAction::WriteStatus(t))
        },
        (PowerPhase::AwaitScanPower, PowerEvent::ScanPower(on)) => if on {
            (PowerUp { attempt: a, phase: PowerPhase::Finished }, PowerAction::Ready)
        } else if a < POWER_ATTEMPTS {
            (PowerUp { attempt: (a + 1) as u32, phase: PowerPhase::Start }, PowerAction::ReadStatus)
        } else {
            (
                PowerUp { attempt: a, phase: PowerPhase::Finished },
                PowerAction::Fail(PowerFailure::ScanPowerTimeout),
            )
        },
        _ => (p, PowerAction::ReadStatus),
    }
}

/// Whether the sequence's counters are in range.
pub open spec fn power_valid(p: PowerUp) -> bool {
    &&& 1 <= p.attempt <= POWER_ATTEMPTS
    &&& match p.phase {
        PowerPhase::RebootRead(k) => k < POWER_TRIES,
        PowerPhase::RebootPause(k) => 1 <= k <= POWER_TRIES,
        PowerPhase::PowerWrite(_, k) => k < POWER_TRIES,
        PowerPhase::PowerRead(_, k) => k < POWER_TRIES,
        PowerPhase::PowerPause(_, k) => 1 <= k <= POWER_TRIES,
        _ => true,
    }
}

/// Every step from a valid state, on the event it waits for, gives a
/// valid state and the action that state waits on: a caller that performs
/// each action and reports its outcome always has a next step until the
/// sequence ends with `Ready` or `Fail`.
pub proof fn power_step_keeps_going(p: PowerUp, e: PowerEvent)
    requires
        power_valid(p),
        power_expects(p.phase, e),
    ensures
        power_valid(power_next(p, e).0),
        power_action_fits(power_next(p, e).0.phase, power_next(p, e).1),
        power_next(p, e).0.attempt >= p.attempt,
{
}

/// The sequence never makes more than `POWER_ATTEMPTS` attempts: a new
/// attempt begins only after a scan-power timeout of an earlier one.
pub proof fn power_attempts_bounded(p: PowerUp, e: PowerEvent)
    requires
        power_valid(p),
        power_expects(p.phase, e),
    ensures
        power_next(p, e).0.attempt > p.attempt ==> p.phase is AwaitScanPower && e == PowerEvent::ScanPower(false)
            && p.attempt < POWER_ATTEMPTS,
        power_next(p, e).1 is Ready ==> p.phase is AwaitScanPower && e == PowerEvent::ScanPower(true),
{
}

/// A device still in low power after a power-up write is written again:
/// the power-up write is tried 100 times, and the sequence gives up with
/// `PowerUpRefused` only after the 100th check found it in low power.
pub proof fn power_up_retries(attempt: u32, target: u8, checks: usize)
    requires
        1 <= checks <= 100,
    ensures
        checks < 100 ==> power_next(
            PowerUp { attempt, phase: PowerPhase::PowerPause(target, checks) },
            PowerEvent::Paused,
        ) == (PowerUp { attempt, phase: PowerPhase::PowerWrite(target, checks) }, PowerAction::WriteStatus(target)),
        checks == 100 ==> power_next(
            PowerUp { attempt, phase: PowerPhase::PowerPause(target, checks) },
            PowerEvent::Paused,
        ) == (PowerUp { attempt, phase: PowerPhase::Finished }, PowerAction::Fail(PowerFailure::PowerUpRefused)),
{
}

/// After a power-up write the status decides: a device out of low power
/// (bit 7 clear) goes on to the scan-power wait, one still in low power is
/// paused before the next try.
pub proof fn power_up_check(attempt: u32, target: u8, tries: usize, status: u8)
    requires
        tries < 100,
    ensures
        status & 0x80 == 0 ==> power_next(
            PowerUp { attempt, phase: PowerPhase::PowerRead(target, tries) },
            PowerEvent::Status(status),
        ) == (PowerUp { attempt, phase: PowerPhase::AwaitScanPower }, PowerAction::AwaitScanPower),
        status & 0x80 != 0 ==> power_next(
            PowerUp { attempt, phase: PowerPhase::PowerRead(target, tries) },
            PowerEvent::Status(status),
        ) == (PowerUp { attempt, phase: PowerPhase::PowerPause(target, (tries + 1) as usize) }, PowerAction::Pause),
{
}

/// A power reboot is checked 100 times: while it has not finished the
/// status is read again, and the sequence gives up with `RebootFailed`
/// only after the 100th read found it unfinished.
pub proof fn power_reboot_retries(attempt: u32, reads: usize)
    requires
        1 <= reads <= 100,
    ensures
        reads < 100 ==> power_next(PowerUp { attempt, phase: PowerPhase::RebootPause(reads) }, PowerEvent::Paused)
            == (PowerUp { attempt, phase: PowerPhase::RebootRead(reads) }, PowerAction::ReadStatus),
        reads == 100 ==> power_next(PowerUp { attempt, phase: PowerPhase::RebootPause(reads) }, PowerEvent::Paused)
            == (PowerUp { attempt, phase: PowerPhase::Finished }, PowerAction::Fail(PowerFailure::RebootFailed)),
{
}

impl PowerFailure {
    /// The reader error of a failure.
    pub fn error(self) -> (e: Error)
        ensures
            self == PowerFailure::RebootFailed ==> (e matches Error::Protocol(m) && m@
                == "gagal reboot power device"@),
            self == PowerFailure::PowerUpRefused ==> (e matches Error::Protocol(m) && m@
                == "device tidak mau power up"@),
            self == PowerFailure::ScanPowerTimeout ==> (e matches Error::Timeout(m) && m@
                == "scan power"@),
    {
        match self {
            PowerFailure::RebootFailed => Error::Protocol(string_of("gagal reboot power device")),
            PowerFailure::PowerUpRefused => Error::Protocol(string_of("device tidak mau power up")),
            PowerFailure::ScanPowerTimeout => Error::Timeout(string_of("scan power")),
        }
    }
}

impl PowerUp {
    /// The sequence at its start, with its first action.
    pub fn start() -> (r: (PowerUp, PowerAction))
        ensures
            r.0 == (PowerUp { attempt: 1, phase: PowerPhase::Start }),
            r.1 == PowerAction::ReadStatus,
    {
        (PowerUp { attempt: 1, phase: PowerPhase::Start }, PowerAction::ReadStatus)
    }

    /// Takes the outcome of the last action and gives the next one.
    pub fn step(&mut self, e: PowerEvent) -> (a: PowerAction)
        requires
            power_valid(*old(self)),
            power_expects(old(self).phase, e),
        ensures
            (*final(self), a) == power_next(*old(self), e),
    {
        let at = self.attempt;
        let (next, action) = match (self.phase, e) {
            (PowerPhase::Start, PowerEvent::Status(h)) => {
                if h & 0x84 == 0x84 {
                    (PowerUp { attempt: at, phase: PowerPhase::RebootWritten }, PowerAction::WriteStatus(h & 0x0f))
                } else {
                    Self::after_status(at, h)
                }
            },
            (PowerPhase::RebootWritten, PowerEvent::Written) => (
                PowerUp { attempt: at, phase: PowerPhase::RebootRead(0) },
                PowerAction::ReadStatus,
            ),
            (PowerPhase::RebootRead(k), PowerEvent::Status(h)) => {
                if h & 0x01 != 0 {
                    Self::after_status(at, h)
                } else {
                    (PowerUp { attempt: at, phase: PowerPhase::RebootPause(k + 1) }, PowerAction::Pause)
                }
            },
            (PowerPhase::RebootPause(k), PowerEvent::Paused) => {
                if k >= POWER_TRIES {
                    (
                        PowerUp { attempt: at, phase: PowerPhase::Finished },
                        PowerAction::Fail(PowerFailure::RebootFailed),
                    )
                } else {
                    (PowerUp { attempt: at, phase: PowerPhase::RebootRead(k) }, PowerAction::ReadStatus)
                }
            },
            (PowerPhase::LowPowerWritten(h), PowerEvent::Written) => (
                PowerUp { attempt: at, phase: PowerPhase::PowerWrite(h & 0x0f, 0) },
                PowerAction::WriteStatus(h & 0x0f),
            ),
            (PowerPhase::PowerWrite(t, k), PowerEvent::Written) => (
                PowerUp { attempt: at, phase: PowerPhase::PowerRead(t, k) },
                PowerAction::ReadStatus,
            ),
            (PowerPhase::PowerRead(t, k), PowerEvent::Status(h)) => {
                if h & 0x80 == 0 {
                    (PowerUp { attempt: at, phase: PowerPhase::AwaitScanPower }, PowerAction::AwaitScanPower)
                } else {
                    (PowerUp { attempt: at, phase: PowerPhase::PowerPause(t, k + 1) }, PowerAction::Pause)
                }
            },
            (PowerPhase::PowerPause(t, k), PowerEvent::Paused) => {
                if k >= POWER_TRIES {
                    (
                        PowerUp { attempt: at, phase: PowerPhase::Finished },
                        PowerAction::Fail(PowerFailure::PowerUpRefused),
                    )
                } else {
                    (PowerUp { attempt: at, phase: PowerPhase::PowerWrite(t, k) }, PowerAction::WriteStatus(t))
                }
            },
            (PowerPhase::AwaitScanPower, PowerEvent::ScanPower(on)) => {
                if on {
                    (PowerUp { attempt: at, phase: PowerPhase::Finished }, PowerAction::Ready)
                } else if at < POWER_ATTEMPTS {
                    (PowerUp { attempt: at + 1, phase: PowerPhase::Start }, PowerAction::ReadStatus)
                } else {
                    (
                        PowerUp { attempt: at, phase: PowerPhase::Finished },
                        PowerAction::Fail(PowerFailure::ScanPowerTimeout),
                    )
                }
            },
            _ => (*self, PowerAction::ReadStatus),
        };
        *self = next;
        action
    }

    fn after_status(attempt: u32, h: u8) -> (r: (PowerUp, PowerAction))
        ensures
            r == after_status(attempt, h),
    {
        if h & 0x80 == 0 {
            (
                PowerUp { attempt, phase: PowerPhase::LowPowerWritten(h | 0x80) },
                PowerAction::WriteStatus(h | 0x80),
            )
        } else {
            (
                PowerUp { attempt, phase: PowerPhase::PowerWrite(h & 0x0f, 0) },
                PowerAction::WriteStatus(h & 0x0f),
            )
        }
    }
}

} // verus!
