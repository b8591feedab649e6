//! 24-bit BMP encoding of a frame whose pixels are already 8-bit RGB.

use vstd::prelude::*;

verus! {

/// Zero bytes that end each row so that rows start on 4-byte boundaries.
pub open spec fn row_padding(w: nat) -> nat {
    ((4 - (3 * w) % 4) % 4) as nat
}

/// Bytes per stored row: three per pixel, plus the padding.
pub open spec fn row_stride(w: nat) -> nat {
    3 * w + row_padding(w)
}

/// The low two bytes of `v`, least significant first.
pub open spec fn le16(v: nat) -> Seq<u8> {
    seq![(v % 256) as u8, ((v / 256) % 256) as u8]
}

/// The low four bytes of `v`, least significant first.
pub open spec fn le32(v: nat) -> Seq<u8> {
    seq![(v % 256) as u8, ((v / 256) % 256) as u8, ((v / 65536) % 256) as u8, ((v / 16777216) % 256) as u8]
}

/// The 54-byte header: file header (`BM`, file size, reserved, pixel
/// offset 54) and info header (size 40, width, height, one plane, 24 bits
/// per pixel, no compression, pixel data size, 2835 pixels per metre both
/// ways, no palette). Sizes wider than 32 bits keep their low 32 bits.
pub open spec fn bmp_header(w: nat, h: nat) -> Seq<u8> {
    let data = row_stride(w) * h;
    seq![0x42u8, 0x4du8] + le32(54 + data) + le32(0) + le32(54) + le32(40) + le32(w) + le32(h) + le16(1)
        + le16(24) + le32(0) + le32(data) + le32(2835) + le32(2835) + le32(0) + le32(0)
}

/// Image row `y` as stored: blue, green, red for each pixel, then padding.
pub open spec fn bmp_row(w: nat, rgb: Seq<u8>, y: nat) -> Seq<u8> {
    Seq::new(
        row_stride(w),
        |j: int|
            if j < 3 * w {
                rgb[3 * (y * w + j / 3) + 2 - j % 3]
            } else {
                0u8
            },
    )
}

/// The first `k` stored rows; rows are stored from the bottom image row up.
pub open spec fn bmp_rows(w: nat, h: nat, rgb: Seq<u8>, k: nat) -> Seq<u8>
    decreases k,
{
    if k == 0 {
        Seq::empty()
    } else {
        bmp_rows(w, h, rgb, (k - 1) as nat) + bmp_row(w, rgb, (h - k) as nat)
    }
}

/// The whole file for a `w` by `h` frame whose pixel `(x, y)` has its red,
/// green and blue bytes at `rgb[3 * (y * w + x) ..]`.
pub open spec fn bmp_file(w: nat, h: nat, rgb: Seq<u8>) -> Seq<u8> {
    bmp_header(w, h) + bmp_rows(w, h, rgb, h)
}

fn push_le32(out: &mut Vec<u8>, v: usize)
    ensures
        final(out)@ == old(out)@ + le32(v as nat),
{
    out.push((v % 256) as u8);
    out.push(((v / 256) % 256) as u8);
    out.push(((v / 65536) % 256) as u8);
    out.push(((v / 16777216) % 256) as u8);
    assert(out@ =~= old(out)@ + le32(v as nat));
}

fn push_le16(out: &mut Vec<u8>, v: usize)
    ensures
        final(out)@ == old(out)@ + le16(v as nat),
{
    out.push((v % 256) as u8);
    out.push(((v / 256) % 256) as u8);
    assert(out@ =~= old(out)@ + le16(v as nat));
}

proof fn lemma_pixel_in_range(w: nat, h: nat, x: nat, y: nat)
    requires
        x < w,
        y < h,
    ensures
        3 * (y * w + x) + 2 < 3 * w * h,
{
    assert(y * w + x < w * h) by (nonlinear_arith)
        requires
            x < w,
            y < h,
    ;
    assert(3 * (w * h) == 3 * w * h) by (nonlinear_arith);
}

proof fn lemma_rows(w: nat, h: nat, rgb: Seq<u8>, k: nat)
    requires
        k <= h,
    ensures
        bmp_rows(w, h, rgb, k).len() == k * row_stride(w),
        forall|r: nat, j: nat|
            r < k && j < row_stride(w) ==> #[trigger] bmp_rows(w, h, rgb, k)[(r * row_stride(w) + j) as int]
                == bmp_row(w, rgb, (h - 1 - r) as nat)[j as int],
    decreases k,
{
    let st = row_stride(w);
    if k > 0 {
        lemma_rows(w, h, rgb, (k - 1) as nat);
        let prev = bmp_rows(w, h, rgb, (k - 1) as nat);
        let cur = bmp_rows(w, h, rgb, k);
        assert(cur == prev + bmp_row(w, rgb, (h - k) as nat));
        assert((k - 1) * st + st == k * st) by (nonlinear_arith);
        assert forall|r: nat, j: nat| r < k && j < st implies #[trigger] cur[(r * st + j) as int] == bmp_row(
            w,
            rgb,
            (h - 1 - r) as nat,
        )[j as int] by {
            if r < k - 1 {
                assert(r * st + j < (k - 1) * st) by (nonlinear_arith)
                    requires
                        r < k - 1,
                        j < st,
                ;
            } else {
                assert(r * st == (k - 1) * st);
            }
        }
    }
}

proof fn lemma_bmp_pixel(w: nat, h: nat, rgb: Seq<u8>, x: nat, y: nat, c: nat)
    requires
        x < w,
        y < h,
        c < 3,
        bmp_rows(w, h, rgb, h).len() == h * row_stride(w),
        forall|r: nat, j: nat|
            r < h && j < row_stride(w) ==> #[trigger] bmp_rows(w, h, rgb, h)[(r * row_stride(w) + j) as int]
                == bmp_row(w, rgb, (h - 1 - r) as nat)[j as int],
    ensures
        bmp_file(w, h, rgb)[(54 + (h - 1 - y) * row_stride(w) + 3 * x + c) as int] == rgb[3 * (y * w + x)
            + 2 - c],
{
    let st = row_stride(w);
    let rows = bmp_rows(w, h, rgb, h);
    let r = (h - 1 - y) as nat;
    let j = 3 * x + c;
    assert(j < st);
    assert(r * st + j < h * st) by (nonlinear_arith)
        requires
            r < h,
            j < st,
    ;
    assert(rows[(r * st + j) as int] == bmp_row(w, rgb, (h - 1 - r) as nat)[j as int]);
    assert((h - 1 - r) as nat == y);
    assert(j / 3 == x && j % 3 == c);
    assert(bmp_header(w, h).len() == 54);
    assert(bmp_file(w, h, rgb)[(54 + r * st + j) as int] == rows[(r * st + j) as int]);
}

proof fn lemma_header_len(w: nat, h: nat)
    ensures
        bmp_header(w, h).len() == 54,
{
}

proof fn lemma_stride(w: nat)
    ensures
        row_stride(w) % 4 == 0,
        row_stride(w) >= 3 * w,
{
    let m = (3 * w) % 4;
    assert(0 <= m < 4);
    assert((3 * w - m) % 4 == 0) by (nonlinear_arith)
        requires
            m == (3 * w) % 4,
    ;
}

/// The layout of an encoded frame: the file is the 54-byte header followed
/// by `h` rows of equal stride, the stride is a multiple of four, and pixel
/// `(x, y)` is stored in stored row `h - 1 - y` as blue, green, red. The
/// size field of the header holds the file's own length.
pub proof fn lemma_bmp_layout(w: nat, h: nat, rgb: Seq<u8>)
    ensures
        bmp_file(w, h, rgb).len() == 54 + row_stride(w) * h,
        bmp_file(w, h, rgb).subrange(2, 6) == le32(bmp_file(w, h, rgb).len()),
        row_stride(w) % 4 == 0,
        row_stride(w) >= 3 * w,
        forall|x: nat, y: nat, c: nat|
            x < w && y < h && c < 3 ==> #[trigger] bmp_file(w, h, rgb)[(54 + (h - 1 - y) * row_stride(w)
                + 3 * x + c) as int] == rgb[3 * (y * w + x) + 2 - c],
{
    lemma_rows(w, h, rgb, h);
    let st = row_stride(w);
    lemma_header_len(w, h);
    lemma_stride(w);
    assert(h * st == st * h) by (nonlinear_arith);
    let f = bmp_file(w, h, rgb);
    assert(f.subrange(2, 6) =~= bmp_header(w, h).subrange(2, 6));
    assert(bmp_header(w, h).subrange(2, 6) =~= le32(54 + st * h));
    assert forall|x: nat, y: nat, c: nat| x < w && y < h && c < 3 implies #[trigger] bmp_file(
        w,
        h,
        rgb,
    )[(54 + (h - 1 - y) * st + 3 * x + c) as int] == rgb[3 * (y * w + x) + 2 - c] by {
        lemma_bmp_pixel(w, h, rgb, x, y, c);
    }
}

/// Encodes a frame as a 24-bit BMP: the header, then the rows from the
/// bottom of the image to the top, each in blue-green-red order and padded
/// with zeros to a multiple of four bytes.
pub fn encode_bmp(w: usize, h: usize, rgb: &[u8]) -> (out: Vec<u8>)
    requires
        rgb@.len() >= 3 * w * h,
        3 * w + 3 <= usize::MAX,
        54 + row_stride(w as nat) * h <= usize::MAX,
    ensures
        out@ == bmp_file(w as nat, h as nat, rgb@),
        w < 0x1_0000_0000 ==> read_le32(out@, 18) == w,
        h < 0x1_0000_0000 ==> read_le32(out@, 22) == h,
{
    let row_bytes = w * 3;
    let padding = (4 - row_bytes % 4) % 4;
    proof {
        assert(padding == row_padding(w as nat));
        assert((row_bytes + padding) * h == row_stride(w as nat) * h);
    }
    let data_size = (row_bytes + padding) * h;
    let file_size = 54 + data_size;

    let mut out: Vec<u8> = Vec::new();
    out.push(0x42);
    out.push(0x4d);
    push_le32(&mut out, file_size);
    push_le32(&mut out, 0);
    push_le32(&mut out, 54);
    push_le32(&mut out, 40);
    push_le32(&mut out, w);
    push_le32(&mut out, h);
    push_le16(&mut out, 1);
    push_le16(&mut out, 24);
    push_le32(&mut out, 0);
    push_le32(&mut out, data_size);
    push_le32(&mut out, 2835);
    push_le32(&mut out, 2835);
    push_le32(&mut out, 0);
    push_le32(&mut out, 0);
    let ghost header = out@;
    proof {
        assert(header =~= bmp_header(w as nat, h as nat));
    }

    let len = rgb.len();
    let mut y = h;
    while y > 0
        invariant
            len == rgb@.len(),
            y <= h,
            rgb@.len() >= 3 * w * h,
            3 * w + 3 <= usize::MAX,
            padding == row_padding(w as nat),
            row_bytes == 3 * w,
            header == bmp_header(w as nat, h as nat),
            out@ == header + bmp_rows(w as nat, h as nat, rgb@, (h - y) as nat),
        decreases y,
    {
        y = y - 1;
        let ghost before = out@;
        let ghost row = bmp_row(w as nat, rgb@, y as nat);
        let mut x: usize = 0;
        while x < w
            invariant
                len == rgb@.len(),
                x <= w,
                y < h,
                rgb@.len() >= 3 * w * h,
                out@ == before + row.subrange(0, 3 * x),
                row == bmp_row(w as nat, rgb@, y as nat),
            decreases w - x,
        {
            proof {
                lemma_pixel_in_range(w as nat, h as nat, x as nat, y as nat);
                assert(y * w + x < w * h) by (nonlinear_arith)
                    requires
                        x < w,
                        y < h,
                ;
            }
            let base = 3 * (y * w + x);
            let r = rgb[base];
            let g = rgb[base + 1];
            let b = rgb[base + 2];
            out.push(b);
            out.push(g);
            out.push(r);
            proof {
                assert(row[3 * x as int] == b);
                assert(row[3 * x + 1] == g);
                assert(row[3 * x + 2] == r);
                assert(out@ =~= before + row.subrange(0, 3 * x + 3));
            }
            x = x + 1;
        }
        let mut p: usize = 0;
        while p < padding
            invariant
                p <= padding,
                padding == row_padding(w as nat),
                out@ == before + row.subrange(0, 3 * w + p),
                row == bmp_row(w as nat, rgb@, y as nat),
            decreases padding - p,
        {
            out.push(0);
            proof {
                assert(row[3 * w + p] == 0u8);
                assert(out@ =~= before + row.subrange(0, 3 * w + p + 1));
            }
            p = p + 1;
        }
        proof {
            assert(row.subrange(0, 3 * w + p) =~= row);
            let k = (h - y) as nat;
            assert(bmp_rows(w as nat, h as nat, rgb@, k) == bmp_rows(w as nat, h as nat, rgb@, (k - 1) as nat)
                + bmp_row(w as nat, rgb@, (h - k) as nat));
            assert(out@ =~= header + bmp_rows(w as nat, h as nat, rgb@, k));
        }
    }
    proof {
        lemma_bmp_header_fields(w as nat, h as nat, rgb@);
    }
    out
}


/// The little-endian 16-bit number stored at `off`.
pub open spec fn read_le16(s: Seq<u8>, off: int) -> int {
    s[off] + 256 * s[off + 1]
}

/// The little-endian 32-bit number stored at `off`.
pub open spec fn read_le32(s: Seq<u8>, off: int) -> int {
    s[off] + 256 * s[off + 1] + 65536 * s[off + 2] + 16777216 * s[off + 3]
}

proof fn lemma_le32_reads_back(v: nat)
    requires
        v < 0x1_0000_0000,
    ensures
        read_le32(le32(v), 0) == v,
{
    let u = v as u32;
    assert(u == v);
    assert((u % 256) + 256 * ((u / 256) % 256) + 65536 * ((u / 65536) % 256) + 16777216 * ((u
        / 16777216) % 256) == u) by (bit_vector);
    let b = le32(v);
    assert(b[0] == v % 256);
    assert(b[1] == (v / 256) % 256);
    assert(b[2] == (v / 65536) % 256);
    assert(b[3] == (v / 16777216) % 256);
}

/// What a BMP reader finds in the header of an encoded frame: the `BM`
/// signature, the file's own length, the pixel data at offset 54, the
/// frame's width at offset 18 and its height at offset 22, one plane and 24
/// bits per pixel (each 32-bit field read back whole when it fits in 32
/// bits).
pub proof fn lemma_bmp_header_fields(w: nat, h: nat, rgb: Seq<u8>)
    ensures
        bmp_file(w, h, rgb)[0] == 0x42,
        bmp_file(w, h, rgb)[1] == 0x4d,
        bmp_file(w, h, rgb).len() < 0x1_0000_0000 ==> read_le32(bmp_file(w, h, rgb), 2) == bmp_file(
            w,
            h,
            rgb,
        ).len(),
        read_le32(bmp_file(w, h, rgb), 10) == 54,
        read_le32(bmp_file(w, h, rgb), 14) == 40,
        w < 0x1_0000_0000 ==> read_le32(bmp_file(w, h, rgb), 18) == w,
        h < 0x1_0000_0000 ==> read_le32(bmp_file(w, h, rgb), 22) == h,
        read_le16(bmp_file(w, h, rgb), 26) == 1,
        read_le16(bmp_file(w, h, rgb), 28) == 24,
{
    let f = bmp_file(w, h, rgb);
    lemma_header_len(w, h);
    lemma_bmp_layout(w, h, rgb);
    let hd = bmp_header(w, h);
    assert forall|i: int| 0 <= i < 54 implies #[trigger] f[i] == hd[i] by {}
    if f.len() < 0x1_0000_0000 {
        lemma_le32_reads_back(f.len());
        assert(f.subrange(2, 6)[0] == f[2]);
        assert(f.subrange(2, 6)[1] == f[3]);
        assert(f.subrange(2, 6)[2] == f[4]);
        assert(f.subrange(2, 6)[3] == f[5]);
    }
    lemma_le32_reads_back(54);
    lemma_le32_reads_back(40);
    if w < 0x1_0000_0000 {
        lemma_le32_reads_back(w);
        assert(hd.subrange(18, 22) =~= le32(w));
        assert(hd.subrange(18, 22)[0] == hd[18]);
        assert(hd.subrange(18, 22)[1] == hd[19]);
        assert(hd.subrange(18, 22)[2] == hd[20]);
        assert(hd.subrange(18, 22)[3] == hd[21]);
    }
    if h < 0x1_0000_0000 {
        lemma_le32_reads_back(h);
        assert(hd.subrange(22, 26) =~= le32(h));
        assert(hd.subrange(22, 26)[0] == hd[22]);
        assert(hd.subrange(22, 26)[1] == hd[23]);
        assert(hd.subrange(22, 26)[2] == hd[24]);
        assert(hd.subrange(22, 26)[3] == hd[25]);
    }
}

} // verus!
