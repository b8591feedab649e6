//! Binary PPM (P6): the encoder used to save frames and the header parser
//! used to load textures. Texel bytes are handed out raw; scaling them by
//! the header's maximum value happens outside the library.

use crate::numeral::{
    decimal, is_digit, lemma_decimal, lemma_parse_decimal, parse_unsigned, parse_usize, push_decimal,
};
use vstd::prelude::*;

verus! {

pub const LF: u8 = 0x0a;

pub const HASH: u8 = 0x23;

/// ASCII whitespace as `u8::is_ascii_whitespace` defines it: space, tab,
/// line feed, form feed and carriage return.
pub open spec fn is_space(b: u8) -> bool {
    b == 0x20 || b == 0x09 || b == 0x0a || b == 0x0c || b == 0x0d
}

/// The position of the next token at or after `i`: whitespace is skipped,
/// and a `#` starts a comment that runs up to the next line feed.
/// `in_comment` says whether `i` lies inside such a comment.
pub open spec fn skip_blank(s: Seq<u8>, i: nat, in_comment: bool) -> nat
    decreases s.len() - i, if in_comment {
        1int
    } else {
        0int
    },
{
    if i >= s.len() {
        i
    } else if in_comment {
        if s[i as int] == LF {
            skip_blank(s, i, false)
        } else {
            skip_blank(s, i + 1, true)
        }
    } else if is_space(s[i as int]) {
        skip_blank(s, i + 1, false)
    } else if s[i as int] == HASH {
        skip_blank(s, i + 1, true)
    } else {
        i
    }
}

/// The first whitespace position at or after `i`, or the end of `s`.
pub open spec fn token_end(s: Seq<u8>, i: nat) -> nat
    decreases s.len() - i,
{
    if i >= s.len() {
        i
    } else if is_space(s[i as int]) {
        i
    } else {
        token_end(s, i + 1)
    }
}

/// The header token read from position `pos` (empty where none is left),
/// and the position just after it.
pub open spec fn token_at(s: Seq<u8>, pos: nat) -> (Seq<u8>, nat) {
    let st = skip_blank(s, pos, false);
    let e = token_end(s, st);
    (s.subrange(st as int, e as int), e)
}

/// A numeric header field: its value, or 0 where it does not parse.
pub open spec fn field_value(t: Seq<u8>) -> nat {
    match parse_usize(t) {
        Some(v) => v,
        None => 0,
    }
}

/// The four header tokens (magic, width, height, maximum value) and the
/// position just after the last of them.
pub open spec fn header_tokens(s: Seq<u8>) -> (Seq<u8>, Seq<u8>, Seq<u8>, Seq<u8>, nat) {
    let (magic, p1) = token_at(s, 0);
    let (w, p2) = token_at(s, p1);
    let (h, p3) = token_at(s, p2);
    let (maxval, p4) = token_at(s, p3);
    (magic, w, h, maxval, p4)
}

pub open spec fn magic_p6() -> Seq<u8> {
    seq![0x50u8, 0x36u8]
}

/// The number of texels read: those of the `w * h` grid whose three bytes
/// all lie in the file, counted from `start`.
pub open spec fn texel_count(w: nat, h: nat, len: nat, start: nat) -> nat {
    let avail: nat = if start <= len {
        ((len - start) as nat / 3) as nat
    } else {
        0
    };
    if w * h <= avail {
        w * h
    } else {
        avail
    }
}

/// A decoded P6 file: the header fields, then the raw texel bytes (three per
/// texel, red, green, blue) in row-major order.
pub struct PpmImage {
    pub width: usize,
    pub height: usize,
    /// The maximum-value token as written in the header (empty if absent).
    pub maxval: Vec<u8>,
    pub texels: Vec<u8>,
}

/// The file is not a binary PPM with a nonzero width and height.
#[derive(Debug, PartialEq, Eq)]
pub enum PpmError {
    NotBinaryRgb,
}

/// What decoding `s` gives: `None` when the magic is not `P6` or a dimension
/// is zero, else width, height, maximum-value token and texel bytes.
pub open spec fn ppm_decoded(s: Seq<u8>) -> Option<(nat, nat, Seq<u8>, Seq<u8>)> {
    let (magic, wt, ht, maxval, end) = header_tokens(s);
    let w = field_value(wt);
    let h = field_value(ht);
    if magic != magic_p6() || w == 0 || h == 0 {
        None
    } else {
        let start = end + 1;
        let n = texel_count(w, h, s.len(), start);
        Some((w, h, maxval, Seq::new(3 * n, |k: int| s[start + k])))
    }
}

/// A P6 file: `P6`, width and height in decimal, maximum value 255, each
/// followed by one whitespace byte, then the texel bytes.
pub open spec fn ppm_encoding(w: nat, h: nat, rgb: Seq<u8>) -> Seq<u8> {
    seq![0x50u8, 0x36u8, LF] + decimal(w) + seq![0x20u8] + decimal(h) + seq![LF, 0x32u8, 0x35u8, 0x35u8, LF]
        + rgb
}

fn is_space_byte(b: u8) -> (r: bool)
    ensures
        r == is_space(b),
{
    b == 0x20 || b == 0x09 || b == 0x0a || b == 0x0c || b == 0x0d
}

proof fn lemma_skip_spaces(s: Seq<u8>, i: nat, st: nat)
    requires
        i <= st < s.len(),
        forall|k: int| i <= k < st ==> is_space(#[trigger] s[k]),
        !is_space(s[st as int]),
        s[st as int] != HASH,
    ensures
        skip_blank(s, i, false) == st,
    decreases st - i,
{
    if i < st {
        lemma_skip_spaces(s, i + 1, st);
    }
}

proof fn lemma_token_end(s: Seq<u8>, i: nat, e: nat)
    requires
        i <= e <= s.len(),
        forall|k: int| i <= k < e ==> !is_space(#[trigger] s[k]),
        e == s.len() || is_space(s[e as int]),
    ensures
        token_end(s, i) == e,
    decreases e - i,
{
    if i < e {
        lemma_token_end(s, i + 1, e);
    }
}

/// The token that starts after the blanks `s[pos..st]` and runs to `e`.
proof fn lemma_token_at(s: Seq<u8>, pos: nat, st: nat, e: nat)
    requires
        pos <= st < e <= s.len(),
        forall|k: int| pos <= k < st ==> is_space(#[trigger] s[k]),
        s[st as int] != HASH,
        forall|k: int| st <= k < e ==> !is_space(#[trigger] s[k]),
        e == s.len() || is_space(s[e as int]),
    ensures
        token_at(s, pos) == (s.subrange(st as int, e as int), e),
{
    lemma_skip_spaces(s, pos, st);
    lemma_token_end(s, st, e);
}

#[verifier::rlimit(60)]
/// Decoding an encoded frame gives back its width, its height, the maximum
/// value 255 and its texel bytes.
pub proof fn lemma_ppm_round_trip(w: nat, h: nat, rgb: Seq<u8>)
    requires
        0 < w <= usize::MAX,
        0 < h <= usize::MAX,
        rgb.len() == 3 * w * h,
    ensures
        ppm_decoded(ppm_encoding(w, h, rgb)) == Some((w, h, seq![0x32u8, 0x35u8, 0x35u8], rgb)),
{
    let s = ppm_encoding(w, h, rgb);
    let dw = decimal(w);
    let dh = decimal(h);
    lemma_decimal(w);
    lemma_decimal(h);
    lemma_parse_decimal(w, usize::MAX as nat);
    lemma_parse_decimal(h, usize::MAX as nat);
    let lw: int = dw.len() as int;
    let lh: int = dh.len() as int;
    let hl: int = 9 + lw + lh;
    assert(s.len() == hl + rgb.len());
    assert(s[0] == 0x50u8 && s[1] == 0x36u8 && s[2] == LF);
    assert forall|k: int| 3 <= k < 3 + lw implies s[k] == dw[k - 3] by {}
    assert(s[3 + lw] == 0x20u8);
    assert forall|k: int| 4 + lw <= k < 4 + lw + lh implies s[k] == dh[k - 4 - lw] by {}
    assert(s[4 + lw + lh] == LF);
    assert(s[5 + lw + lh] == 0x32u8 && s[6 + lw + lh] == 0x35u8 && s[7 + lw + lh] == 0x35u8);
    assert(s[8 + lw + lh] == LF);
    assert forall|k: int| 0 <= k < rgb.len() implies s[hl + k] == rgb[k] by {}

    lemma_token_at(s, 0, 0, 2);
    assert(s.subrange(0, 2) =~= magic_p6());
    assert forall|k: int| 3 <= k < 3 + lw implies !is_space(#[trigger] s[k]) by {
        assert(is_digit(dw[k - 3]));
    }
    assert(is_digit(dw[0]));
    lemma_token_at(s, 2, 3, (3 + lw) as nat);
    assert(s.subrange(3, 3 + lw) =~= dw);
    assert forall|k: int| 4 + lw <= k < 4 + lw + lh implies !is_space(#[trigger] s[k]) by {
        assert(is_digit(dh[k - 4 - lw]));
    }
    assert(is_digit(dh[0]));
    lemma_token_at(s, (3 + lw) as nat, (4 + lw) as nat, (4 + lw + lh) as nat);
    assert(s.subrange(4 + lw, 4 + lw + lh) =~= dh);
    lemma_token_at(s, (4 + lw + lh) as nat, (5 + lw + lh) as nat, (8 + lw + lh) as nat);
    assert(s.subrange(5 + lw + lh, 8 + lw + lh) =~= seq![0x32u8, 0x35u8, 0x35u8]);

    let (magic, wt, ht, maxval, end) = header_tokens(s);
    assert(magic == magic_p6());
    assert(wt == dw);
    assert(ht == dh);
    assert(end == 8 + lw + lh);
    assert(field_value(wt) == w);
    assert(field_value(ht) == h);
    let n = texel_count(w, h, s.len(), hl as nat);
    assert((3 * w * h) / 3 == w * h) by (nonlinear_arith);
    assert(s.len() - hl == 3 * w * h);
    assert(((s.len() - hl) as nat / 3) as nat == w * h);
    assert(n == w * h);
    assert(3 * (w * h) == 3 * w * h) by (nonlinear_arith);
    let t = Seq::new(3 * n, |k: int| s[hl + k]);
    assert(t.len() == rgb.len());
    assert forall|k: int| 0 <= k < t.len() implies t[k] == rgb[k] by {
        assert(s[hl + k] == rgb[k]);
    }
    assert(t =~= rgb);
}

/// Reads one header token from `pos`, skipping whitespace and comments.
fn next_token(s: &[u8], pos: usize) -> (r: (Vec<u8>, usize))
    requires
        pos <= s.len(),
    ensures
        r.0@ == token_at(s@, pos as nat).0,
        r.1 == token_at(s@, pos as nat).1,
        r.1 <= s.len(),
{
    let mut i = pos;
    let mut in_comment = false;
    loop
        invariant
            pos <= i <= s.len(),
            skip_blank(s@, i as nat, in_comment) == skip_blank(s@, pos as nat, false),
        ensures
            i == skip_blank(s@, pos as nat, false),
            i <= s.len(),
        decreases 2 * (s.len() - i) + if in_comment {
            1int
        } else {
            0int
        },
    {
        if i >= s.len() {
            break;
        }
        if in_comment {
            if s[i] == LF {
                in_comment = false;
            } else {
                i = i + 1;
            }
        } else if is_space_byte(s[i]) {
            i = i + 1;
        } else if s[i] == HASH {
            in_comment = true;
            i = i + 1;
        } else {
            break;
        }
    }
    let start = i;
    let mut tok: Vec<u8> = Vec::new();
    while i < s.len() && !is_space_byte(s[i])
        invariant
            start <= i <= s.len(),
            token_end(s@, i as nat) == token_end(s@, start as nat),
            tok@ == s@.subrange(start as int, i as int),
        decreases s.len() - i,
    {
        tok.push(s[i]);
        i = i + 1;
    }
    proof {
        assert(tok@ =~= s@.subrange(start as int, i as int));
    }
    (tok, i)
}

/// Decodes a binary PPM: reads the four header tokens, checks the magic and
/// the dimensions, and copies the texel bytes that follow the single
/// whitespace byte after the maximum value, as many whole texels as the
/// file holds, up to `width * height`.
pub fn decode_ppm(bytes: &[u8]) -> (r: Result<PpmImage, PpmError>)
    ensures
        match ppm_decoded(bytes@) {
            None => r == Err::<PpmImage, PpmError>(PpmError::NotBinaryRgb),
            Some((w, h, maxval, texels)) => r matches Ok(img) && img.width == w && img.height == h
                && img.maxval@ == maxval && img.texels@ == texels,
        },
{
    let (magic, p1) = next_token(bytes, 0);
    let (wt, p2) = next_token(bytes, p1);
    let (ht, p3) = next_token(bytes, p2);
    let (maxval, p4) = next_token(bytes, p3);
    let w = match parse_unsigned(wt.as_slice(), usize::MAX) {
        Some(v) => v,
        None => 0,
    };
    let h = match parse_unsigned(ht.as_slice(), usize::MAX) {
        Some(v) => v,
        None => 0,
    };
    let is_p6 = magic.len() == 2 && magic[0] == 0x50 && magic[1] == 0x36;
    proof {
        if is_p6 {
            assert(magic@ =~= magic_p6());
        }
    }
    if !is_p6 || w == 0 || h == 0 {
        return Err(PpmError::NotBinaryRgb);
    }
    let avail: usize = if p4 < bytes.len() {
        (bytes.len() - (p4 + 1)) / 3
    } else {
        0
    };
    let n: usize = match w.checked_mul(h) {
        Some(t) => if t <= avail {
            t
        } else {
            avail
        },
        None => avail,
    };
    let mut texels: Vec<u8> = Vec::new();
    let mut k: usize = 0;
    proof {
        assert(texels@ =~= Seq::new(0, |j: int| bytes@[p4 + 1 + j]));
        assert(p4 < bytes.len() ==> 3 * avail <= bytes.len() - (p4 + 1));
    }
    while k < 3 * n
        invariant
            n <= avail,
            p4 < bytes.len() ==> 3 * avail <= bytes.len() - (p4 + 1),
            p4 >= bytes.len() ==> avail == 0,
            k <= 3 * n,
            texels@ == Seq::new(k as nat, |j: int| bytes@[p4 + 1 + j]),
        decreases 3 * n - k,
    {
        texels.push(bytes[p4 + 1 + k]);
        k = k + 1;
        proof {
            assert(texels@ =~= Seq::new(k as nat, |j: int| bytes@[p4 + 1 + j]));
        }
    }
    proof {
        assert(n == texel_count(w as nat, h as nat, bytes@.len(), (p4 + 1) as nat));
    }
    Ok(PpmImage { width: w, height: h, maxval, texels })
}

/// Encodes a frame as binary PPM with maximum value 255; `rgb` holds three
/// bytes per pixel.
pub fn encode_ppm(w: usize, h: usize, rgb: &[u8]) -> (out: Vec<u8>)
    ensures
        out@ == ppm_encoding(w as nat, h as nat, rgb@),
{
    let mut out: Vec<u8> = Vec::new();
    out.push(0x50);
    out.push(0x36);
    out.push(LF);
    push_decimal(&mut out, w);
    out.push(0x20);
    push_decimal(&mut out, h);
    out.push(LF);
    out.push(0x32);
    out.push(0x35);
    out.push(0x35);
    out.push(LF);
    let ghost header = out@;
    let mut i: usize = 0;
    while i < rgb.len()
        invariant
            i <= rgb.len(),
            out@ == header + rgb@.subrange(0, i as int),
        decreases rgb.len() - i,
    {
        out.push(rgb[i]);
        i = i + 1;
        assert(out@ =~= header + rgb@.subrange(0, i as int));
    }
    assert(rgb@.subrange(0, i as int) =~= rgb@);
    assert(out@ =~= ppm_encoding(w as nat, h as nat, rgb@));
    out
}

} // verus!
