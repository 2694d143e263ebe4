use vstd::prelude::*;

verus! {

/// Width of the IGRF radiation grid (longitude samples).
pub const RAD_GRID_W: usize = 181;

/// Height of the IGRF radiation grid (colatitude samples).
pub const RAD_GRID_H: usize = 91;

/// Byte `k` of the RGBA image built from the proton and electron levels: red
/// holds protons, green electrons, blue is 0 and alpha is opaque.
pub open spec fn rad_rgba_byte(protons: Seq<u8>, electrons: Seq<u8>, k: int) -> u8 {
    let p = k / 4;
    let c = k % 4;
    if c == 0 {
        protons[p]
    } else if c == 1 {
        electrons[p]
    } else if c == 2 {
        0
    } else {
        255
    }
}

/// Texel `i` of the radiation texture is `[protons[i], electrons[i], 0, 255]`:
/// its red byte is the proton level of cell `i` alone, its green byte the
/// electron level of cell `i` alone.
pub proof fn lemma_rad_rgba_channels(protons: Seq<u8>, electrons: Seq<u8>, i: int)
    requires
        0 <= i,
    ensures
        rad_rgba_byte(protons, electrons, 4 * i) == protons[i],
        rad_rgba_byte(protons, electrons, 4 * i + 1) == electrons[i],
        rad_rgba_byte(protons, electrons, 4 * i + 2) == 0,
        rad_rgba_byte(protons, electrons, 4 * i + 3) == 255,
{
    assert((4 * i) / 4 == i && (4 * i) % 4 == 0);
    assert((4 * i + 1) / 4 == i && (4 * i + 1) % 4 == 1);
    assert((4 * i + 2) / 4 == i && (4 * i + 2) % 4 == 2);
    assert((4 * i + 3) / 4 == i && (4 * i + 3) % 4 == 3);
}

/// RGBA texture of the radiation grid, from the proton and electron levels of
/// each cell already scaled to bytes (row-major, 181 x 91 cells).
pub fn igrf_rad_to_rgba(protons: &[u8], electrons: &[u8]) -> (data: Vec<u8>)
    requires
        protons@.len() >= RAD_GRID_W * RAD_GRID_H,
        electrons@.len() >= RAD_GRID_W * RAD_GRID_H,
    ensures
        data@.len() == RAD_GRID_W * RAD_GRID_H * 4,
        forall|k: int| 0 <= k < data@.len() ==> #[trigger] data@[k] == rad_rgba_byte(protons@, electrons@, k),
        forall|i: int| 0 <= i < RAD_GRID_W * RAD_GRID_H ==> {
            &&& #[trigger] data@[4 * i] == protons@[i]
            &&& data@[4 * i + 1] == electrons@[i]
            &&& data@[4 * i + 2] == 0
            &&& data@[4 * i + 3] == 255
        },
{
    let w = RAD_GRID_W;
    let h = RAD_GRID_H;
    let mut data: Vec<u8> = Vec::new();
    let mut i: usize = 0;
    while i < w * h
        invariant
            w == RAD_GRID_W,
            h == RAD_GRID_H,
            i <= w * h,
            protons@.len() >= w * h,
            electrons@.len() >= w * h,
            data@.len() == 4 * i,
            forall|k: int| 0 <= k < data@.len() ==> #[trigger] data@[k] == rad_rgba_byte(protons@, electrons@, k),
        decreases w * h - i,
    {
        let ghost before = data@;
        data.push(protons[i]);
        data.push(electrons[i]);
        data.push(0);
        data.push(255);
        proof {
            assert forall|k: int| 0 <= k < data@.len() implies #[trigger] data@[k] == rad_rgba_byte(protons@, electrons@, k) by {
                if k < before.len() {
                    assert(data@[k] == before[k]);
                } else {
                    assert(k / 4 == i);
                }
            }
        }
        i = i + 1;
    }
    proof {
        assert forall|i: int| 0 <= i < RAD_GRID_W * RAD_GRID_H implies {
            &&& #[trigger] data@[4 * i] == protons@[i]
            &&& data@[4 * i + 1] == electrons@[i]
            &&& data@[4 * i + 2] == 0
            &&& data@[4 * i + 3] == 255
        } by {
            lemma_rad_rgba_channels(protons@, electrons@, i);
        }
    }
    data
}

/// Source column (or row) sampled for destination column `d` when `s` source
/// pixels are shrunk to `dn`: the pixel under the centre of the destination
/// pixel, `floor((d + 1/2) * s / dn)`.
pub open spec fn sample_index(d: int, s: int, dn: int) -> int {
    ((2 * d + 1) * s) / (2 * dn)
}

/// Byte `k` of the nearest-neighbour downscaled image.
pub open spec fn downscaled_byte(src: Seq<u8>, sw: int, sh: int, dw: int, dh: int, k: int) -> u8 {
    let p = k / 4;
    let c = k % 4;
    let dy = p / dw;
    let dx = p % dw;
    let sx = sample_index(dx, sw, dw);
    let sy = sample_index(dy, sh, dh);
    src[4 * (sy * sw + sx) + c]
}

proof fn lemma_sample_in_range(d: int, s: int, dn: int)
    requires
        0 <= d < dn,
        0 <= s,
    ensures
        0 <= sample_index(d, s, dn) <= s,
        s > 0 ==> sample_index(d, s, dn) < s,
{
    let a = (2 * d + 1) * s;
    let b = 2 * dn;
    assert(0 <= a) by (nonlinear_arith)
        requires
            0 <= d,
            0 <= s,
            a == (2 * d + 1) * s,
    ;
    assert(a < b * s || s == 0) by (nonlinear_arith)
        requires
            0 <= d < dn,
            0 <= s,
            a == (2 * d + 1) * s,
            b == 2 * dn,
    ;
    vstd::arithmetic::div_mod::lemma_div_pos_is_pos(a, b);
    if s > 0 {
        vstd::arithmetic::div_mod::lemma_div_by_multiple_is_strongly_ordered(a, b * s, s, b);
        vstd::arithmetic::div_mod::lemma_div_by_multiple(s, b);
        assert((b * s) / b == s) by {
            vstd::arithmetic::mul::lemma_mul_is_commutative(b, s);
        }
    } else {
        assert(a == 0);
    }
}

/// Nearest-neighbour downscale of an `sw` x `sh` RGBA image to `dw` x `dh`.
pub fn downscale_rgba(src: &[u8], sw: u32, sh: u32, dw: u32, dh: u32) -> (dst: Vec<u8>)
    requires
        src@.len() >= 4 * sw * sh,
        4 * dw * dh <= u32::MAX,
        sw * sh <= u32::MAX,
        dw > 0 && dh > 0 ==> sw > 0 && sh > 0,
    ensures
        dst@.len() == 4 * dw * dh,
        forall|k: int| 0 <= k < dst@.len() ==> #[trigger] dst@[k] == downscaled_byte(src@, sw as int, sh as int, dw as int, dh as int, k),
{
    let mut dst: Vec<u8> = Vec::new();
    let mut dy: u32 = 0;
    while dy < dh
        invariant
            dy <= dh,
            src@.len() >= 4 * sw * sh,
            4 * dw * dh <= u32::MAX,
            sw * sh <= u32::MAX,
            dw > 0 && dh > 0 ==> sw > 0 && sh > 0,
            dst@.len() == 4 * dy * dw,
            forall|k: int| 0 <= k < dst@.len() ==> #[trigger] dst@[k] == downscaled_byte(src@, sw as int, sh as int, dw as int, dh as int, k),
        decreases dh - dy,
    {
        assert((2 * dy + 1) * sh <= 0x4_0000_0000_0000_0000int) by (nonlinear_arith)
            requires
                dy < 0x1_0000_0000int,
                sh < 0x1_0000_0000int,
        ;
        if dw > 0 {
            assert(sh > 0);
        }
        let sy: u32 = (((2 * dy as u128 + 1) * sh as u128) / (2 * dh as u128)) as u32;
        proof {
            lemma_sample_in_range(dy as int, sh as int, dh as int);
        }
        assert(4 * dy * dw == 4 * (dy * dw + 0)) by (nonlinear_arith);
        let mut dx: u32 = 0;
        while dx < dw
            invariant
                dy < dh,
                dx <= dw,
                src@.len() >= 4 * sw * sh,
                4 * dw * dh <= u32::MAX,
                sw * sh <= u32::MAX,
                dw > 0 ==> sw > 0,
                sy as int == sample_index(dy as int, sh as int, dh as int),
                dw > 0 ==> sy < sh,
                dst@.len() == 4 * (dy * dw + dx),
                forall|k: int| 0 <= k < dst@.len() ==> #[trigger] dst@[k] == downscaled_byte(src@, sw as int, sh as int, dw as int, dh as int, k),
            decreases dw - dx,
        {
            assert((2 * dx + 1) * sw <= 0x4_0000_0000_0000_0000int) by (nonlinear_arith)
                requires
                    dx < 0x1_0000_0000int,
                    sw < 0x1_0000_0000int,
            ;
            let sx: u32 = (((2 * dx as u128 + 1) * sw as u128) / (2 * dw as u128)) as u32;
            proof {
                lemma_sample_in_range(dx as int, sw as int, dw as int);
                assert(sx as int == sample_index(dx as int, sw as int, dw as int));
                assert(sx < sw);
                assert(sy * sw + sx + 1 <= sw * sh) by (nonlinear_arith)
                    requires
                        sy < sh,
                        sx < sw,
                ;
                assert(4 * (sy * sw + sx) + 4 <= 4 * sw * sh) by (nonlinear_arith)
                    requires
                        sy * sw + sx + 1 <= sw * sh,
                ;
            }
            assert(sy * sw <= u32::MAX);
            let row_start: u32 = sy * sw;
            let pixel: u32 = row_start + sx;
            let slen = src.len();
            assert(4 * pixel + 4 <= slen);
            let si: usize = pixel as usize * 4;
            let ghost before = dst@;
            let ghost p = dy * dw + dx;
            dst.push(src[si]);
            dst.push(src[si + 1]);
            dst.push(src[si + 2]);
            dst.push(src[si + 3]);
            proof {
                assert(p < dw * dh) by (nonlinear_arith)
                    requires
                        p == dy * dw + dx,
                        dy < dh,
                        dx < dw,
                ;
                assert forall|k: int| 0 <= k < dst@.len() implies #[trigger] dst@[k] == downscaled_byte(src@, sw as int, sh as int, dw as int, dh as int, k) by {
                    if k < before.len() {
                        assert(dst@[k] == before[k]);
                    } else {
                        let c = k - 4 * p;
                        vstd::arithmetic::div_mod::lemma_fundamental_div_mod_converse(k, 4, p, c);
                        vstd::arithmetic::div_mod::lemma_fundamental_div_mod_converse(p, dw as int, dy as int, dx as int);
                    }
                }
            }
            dx = dx + 1;
        }
        proof {
            assert(4 * (dy * dw + dw) == 4 * (dy + 1) * dw) by (nonlinear_arith);
        }
        dy = dy + 1;
    }
    proof {
        assert(4 * dh * dw == 4 * dw * dh) by (nonlinear_arith);
    }
    dst
}


/// Sampling `s` pixels down to `s` pixels picks each pixel itself.
proof fn lemma_sample_identity(d: int, s: int)
    requires
        0 <= d < s,
    ensures
        sample_index(d, s, s) == d,
{
    assert((2 * d + 1) * s == d * (2 * s) + s) by (nonlinear_arith);
    vstd::arithmetic::div_mod::lemma_fundamental_div_mod_converse((2 * d + 1) * s, 2 * s, d, s);
}

/// Downscaling a `w` x `h` image to `w` x `h` copies it byte for byte.
pub proof fn lemma_downscale_same_size(src: Seq<u8>, w: int, h: int, k: int)
    requires
        w > 0,
        h > 0,
        0 <= k < 4 * w * h,
    ensures
        downscaled_byte(src, w, h, w, h, k) == src[k],
{
    let p = k / 4;
    let c = k % 4;
    let dy = p / w;
    let dx = p % w;
    vstd::arithmetic::div_mod::lemma_fundamental_div_mod(k, 4);
    vstd::arithmetic::div_mod::lemma_fundamental_div_mod(p, w);
    assert(p < w * h) by (nonlinear_arith)
        requires
            k == 4 * p + c,
            0 <= c < 4,
            k < 4 * w * h,
    ;
    assert(0 <= dy < h) by (nonlinear_arith)
        requires
            p == w * dy + dx,
            0 <= dx < w,
            0 <= p < w * h,
            w > 0,
    ;
    lemma_sample_identity(dx, w);
    lemma_sample_identity(dy, h);
    assert(4 * (dy * w + dx) + c == k) by (nonlinear_arith)
        requires
            k == 4 * p + c,
            p == w * dy + dx,
    ;
}

} // verus!
