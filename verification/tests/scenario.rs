//! End-to-end scenarios: a small classic-rule render driven through the
//! engine's structure, image block gathering, and buffer filling.

use jset_desk::iter::{IterMap, IterMapChunk};
use jset_desk::rgb::{clamp_scale, ColorMap, ColorMapSpec, FImageData, GradientSpec, RGB};
use jset_desk::rw::try_to_fill;

/// The classic escape-time kernel, straight from the rule: iterate
/// `z * z + c` from zero until the squared modulus passes 1e100 or the
/// limit is reached.
fn classic_escape_count(cr: f64, ci: f64, limit: usize) -> usize {
    let mut zr = 0.0f64;
    let mut zi = 0.0f64;
    for n in 0..limit {
        let nr = zr * zr - zi * zi + cr;
        let ni = 2.0 * zr * zi + ci;
        zr = nr;
        zi = ni;
        if zr * zr + zi * zi > 1.0e100 {
            return n;
        }
    }
    limit
}

#[test]
fn classic_four_by_four_scenario() {
    // A 4 by 4 view of the rectangle from -2.0 + 1.0i, 3.0 wide, at
    // iteration limit 10.
    let (w, h, limit) = (4usize, 4usize, 10usize);
    let plane_height = 3.0 * (h as f64) / (w as f64);
    let mut data: Vec<usize> = Vec::new();
    for yp in 0..h {
        let y = 1.0 - (yp as f64 / h as f64) * plane_height;
        for xp in 0..w {
            let x = -2.0 + (xp as f64 / w as f64) * 3.0;
            data.push(classic_escape_count(x, y, limit));
        }
    }
    let chunk = IterMapChunk { y_start: 0, n_rows: h, data: data.clone() };
    let m = IterMap::compile(w, h, limit, vec![chunk]).unwrap();

    // Every count is within [0, limit].
    assert!(data.iter().all(|&n| n <= limit));
    // The pixel nearest the plane origin (column 3, row 1 shows the
    // point 0.25 + 0.25i, inside the set) never diverges.
    assert_eq!(data[1 * w + 3], limit);
    // The corner pixel showing -2.0 + 1.0i lies outside the set and
    // diverges early.
    assert!(data[0] < limit);
    assert_eq!(data[0], 8);

    // Coloring maps each count through the color map, and the alive
    // pixels get the default color.
    let spec = ColorMapSpec::new(
        vec![GradientSpec::new(RGB::black(), RGB::black(), limit)],
        RGB::new(500, 0, 0),
    );
    let shades: Vec<RGB> = (0..limit).map(|i| RGB::new(i as u32, 0, 0)).collect();
    let cmap = ColorMap::make(&spec, shades).unwrap();
    let img = m.color(&cmap);
    assert_eq!(img.width(), w);
    assert_eq!(img.height(), h);
    let pixels = img.to_data();
    for (i, p) in pixels.iter().enumerate() {
        if data[i] == limit {
            assert_eq!(*p, RGB::new(500, 0, 0));
        } else {
            assert_eq!(*p, RGB::new(data[i] as u32, 0, 0));
        }
    }
}

#[test]
fn reiterating_equals_recomputing() {
    // Compute the 4 by 4 scenario at limit 10, extend it to limit 20,
    // and compare against a fresh computation at 20: the shortcut must
    // not change any count.
    let (w, h) = (4usize, 4usize);
    let count_at = |xp: usize, yp: usize, limit: usize| {
        let y = 1.0 - (yp as f64 / h as f64) * 3.0;
        let x = -2.0 + (xp as f64 / w as f64) * 3.0;
        classic_escape_count(x, y, limit)
    };
    let grid = |limit: usize| -> Vec<usize> {
        (0..h).flat_map(|yp| (0..w).map(move |xp| count_at(xp, yp, limit))).collect()
    };

    let shallow = grid(10);
    let deep = grid(20);
    let mut m = IterMap::compile(
        w,
        h,
        10,
        vec![IterMapChunk { y_start: 0, n_rows: h, data: shallow }],
    )
    .unwrap();
    let fresh: Vec<usize> = m
        .pending_points()
        .iter()
        .map(|&(x, y)| count_at(x, y, 20))
        .collect();
    m.reiterate_with(20, &fresh).unwrap();

    let full = IterMap::compile(
        w,
        h,
        20,
        vec![IterMapChunk { y_start: 0, n_rows: h, data: deep.clone() }],
    )
    .unwrap();
    let spec = ColorMapSpec::new(
        vec![GradientSpec::new(RGB::black(), RGB::black(), 20)],
        RGB::new(500, 0, 0),
    );
    let shades: Vec<RGB> = (0..20).map(|i| RGB::new(i as u32, 0, 0)).collect();
    let cmap = ColorMap::make(&spec, shades).unwrap();
    let merged: Vec<RGB> = m.color(&cmap).to_data();
    let direct: Vec<RGB> = full.color(&cmap).to_data();
    assert_eq!(merged, direct);
}

#[test]
fn gather_block_reads_the_right_pixels() {
    // A 4 by 4 image whose pixel at (x, y) is numbered 10*y + x.
    let pix: Vec<RGB> = (0..16).map(|i| RGB::new((i / 4) * 10 + i % 4, 0, 0)).collect();
    let img = FImageData::new(4, 4, pix);
    assert_eq!(img.scaled_dims(2), (2, 2));
    assert_eq!(img.scaled_dims(4), (1, 1));
    assert_eq!(img.scaled_dims(3), (1, 1));
    let mut buf: Vec<RGB> = Vec::new();
    img.gather_block(1, 0, 2, &mut buf);
    let got: Vec<u32> = buf.iter().map(|p| p.r).collect();
    assert_eq!(got, vec![2, 3, 12, 13]);
    img.gather_block(0, 1, 2, &mut buf);
    let got: Vec<u32> = buf.iter().map(|p| p.r).collect();
    assert_eq!(got, vec![20, 21, 30, 31]);
}

#[test]
fn uniform_image_gathers_uniform_blocks() {
    // An 8 by 8 image of one color: every 2 by 2 block it is scaled
    // down by is that same color, so its average reproduces it.
    let c = RGB::new(120, 45, 200);
    let img = FImageData::new(8, 8, vec![c; 64]);
    let (sw, sh) = img.scaled_dims(2);
    assert_eq!((sw, sh), (4, 4));
    let mut buf: Vec<RGB> = Vec::new();
    for yi in 0..sh {
        for xi in 0..sw {
            img.gather_block(xi, yi, 2, &mut buf);
            assert_eq!(buf.len(), 4);
            assert!(buf.iter().all(|p| *p == c));
        }
    }
}

#[test]
fn scale_factors_clamp_to_the_supported_range() {
    assert_eq!(clamp_scale(0), 1);
    assert_eq!(clamp_scale(1), 1);
    assert_eq!(clamp_scale(2), 2);
    assert_eq!(clamp_scale(5), 5);
    assert_eq!(clamp_scale(6), 5);
    assert_eq!(clamp_scale(usize::MAX), 5);
}

#[test]
fn try_to_fill_reads_until_the_source_is_dry() {
    let src = [1u8, 2, 3, 4, 5];
    let mut rdr: &[u8] = &src;
    let mut buf = vec![0u8; 8];
    let n = try_to_fill(&mut rdr, &mut buf).unwrap();
    assert_eq!(n, 5);
    assert_eq!(&buf[..5], &src);
    assert_eq!(&buf[5..], &[0, 0, 0]);
}

#[test]
fn try_to_fill_stops_at_a_full_buffer() {
    let src = [9u8; 40];
    let mut rdr: &[u8] = &src;
    let mut buf = vec![0u8; 16];
    let n = try_to_fill(&mut rdr, &mut buf).unwrap();
    assert_eq!(n, 16);
    assert!(buf.iter().all(|&b| b == 9));
}
