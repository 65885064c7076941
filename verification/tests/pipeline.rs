use otter_morph::cli::Cli;
use otter_morph::fixed::parse_fixed;
use otter_morph::frames::{sequence_frames, GifEncoder};
use otter_morph::pipeline::{compose_frame, plan_morph};
use otter_morph::points::{Coord, Points, Ratio};
use otter_morph::raster::{composite_over, resize_nearest_out, scale_alpha, Image};
use otter_morph::MorphError;

fn solid(width: u32, height: u32, rgba: [u8; 4]) -> Image {
    let mut data = Vec::new();
    for _ in 0..width * height {
        data.extend_from_slice(&rgba);
    }
    Image { width, height, data }
}

fn rec(fields: &[&str]) -> Vec<Vec<u8>> {
    fields.iter().map(|f| f.as_bytes().to_vec()).collect()
}

#[test]
fn parse_fixed_values() {
    assert_eq!(parse_fixed(&b"12.5".to_vec()), Some(12500));
    assert_eq!(parse_fixed(&b" -3 ".to_vec()), Some(-3000));
    assert_eq!(parse_fixed(&b"+0.75".to_vec()), Some(750));
    assert_eq!(parse_fixed(&b".5".to_vec()), Some(500));
    assert_eq!(parse_fixed(&b"7.".to_vec()), Some(7000));
    assert_eq!(parse_fixed(&b"1.2345".to_vec()), Some(1234));
    assert_eq!(parse_fixed(&b"".to_vec()), None);
    assert_eq!(parse_fixed(&b"abc".to_vec()), None);
    assert_eq!(parse_fixed(&b"1.2.3".to_vec()), None);
    assert_eq!(parse_fixed(&b"-".to_vec()), None);
    assert_eq!(parse_fixed(&b"99999999999999".to_vec()), None);
}

#[test]
fn read_points_with_header() {
    let data = b"hx,hy,ox,oy\n1,2,3,4\n5.5,6,7,8\n";
    let p = Points::read(data).unwrap();
    assert_eq!(p.human, vec![Coord { x: 1000, y: 2000 }, Coord { x: 5500, y: 6000 }]);
    assert_eq!(p.otter, vec![Coord { x: 3000, y: 4000 }, Coord { x: 7000, y: 8000 }]);
}

#[test]
fn read_points_without_header() {
    let data = b"1,2,3,4\n";
    let p = Points::read(data).unwrap();
    assert_eq!(p.human.len(), 1);
    assert_eq!(p.otter[0], Coord { x: 3000, y: 4000 });
}

#[test]
fn read_is_deterministic_in_the_bytes() {
    let data = b"hx,hy,ox,oy\n10,20,30,40\n1.5,2.5,3.5,4.5\n";
    let p1 = Points::read(data).unwrap();
    let p2 = Points::read(data).unwrap();
    assert_eq!(p1.human, p2.human);
    assert_eq!(p1.otter, p2.otter);
    assert_eq!(p1.human, vec![Coord { x: 10000, y: 20000 }, Coord { x: 1500, y: 2500 }]);
    assert_eq!(p1.otter, vec![Coord { x: 30000, y: 40000 }, Coord { x: 3500, y: 4500 }]);
}

#[test]
fn read_exponent_notation_is_malformed() {
    match Points::read(b"1e3,2,3,4\n") {
        Err(MorphError::MalformedInput(v)) => assert_eq!(v, b"1e3".to_vec()),
        other => panic!("expected MalformedInput, got {:?}", other),
    }
}

#[test]
fn read_points_bad_field_reported() {
    let data = b"1,2,zap,4\n";
    match Points::read(data) {
        Err(MorphError::MalformedInput(v)) => assert_eq!(v, b"zap".to_vec()),
        other => panic!("expected MalformedInput, got {:?}", other),
    }
}

#[test]
fn from_records_wrong_arity_reported() {
    let records = vec![rec(&["1", "2", "3"])];
    match Points::from_records(&records) {
        Err(MorphError::MalformedInput(v)) => assert_eq!(v, b"1,2,3".to_vec()),
        other => panic!("expected MalformedInput, got {:?}", other),
    }
}

#[test]
fn interpolate_needs_two_steps() {
    let p = Points { human: vec![Coord { x: 0, y: 0 }], otter: vec![Coord { x: 1000, y: 1000 }] };
    match p.interpolate(1) {
        Err(MorphError::InvalidConfiguration) => {}
        other => panic!("expected InvalidConfiguration, got {:?}", other),
    }
}

#[test]
fn interpolate_ratios_increase_from_zero_to_one() {
    let p = Points { human: vec![Coord { x: 0, y: 0 }], otter: vec![Coord { x: 1000, y: 2000 }] };
    let (ratios, configs) = p.interpolate(5).unwrap();
    assert_eq!(ratios.len(), 5);
    assert_eq!(ratios[0], Ratio { num: 0, den: 4 });
    assert_eq!(ratios[4], Ratio { num: 4, den: 4 });
    for w in ratios.windows(2) {
        assert!(w[0].num < w[1].num && w[0].den == w[1].den);
    }
    // Convex combination at each step, and exact endpoints.
    assert_eq!(configs[0][0], Coord { x: 0, y: 0 });
    assert_eq!(configs[2][0], Coord { x: 500, y: 1000 });
    assert_eq!(configs[4][0], Coord { x: 1000, y: 2000 });
}

#[test]
fn interpolate_matches_convex_combination() {
    let p = Points { human: vec![Coord { x: 2000, y: -1000 }], otter: vec![Coord { x: 5000, y: 3000 }] };
    let (_, configs) = p.interpolate(3).unwrap();
    // a*(1-r) + b*r at r = 1/2: (2000+5000)/2 and (-1000+3000)/2.
    assert_eq!(configs[1][0], Coord { x: 3500, y: 1000 });
}

#[test]
fn scale_alpha_identity_and_zero() {
    let mut img = solid(2, 2, [10, 20, 30, 200]);
    let before = img.data.clone();
    scale_alpha(&mut img, 7, 7);
    assert_eq!(img.data, before);
    scale_alpha(&mut img, 0, 7);
    for px in img.data.chunks(4) {
        assert_eq!(px, &[10, 20, 30, 0]);
    }
    // A pixel that is already fully transparent stays untouched.
    let mut img2 = solid(1, 1, [9, 9, 9, 0]);
    scale_alpha(&mut img2, 3, 4);
    assert_eq!(img2.data, vec![9, 9, 9, 0]);
}

#[test]
fn composite_boundaries() {
    // Fully opaque top dominates.
    let top = solid(2, 2, [255, 0, 0, 255]);
    let mut bot = solid(2, 2, [0, 0, 255, 255]);
    composite_over(&mut bot, &top);
    for px in bot.data.chunks(4) {
        assert_eq!(px, &[255, 0, 0, 255]);
    }
    // Fully transparent top leaves the bottom exactly.
    let clear = solid(2, 2, [255, 0, 0, 0]);
    let mut bot2 = solid(2, 2, [1, 2, 3, 77]);
    composite_over(&mut bot2, &clear);
    for px in bot2.data.chunks(4) {
        assert_eq!(px, &[1, 2, 3, 77]);
    }
}

#[test]
fn compose_frame_rejects_mismatched_warps() {
    let a = solid(2, 2, [1, 1, 1, 255]);
    let b = solid(3, 2, [1, 1, 1, 255]);
    match compose_frame(a, b, Ratio { num: 0, den: 1 }) {
        Err(MorphError::DimensionMismatch) => {}
        other => panic!("expected DimensionMismatch, got {:?}", other),
    }
}

#[test]
fn plan_rejects_mismatched_dimensions_first() {
    let a = solid(4, 4, [255, 0, 0, 255]);
    let b = solid(4, 5, [0, 0, 255, 255]);
    let p = Points { human: vec![Coord { x: 0, y: 0 }], otter: vec![Coord { x: 0, y: 0 }] };
    // Even with an unusable step count the dimension mismatch wins.
    match plan_morph(&a, &b, &p, 1) {
        Err(MorphError::DimensionMismatch) => {}
        other => panic!("expected DimensionMismatch, got {:?}", other),
    }
}

#[test]
fn plan_rejects_zero_dimension_endpoints() {
    let a = solid(0, 4, [0, 0, 0, 255]);
    let b = solid(0, 4, [0, 0, 0, 255]);
    let p = Points { human: vec![], otter: vec![] };
    match plan_morph(&a, &b, &p, 2) {
        Err(MorphError::InvalidConfiguration) => {}
        other => panic!("expected InvalidConfiguration, got {:?}", other),
    }
}

#[test]
fn sequencer_emits_loop_order() {
    let first = solid(1, 1, [1, 0, 0, 255]);
    let last = solid(1, 1, [2, 0, 0, 255]);
    let m0 = solid(1, 1, [3, 0, 0, 255]);
    let m1 = solid(1, 1, [4, 0, 0, 255]);
    let frames = sequence_frames(&first, vec![m0, m1], &last, 2, 50);
    let reds: Vec<u8> = frames.iter().map(|f| f.image.data[0]).collect();
    assert_eq!(reds, vec![1, 1, 3, 4, 2, 2, 4, 3]);
    assert!(frames.iter().all(|f| f.delay_ms == 50));
}

#[test]
fn encoder_zero_frames_close_succeeds() {
    let enc = GifEncoder::new();
    let r = enc.flush();
    assert!(r.is_ok());
}

#[test]
fn encoder_keeps_submission_order() {
    let mut enc = GifEncoder::new();
    let colors = [[255u8, 0, 0, 255], [0, 255, 0, 255], [0, 0, 255, 255]];
    for c in colors {
        enc.write_frame(solid(8, 8, c), 50);
    }
    let bytes = enc.flush().unwrap();
    let decoder =
        image::codecs::gif::GifDecoder::new(std::io::Cursor::new(bytes)).unwrap();
    let frames = image::AnimationDecoder::into_frames(decoder).collect_frames().unwrap();
    assert_eq!(frames.len(), 3);
    for (k, f) in frames.iter().enumerate() {
        let px = f.buffer().get_pixel(4, 4).0;
        for c in 0..3 {
            assert!(
                (px[c] as i32 - colors[k][c] as i32).abs() <= 12,
                "frame {} channel {} was {}",
                k,
                c,
                px[c]
            );
        }
    }
}

#[test]
fn resize_changes_dimensions_and_keeps_solid_color() {
    let img = solid(4, 4, [255, 0, 0, 255]);
    let out = resize_nearest_out(&img);
    assert_eq!((out.width, out.height), (256, 256));
    assert_eq!(out.data.len(), 4 * 256 * 256);
    for px in out.data.chunks(4) {
        assert_eq!(px, &[255, 0, 0, 255]);
    }
}

#[test]
fn cli_name_ignores_trailing_separator() {
    let mut cli = Cli {
        output: None,
        frame_duration: 50,
        interp_len: 30,
        pause_len: 15,
        open_gif_after: false,
        img_human: String::from("x/"),
        img_otter: String::new(),
        points_csv: String::new(),
    };
    assert_eq!(cli.name(), "x");
    cli.img_human = String::from("shots/alice.png//");
    assert_eq!(cli.name(), "alice");
}

#[test]
fn cli_name_and_output() {
    let cli = Cli {
        output: None,
        frame_duration: 50,
        interp_len: 30,
        pause_len: 15,
        open_gif_after: false,
        img_human: String::from("shots/alice.png"),
        img_otter: String::from("shots/otter.png"),
        points_csv: String::from("shots/alice.csv"),
    };
    assert_eq!(cli.name(), "alice");
    assert_eq!(cli.output(), "alice.gif");
    assert_eq!(cli.frame_duration(), 50);
    assert_eq!(cli.pause_duration(), 750);
    let cli2 = Cli { output: Some(String::from("x.gif")), ..cli };
    assert_eq!(cli2.output(), "x.gif");
}

#[test]
fn end_to_end_two_step_morph() {
    // Two 4x4 solid images, two corner point pairs, two interpolation steps,
    // one pause frame on each end: 2*1 + 2*2 = 6 frames in total.
    let red = solid(4, 4, [255, 0, 0, 255]);
    let blue = solid(4, 4, [0, 0, 255, 255]);
    let points = Points {
        human: vec![Coord { x: 0, y: 0 }, Coord { x: 3000, y: 3000 }],
        otter: vec![Coord { x: 0, y: 0 }, Coord { x: 3000, y: 3000 }],
    };
    let plan = plan_morph(&red, &blue, &points, 2).unwrap();
    assert_eq!(plan.ratios, vec![Ratio { num: 0, den: 1 }, Ratio { num: 1, den: 1 }]);

    // On solid-color endpoints any correspondence-based warp is a no-op
    // (identical solid output), so the warped images are the endpoints.
    let mut morphs = Vec::new();
    for ratio in &plan.ratios {
        let frame = compose_frame(red.duplicate(), blue.duplicate(), *ratio).unwrap();
        morphs.push(otter_morph::raster::resize_gaussian_out(&frame));
    }
    let first = resize_nearest_out(&red);
    let last = resize_nearest_out(&blue);
    let seq = sequence_frames(&first, morphs, &last, 1, 50);
    assert_eq!(seq.len(), 6);

    let mut enc = GifEncoder::new();
    for f in seq {
        enc.write_frame(f.image, f.delay_ms);
    }
    let bytes = enc.flush().unwrap();
    let decoder =
        image::codecs::gif::GifDecoder::new(std::io::Cursor::new(bytes)).unwrap();
    let frames = image::AnimationDecoder::into_frames(decoder).collect_frames().unwrap();
    assert_eq!(frames.len(), 6);

    // Frame 0: the red pause frame. Frame 2: the last forward morph frame
    // (ratio 1), which must be pure blue.
    let f0 = frames[0].buffer().get_pixel(128, 128).0;
    assert!(f0[0] > 200 && f0[1] < 40 && f0[2] < 40);
    let f2 = frames[2].buffer().get_pixel(128, 128).0;
    assert!(f2[2] > 200 && f2[0] < 40 && f2[1] < 40);
}
