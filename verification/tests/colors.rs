//! Colour identifier round trips and packed cell records.

use printforge_core::color::{color_to_id, color_to_u32, id_to_color, u32_to_color, CellUVec4};

fn to_byte(v: f32) -> u8 {
    (v.clamp(0.0, 1.0) * 255.0).round() as u8
}

fn to_bytes(c: (f32, f32, f32, f32)) -> (u8, u8, u8, u8) {
    (to_byte(c.0), to_byte(c.1), to_byte(c.2), to_byte(c.3))
}

#[test]
fn color_to_id_and_back_roundtrip() {
    let colors: Vec<(f32, f32, f32, f32)> = vec![
        (0.0, 0.0, 0.0, 1.0),
        (1.0, 1.0, 1.0, 1.0),
        (0.5, 0.25, 0.75, 1.0),
        (0.9, 0.1, 0.2, 0.5),
        (0.2, 0.9, 0.4, 0.9),
    ];

    for c in colors {
        let (r, g, b, a) = to_bytes(c);
        let id = color_to_id(r, g, b, a);
        let c2 = id_to_color(&id);

        let back = (
            c2.0 as f32 / 255.0,
            c2.1 as f32 / 255.0,
            c2.2 as f32 / 255.0,
            c2.3 as f32 / 255.0,
        );
        assert!((c.0 - back.0).abs() < 1.0 / 255.0, "r mismatch: {:?} -> {:?} -> {:?}", c, id, c2);
        assert!((c.1 - back.1).abs() < 1.0 / 255.0, "g mismatch: {:?} -> {:?} -> {:?}", c, id, c2);
        assert!((c.2 - back.2).abs() < 1.0 / 255.0, "b mismatch: {:?} -> {:?} -> {:?}", c, id, c2);
        assert!((c.3 - back.3).abs() < 1.0 / 255.0, "a mismatch: {:?} -> {:?} -> {:?}", c, id, c2);
    }
}

#[test]
fn color_to_u32_and_back_roundtrip() {
    let colors: Vec<(f32, f32, f32, f32)> = vec![
        (0.0, 0.0, 0.0, 0.0),
        (1.0, 1.0, 1.0, 1.0),
        (0.3, 0.6, 0.9, 1.0),
        (0.5, 0.2, 0.1, 0.3),
    ];

    for c in colors {
        let (r, g, b, a) = to_bytes(c);
        let code = color_to_u32(r, g, b, a);
        let c2 = u32_to_color(code);

        let back = (
            c2.0 as f32 / 255.0,
            c2.1 as f32 / 255.0,
            c2.2 as f32 / 255.0,
            c2.3 as f32 / 255.0,
        );
        assert!((c.0 - back.0).abs() < 1.0 / 255.0, "r mismatch: {:?} -> {:#X} -> {:?}", c, code, c2);
        assert!((c.1 - back.1).abs() < 1.0 / 255.0, "g mismatch: {:?} -> {:#X} -> {:?}", c, code, c2);
        assert!((c.2 - back.2).abs() < 1.0 / 255.0, "b mismatch: {:?} -> {:#X} -> {:?}", c, code, c2);
        assert!((c.3 - back.3).abs() < 1.0 / 255.0, "a mismatch: {:?} -> {:#X} -> {:?}", c, code, c2);
    }
}

#[test]
fn id_to_color_handles_edge_cases() {
    // incomplete or invalid identifiers fall back to opaque white
    let invalids: Vec<&[u8]> = vec![b"", b"#", b"#GGHHII", b"#12345", b"nonsense"];
    for s in invalids {
        let c = id_to_color(&s.to_vec());
        assert!(
            c.0 == 255 && c.1 == 255 && c.2 == 255,
            "Unexpected color for '{:?}': {:?}",
            s,
            c
        );
    }

    // valid edge cases
    let c1 = id_to_color(&b"#000000".to_vec());
    let c2 = id_to_color(&b"#FFFFFF".to_vec());
    let c3 = id_to_color(&b"#FF000080".to_vec()); // red, half transparent

    assert!(c1.0 == 0 && c1.2 == 0);
    assert!(c2.0 == 255 && c2.1 == 255);
    assert!((c3.3 as f32 / 255.0 - 0.5).abs() < 0.01, "alpha should be about 0.5, got {:?}", c3.3);
}

#[test]
fn id_format_appends_alpha_only_when_translucent() {
    assert_eq!(color_to_id(255, 0, 0, 255), b"#FF0000".to_vec());
    assert_eq!(color_to_id(18, 52, 86, 128), b"#12345680".to_vec());
}

#[test]
fn cell_record_packs_identifier_above_color() {
    let rec = CellUVec4::new(0x3f800000, 0x40000000, 0x40400000, [1, 2, 3], 7);
    assert_eq!(rec.x, 0x3f800000);
    assert_eq!(rec.y, 0x40000000);
    assert_eq!(rec.z, 0x40400000);
    assert_eq!(rec.w, (7u32 << 24) | (3u32 << 16) | (2u32 << 8) | 1u32);
}
