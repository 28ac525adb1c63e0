use slang_preview::uniforms::{pack_parameters, Parameter};

fn param(name: &str, default: f32) -> Parameter {
    Parameter {
        name: name.to_string(),
        label: name.to_string(),
        default: default.to_bits(),
        min: 0.0f32.to_bits(),
        max: 1.0f32.to_bits(),
        step: 0.0f32.to_bits(),
    }
}

#[test]
fn parameters_pack_consecutively_and_pad_to_16() {
    let bytes = pack_parameters(&[param("A", 0.5), param("B", 0.25)]);
    assert_eq!(bytes.len(), 16);
    assert_eq!(&bytes[0..4], &0.5f32.to_le_bytes());
    assert_eq!(&bytes[4..8], &0.25f32.to_le_bytes());
    assert_eq!(&bytes[8..16], &[0u8; 8]);
    let many: Vec<_> = (0..5).map(|i| param("P", i as f32)).collect();
    assert_eq!(pack_parameters(&many).len(), 32);
}

#[test]
fn no_parameters_still_yields_one_vec4() {
    assert_eq!(pack_parameters(&[]), vec![0u8; 16]);
}

#[test]
fn four_parameters_fill_exactly_one_vec4() {
    let ps: Vec<_> = (0..4).map(|i| param("Q", i as f32 + 1.0)).collect();
    let bytes = pack_parameters(&ps);
    assert_eq!(bytes.len(), 16);
    assert_eq!(&bytes[12..16], &4.0f32.to_le_bytes());
}
