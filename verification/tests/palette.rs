use kdnlp::palette::name_hue;

fn reference_hue(name: &str) -> u32 {
    let mut h: u32 = 0;
    for b in name.bytes() {
        h = h.wrapping_mul(31).wrapping_add(b as u32);
    }
    h % 360
}

#[test]
fn hue_of_short_names() {
    assert_eq!(name_hue(""), 0);
    assert_eq!(name_hue("a"), 97);
    assert_eq!(name_hue("ab"), 225);
}

#[test]
fn hue_wraps_for_long_names() {
    let name = "a rather long profile name that overflows the hash";
    assert_eq!(name_hue(name), reference_hue(name));
    assert_eq!(name_hue("zoë"), reference_hue("zoë"));
    assert!(name_hue(name) < 360);
}
