use atlas_editor::color::{
    UiColor, expand_websafe_hexcolor, hex_argb_channels, hex_argb_from_hex_rgb,
    ui_color_from_hex_rgb, ui_color_from_hex_rgb_with_alpha, ui_color_from_websafe_hex_rgb,
    ui_color_from_websafe_hex_rgb_with_alpha, websafe_hex_argb_from_websafe_hex_rgb,
};

#[test]
fn expand_websafe_repeats_every_nibble() {
    assert_eq!(expand_websafe_hexcolor(0x1234), 0x1122_3344);
    assert_eq!(expand_websafe_hexcolor(0xf0a5), 0xff00_aa55);
    assert_eq!(expand_websafe_hexcolor(0), 0);
    assert_eq!(expand_websafe_hexcolor(0xffff), 0xffff_ffff);
}

#[test]
fn expand_websafe_ignores_bits_above_sixteen() {
    assert_eq!(expand_websafe_hexcolor(0xabcd_1234), 0x1122_3344);
}

#[test]
fn hex_rgb_splits_into_channels() {
    assert_eq!(
        ui_color_from_hex_rgb(0x12_3456),
        UiColor { r: 0x12, g: 0x34, b: 0x56, a: 255 }
    );
    assert_eq!(
        ui_color_from_hex_rgb_with_alpha(0xff12_3456, 0x80),
        UiColor { r: 0x12, g: 0x34, b: 0x56, a: 0x80 }
    );
}

#[test]
fn websafe_rgb_repeats_nibbles() {
    assert_eq!(
        ui_color_from_websafe_hex_rgb(0xabc),
        UiColor { r: 0xaa, g: 0xbb, b: 0xcc, a: 255 }
    );
    assert_eq!(
        ui_color_from_websafe_hex_rgb_with_alpha(0x7abc, 3),
        UiColor { r: 0xaa, g: 0xbb, b: 0xcc, a: 3 }
    );
}

#[test]
fn websafe_colour_equals_expanded_hex_colour() {
    for hex in [0u32, 0x123, 0xfff, 0x9a0, 0x5c3] {
        assert_eq!(
            ui_color_from_websafe_hex_rgb(hex),
            ui_color_from_hex_rgb(expand_websafe_hexcolor(hex))
        );
    }
}

#[test]
fn argb_channels_in_order() {
    assert_eq!(hex_argb_channels(0x8011_2233), (0x80, 0x11, 0x22, 0x33));
    assert_eq!(hex_argb_channels(0), (0, 0, 0, 0));
}

#[test]
fn opaque_forms_set_alpha() {
    assert_eq!(hex_argb_from_hex_rgb(0xab12_3456), 0xff12_3456);
    assert_eq!(hex_argb_from_hex_rgb(0x0012_3456), 0xff12_3456);
    assert_eq!(websafe_hex_argb_from_websafe_hex_rgb(0xa123), 0xf123);
    assert_eq!(websafe_hex_argb_from_websafe_hex_rgb(0x0fed), 0xffed);
}
