use conway::pattern::boot_color;

#[test]
fn pattern_colors_at_chosen_pixels() {
    assert_eq!(boot_color(0, 0, 0), 0);
    assert_eq!(boot_color(1, 2, 0), 6339);
    assert_eq!(boot_color(159, 127, 0), 58323);
    assert_eq!(boot_color(37, 90, 5), 44126);
    assert_eq!(boot_color(65535, 65535, 65535), 63488);
}

#[test]
fn pattern_color_mixes_three_channels() {
    for x in 0..160u16 {
        for y in 0..128u16 {
            for modifier in [0u16, 1, 0x1f, 0xffff] {
                let fine = (x & 31) ^ (y & 31);
                let red = fine ^ (x >> 3) ^ modifier;
                let green = fine ^ (y >> 3) ^ modifier;
                let blue = fine ^ (x >> 3) ^ (y >> 3) ^ modifier;
                assert_eq!(boot_color(x, y, modifier), red | (green << 6) | (blue << 11));
            }
        }
    }
}
