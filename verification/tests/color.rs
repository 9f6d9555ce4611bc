use canvas_ui::util::Color;
use canvas_ui::util::TextColors;

fn channels(color: Color) -> (u8, u8, u8, u8) {
    (color.get_red(), color.get_green(), color.get_blue(), color.get_alpha())
}

#[test]
fn test_from_rgb_is_opaque() {
    assert_eq!((12, 34, 56, 255), channels(Color::from_rgb(12, 34, 56)));
    assert_eq!((0, 0, 0, 255), channels(Color::from_rgb(0, 0, 0)));
    assert_eq!((255, 255, 255, 255), channels(Color::from_rgb(255, 255, 255)));
}

#[test]
fn test_from_rgba_keeps_each_channel() {
    assert_eq!((1, 2, 3, 4), channels(Color::from_rgba(1, 2, 3, 4)));
    assert_eq!((255, 0, 255, 0), channels(Color::from_rgba(255, 0, 255, 0)));
}

#[test]
fn test_named_colors() {
    assert_eq!((0, 0, 0, 255), channels(Color::black()));
    assert_eq!((255, 255, 255, 255), channels(Color::white()));
    assert_eq!((255, 0, 0, 255), channels(Color::red()));
    assert_eq!((0, 255, 0, 255), channels(Color::green()));
    assert_eq!((0, 0, 255, 255), channels(Color::blue()));
    assert_eq!((0, 0, 0, 0), channels(Color::transparent()));
}

#[test]
fn test_color_equality_is_by_channels() {
    assert!(Color::from_rgb(1, 2, 3) == Color::from_rgba(1, 2, 3, 255));
    assert!(Color::from_rgb(1, 2, 3) != Color::from_rgba(1, 2, 3, 254));
    assert!(Color::black() != Color::transparent());
}

#[test]
fn test_text_colors_new() {
    let colors = TextColors::new(Color::red(), Color::green(), Color::blue());
    assert!(colors.fill_color == Color::red());
    assert!(colors.stroke_color == Color::green());
    assert!(colors.background_color == Color::blue());
}

#[test]
fn test_text_colors_labels() {
    let label = TextColors::create_label(Color::red(), Color::blue());
    assert!(label.fill_color == Color::red());
    assert!(label.stroke_color == Color::blue());
    assert!(label.background_color == Color::transparent());

    let simple = TextColors::create_simple_label(Color::green());
    assert!(simple.fill_color == Color::green());
    assert!(simple.stroke_color == Color::green());
    assert!(simple.background_color == Color::transparent());

    let black = TextColors::black_label();
    assert!(black.fill_color == Color::black());
    assert!(black.stroke_color == Color::black());
    assert!(black.background_color == Color::transparent());
}

#[test]
fn test_text_colors_simple_button() {
    let button = TextColors::create_simple_button(Color::white());
    assert!(button.fill_color == Color::black());
    assert!(button.stroke_color == Color::black());
    assert!(button.background_color == Color::white());
}
