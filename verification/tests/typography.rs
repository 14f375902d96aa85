use waterui_gtk::components::layout::badge::{
    apply_badge, badge_declarations, badge_margins, DOT_SIZE, PILL_SIZE,
};
use waterui_gtk::components::typography::label::TextLabel;
use waterui_gtk::components::typography::text::{
    apply_paragraph_alignment, apply_styled_content, emit_color_attrs, escape_markup_attr,
    escape_markup_text, font_weight_to_pango_value, label_lines, resolved_color_to_hex, restyles,
    style_to_markup_attrs,
    styled_to_markup, Chunk, FontDesign, FontWeight, Justification, ResolvedColor, ResolvedFont,
    Style,
};
use waterui_gtk::geometry::HorizontalAlignment;
use waterui_gtk::layout::widget::{WidgetKind, WidgetTree};
use waterui_gtk::single::Single;
use waterui_gtk::text::{decimal_text, push_decimal, push_hex_byte};

fn single(value: f32) -> Single {
    Single::from_bits(value.to_bits())
}

fn color(red: u8, green: u8, blue: u8, alpha: f32) -> ResolvedColor {
    ResolvedColor { red, green, blue, alpha: single(alpha) }
}

fn font(size: f32) -> ResolvedFont {
    ResolvedFont {
        size: single(size),
        weight: FontWeight::Normal,
        family: None,
        design: FontDesign::Default,
    }
}

fn plain() -> Style {
    Style {
        font: font(14.0),
        italic: false,
        underline: false,
        strikethrough: false,
        foreground: None,
        background: None,
    }
}

fn chunk(text: &str, style: Style) -> Chunk {
    Chunk { text: text.to_string(), style }
}

/// The value of an attribute of the first span.
fn attr(markup: &str, name: &str) -> Option<String> {
    let tag = markup.split('>').next()?;
    let start = tag.find(&format!(" {name}=\""))? + name.len() + 3;
    let rest = &tag[start..];
    Some(rest[..rest.find('"')?].to_string())
}

/// The color of an attribute in sixteen bits for each part.
fn parsed_rgb(markup: &str, name: &str) -> Option<(u16, u16, u16)> {
    let value = attr(markup, name)?;
    let part = |i: usize| u16::from_str_radix(&value[i..i + 2], 16).unwrap() * 0x101;
    Some((part(1), part(3), part(5)))
}

/// The opacity of an attribute in sixteen bits, if it carries one.
fn parsed_alpha(markup: &str, name: &str) -> Option<u16> {
    let value = attr(markup, name)?;
    if value.len() == 9 {
        Some(u16::from_str_radix(&value[7..9], 16).unwrap() * 0x101)
    } else {
        None
    }
}

#[test]
fn environment_foreground_reaches_unstyled_chunks() {
    let env = Some(color(255, 255, 255, 1.0));
    let markup = styled_to_markup(&vec![chunk("body", plain())], &env, true);
    assert_eq!(parsed_rgb(&markup, "foreground"), Some((0xFFFF, 0xFFFF, 0xFFFF)));
    assert_eq!(parsed_alpha(&markup, "foreground"), None);
}

#[test]
fn environment_foreground_preserves_alpha() {
    let env = Some(color(255, 255, 255, 0.5));
    let markup = styled_to_markup(&vec![chunk("body", plain())], &env, true);
    assert_eq!(parsed_alpha(&markup, "foreground"), Some(0x8080));

    let env = Some(color(255, 255, 255, 0.0));
    let markup = styled_to_markup(&vec![chunk("body", plain())], &env, true);
    assert_eq!(parsed_alpha(&markup, "foreground"), Some(0));
}

#[test]
fn explicit_span_foreground_keeps_precedence_and_alpha() {
    let env = Some(color(255, 255, 255, 1.0));
    let style = Style { foreground: Some(color(255, 0, 0, 0.25)), ..plain() };
    let content = vec![chunk("", plain()), chunk("hi", style)];
    let markup = styled_to_markup(&content, &env, true);
    assert_eq!(parsed_rgb(&markup, "foreground"), Some((0xFFFF, 0, 0)));
    assert_eq!(parsed_alpha(&markup, "foreground"), Some(0x4040));
}

#[test]
fn explicit_span_background_preserves_alpha() {
    let style = Style { background: Some(color(0, 128, 0, 0.5)), ..plain() };
    let content = vec![chunk("", plain()), chunk("hi", style)];
    let markup = styled_to_markup(&content, &None, true);
    assert_eq!(parsed_rgb(&markup, "background"), Some((0, 0x8080, 0)));
    assert_eq!(parsed_alpha(&markup, "background"), Some(0x8080));
}

#[test]
fn insensitive_label_drops_environment_foreground() {
    let env = Some(color(255, 255, 255, 1.0));
    let content = vec![chunk("body", plain())];
    let sensitive = styled_to_markup(&content, &env, true);
    let insensitive = styled_to_markup(&content, &env, false);
    assert!(attr(&sensitive, "foreground").is_some());
    assert!(attr(&insensitive, "foreground").is_none());
    assert_eq!(insensitive, styled_to_markup(&content, &None, true));
}

#[test]
fn rendered_label_follows_effective_sensitivity() {
    let env = Some(color(255, 255, 255, 1.0));
    let content = vec![chunk("body", plain())];
    let leading = HorizontalAlignment::Leading;
    let mut tree = WidgetTree::new();
    let mut label = TextLabel::render(&mut tree, &content, leading, &env, false, None);
    assert!(attr(&label.shown.markup, "foreground").is_some());

    // A parent became insensitive, and the label with it.
    assert!(label.state_flags_changed(&content, leading, &env, true, false));
    assert!(attr(&label.shown.markup, "foreground").is_none());
    assert!(!label.state_flags_changed(&content, leading, &env, true, true));
    assert!(attr(&label.shown.markup, "foreground").is_none());

    assert!(label.state_flags_changed(&content, leading, &env, false, true));
    assert!(attr(&label.shown.markup, "foreground").is_some());
    assert!(!label.state_flags_changed(&content, leading, &env, false, false));
    assert!(restyles(true, false) && !restyles(false, false));
    let shown = apply_styled_content(&content, leading, &env, false);
    assert_eq!(shown.markup, label.shown.markup);
}

#[test]
fn sizes_are_written_as_the_standard_library_does() {
    let mut bits: Vec<u32> = Vec::new();
    let mut seed: u32 = 99;
    for exponent in 127..=254u32 {
        for _ in 0..5 {
            seed = seed.wrapping_mul(1_664_525).wrapping_add(1_013_904_223);
            bits.push((exponent << 23) | (seed >> 9));
        }
    }
    for hundredth in 100..400u32 {
        bits.push((hundredth as f32 / 100.0 + 0.005).to_bits());
        bits.push((hundredth as f32 / 8.0).to_bits());
    }
    for value in [
        1.0f32, 1.125, 1.375, 1.625, 2.005, 12.345, 99.995, 0.5, -3.0, 0.0, f32::NAN, f32::INFINITY,
        f32::NEG_INFINITY,
    ] {
        bits.push(value.to_bits());
    }
    for bits in bits {
        let size = f32::from_bits(bits);
        let style = Style { font: font(size), ..plain() };
        let attrs = style_to_markup_attrs(&style, &None, true);
        let expected = format!(" size=\"{:.2}pt\" weight=\"400\"", size.max(1.0));
        assert_eq!(attrs, expected, "{size}");
    }
}

#[test]
fn every_style_shows_in_the_markup() {
    let style = Style {
        font: ResolvedFont {
            size: single(12.5),
            weight: FontWeight::SemiBold,
            family: Some("O'Neil & \"Co\" <Mono>".to_string()),
            design: FontDesign::Monospaced,
        },
        italic: true,
        underline: true,
        strikethrough: true,
        foreground: Some(color(1, 2, 255, 1.0)),
        background: Some(color(16, 0, 10, 0.999)),
    };
    let markup = styled_to_markup(&vec![chunk("a<b>&\"c'", style), chunk("", plain())], &None, true);
    assert_eq!(
        markup,
        "<span size=\"12.50pt\" weight=\"600\" \
         font_family=\"O&apos;Neil &amp; &quot;Co&quot; &lt;Mono&gt;\" style=\"italic\" \
         underline=\"single\" strikethrough=\"true\" foreground=\"#0102FF\" \
         background=\"#10000AFF\">a&lt;b&gt;&amp;\"c'</span>"
    );
    let mono = ResolvedFont { design: FontDesign::Monospaced, ..font(9.0) };
    let attrs = style_to_markup_attrs(&Style { font: mono, ..plain() }, &None, true);
    assert_eq!(attrs, " size=\"9.00pt\" weight=\"400\" font_family=\"monospace\"");
    let unnamed = ResolvedFont { family: Some(String::new()), ..font(9.0) };
    let attrs = style_to_markup_attrs(&Style { font: unnamed, ..plain() }, &None, true);
    assert_eq!(attrs, " size=\"9.00pt\" weight=\"400\"");
}

#[test]
fn escaping_keeps_texts_apart() {
    assert_eq!(escape_markup_text("a<b>&c"), "a&lt;b&gt;&amp;c");
    assert_eq!(escape_markup_text("\"'"), "\"'");
    assert_eq!(escape_markup_attr("a<b>&c\"'"), "a&lt;b&gt;&amp;c&quot;&apos;");
    assert_eq!(escape_markup_text(""), "");
    assert_ne!(escape_markup_text("&lt;"), escape_markup_text("<"));
    assert_eq!(escape_markup_text("größe ☃"), "größe ☃");
}

#[test]
fn opacity_is_written_as_the_machine_rounds_it() {
    for step in 0..=2000 {
        let alpha = step as f32 / 2000.0;
        let mut attrs = String::new();
        emit_color_attrs(&mut attrs, "foreground", &color(1, 2, 3, alpha));
        let expected = if alpha < 1.0 {
            format!(" foreground=\"#010203{:02X}\"", (alpha * 255.0).round() as u8)
        } else {
            " foreground=\"#010203\"".to_string()
        };
        assert_eq!(attrs, expected);
    }
    let mut attrs = String::from("x");
    emit_color_attrs(&mut attrs, "background", &color(1, 2, 3, -0.5));
    assert_eq!(attrs, "x background=\"#01020300\"");
    let mut attrs = String::new();
    emit_color_attrs(&mut attrs, "background", &color(1, 2, 3, f32::NAN));
    assert_eq!(attrs, " background=\"#010203\"");
}

#[test]
fn weights_and_placements() {
    let weights = [
        (FontWeight::Thin, 100),
        (FontWeight::UltraLight, 200),
        (FontWeight::Light, 300),
        (FontWeight::Normal, 400),
        (FontWeight::Medium, 500),
        (FontWeight::SemiBold, 600),
        (FontWeight::Bold, 700),
        (FontWeight::UltraBold, 800),
        (FontWeight::Black, 900),
    ];
    for (weight, value) in weights {
        assert_eq!(font_weight_to_pango_value(weight), value);
    }
    let leading = apply_paragraph_alignment(HorizontalAlignment::Leading);
    assert_eq!((leading.justify, leading.xalign), (Justification::Left, single(0.0)));
    let trailing = apply_paragraph_alignment(HorizontalAlignment::Trailing);
    assert_eq!((trailing.justify, trailing.xalign), (Justification::Right, single(1.0)));
    let center = apply_paragraph_alignment(HorizontalAlignment::Center);
    assert_eq!((center.justify, center.xalign), (Justification::Center, single(0.5)));
    assert_eq!(label_lines(3), 3);
    assert_eq!(label_lines(usize::MAX), i32::MAX);
}

#[test]
fn numbers_are_written_in_full() {
    for n in [0, 7, 10, 99, 100, -1, -10, i32::MAX, i32::MIN] {
        assert_eq!(decimal_text(n), n.to_string());
    }
    let mut text = String::from("n=");
    push_decimal(&mut text, u128::MAX);
    assert_eq!(text, format!("n={}", u128::MAX));
    for n in 0..=255u8 {
        let mut text = String::new();
        push_hex_byte(&mut text, n);
        assert_eq!(text, format!("{n:02X}"));
    }
}

#[test]
fn badges_show_a_dot_or_a_pill() {
    let dot = apply_badge(0, "rgba(1,2,3,1)");
    assert_eq!((dot.text.as_str(), dot.size_request), ("", DOT_SIZE));
    assert_eq!(
        dot.declarations,
        "border-radius: 999px; padding: 0; background-color: rgba(1,2,3,1);"
    );
    let pill = apply_badge(-12, "red");
    assert_eq!((pill.text.as_str(), pill.size_request), ("-12", -1));
    assert_eq!(
        badge_declarations(-12, "red"),
        format!(
            "border-radius: 999px; padding: 0 5px; min-width: {PILL_SIZE}px; min-height: {PILL_SIZE}px; font-size: 11px; font-weight: bold; color: #ffffff; background-color: red;"
        )
    );
    assert_eq!(pill.declarations, badge_declarations(-12, "red"));
    let margins = badge_margins();
    assert_eq!((margins.end, margins.top), (-DOT_SIZE / 2, -DOT_SIZE / 2));
}

#[test]
fn colors_are_written_in_hexadecimal() {
    assert_eq!(resolved_color_to_hex(&color(0, 128, 255, 0.5)), "#0080FF");
    let mut attrs = String::new();
    emit_color_attrs(&mut attrs, "foreground", &color(0, 128, 255, 1.0));
    emit_color_attrs(&mut attrs, "background", &color(0, 128, 255, 0.5));
    assert_eq!(attrs, " foreground=\"#0080FF\" background=\"#0080FF80\"");
}

#[test]
fn markup_gives_the_text_back() {
    let mut style = plain();
    style.font.family = Some(String::from("a \"quoted\" <family> & more"));
    style.italic = true;
    style.background = Some(color(1, 2, 3, 0.5));
    let content =
        vec![chunk("a < b & \"c\"", plain()), chunk("", plain()), chunk("&lt; 'd' > e", style)];
    let env = Some(color(9, 8, 7, 1.0));
    let markup = styled_to_markup(&content, &env, true);
    assert_eq!(markup.matches("<span ").count(), 2);
    assert_eq!(markup.matches("</span>").count(), 2);

    // Drops the tags, then decodes the entities.
    let mut text = String::new();
    let (mut tag, mut quoted) = (false, false);
    for c in markup.chars() {
        match c {
            '<' if !tag => tag = true,
            '"' if tag => quoted = !quoted,
            '>' if tag && !quoted => tag = false,
            _ if !tag => text.push(c),
            _ => {}
        }
    }
    assert!(!tag);
    let text = text
        .replace("&lt;", "<")
        .replace("&gt;", ">")
        .replace("&quot;", "\"")
        .replace("&apos;", "'")
        .replace("&amp;", "&");
    assert_eq!(text, "a < b & \"c\"&lt; 'd' > e");
}

#[test]
fn updates_change_the_label_that_is_there() {
    let mut tree = WidgetTree::new();
    let env = Some(color(255, 0, 0, 1.0));
    let first = vec![chunk("first", plain())];
    let second = vec![chunk("second", plain())];
    let leading = HorizontalAlignment::Leading;
    let trailing = HorizontalAlignment::Trailing;
    let mut label = TextLabel::render(&mut tree, &first, leading, &env, false, Some(2));
    assert_eq!(tree.widgets.len(), 1);
    assert!(matches!(
        tree.widgets[label.widget].kind,
        WidgetKind::Label { wrap: true, ellipsize: true }
    ));
    assert_eq!(label.lines, Some(2));
    assert_eq!(label.shown.markup, styled_to_markup(&first, &env, true));

    let widget = label.widget;
    label.restyle(&second, leading, &env, false);
    assert_eq!(label.shown.markup, styled_to_markup(&second, &env, true));
    label.realign(trailing);
    assert_eq!(label.shown.markup, styled_to_markup(&second, &env, true));
    assert_eq!(label.shown.placement, apply_paragraph_alignment(trailing));
    assert!(!label.state_flags_changed(&first, leading, &env, false, false));
    assert_eq!(label.shown.markup, styled_to_markup(&second, &env, true));
    assert!(label.state_flags_changed(&second, trailing, &env, true, false));
    assert_eq!(label.shown.markup, styled_to_markup(&second, &None, true));
    assert_eq!((label.widget, label.lines, tree.widgets.len()), (widget, Some(2), 1));

    let unlimited = TextLabel::render(&mut tree, &first, leading, &env, false, None);
    assert_eq!((unlimited.widget, unlimited.lines), (1, None));
}
