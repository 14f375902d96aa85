//! Styled text as the markup of a label.

use crate::geometry::HorizontalAlignment;
use crate::rounding::{lemma_round_half_even_exact, lemma_round_half_even_scale, nearest, power, round_half_even};
use crate::single::{Single, HALF, ONE, ZERO};
use crate::text::{decimal, digit, hex_byte, push_decimal, push_hex_byte};
use vstd::arithmetic::div_mod::*;
use vstd::arithmetic::power2::*;
use vstd::prelude::*;

verus! {

/// What a character stands as in the text of a markup.
pub open spec fn text_entity(c: char) -> Seq<char> {
    if c == '&' {
        seq!['&', 'a', 'm', 'p', ';']
    } else if c == '<' {
        seq!['&', 'l', 't', ';']
    } else if c == '>' {
        seq!['&', 'g', 't', ';']
    } else {
        seq![c]
    }
}

/// What a character stands as in an attribute of a markup.
pub open spec fn attr_entity(c: char) -> Seq<char> {
    if c == '"' {
        seq!['&', 'q', 'u', 'o', 't', ';']
    } else if c == '\'' {
        seq!['&', 'a', 'p', 'o', 's', ';']
    } else {
        text_entity(c)
    }
}

/// A text with its special characters escaped.
pub open spec fn escaped_text(text: Seq<char>) -> Seq<char>
    decreases text.len(),
{
    if text.len() == 0 {
        seq![]
    } else {
        text_entity(text[0]) + escaped_text(text.drop_first())
    }
}

/// An attribute's value with its special characters escaped.
pub open spec fn escaped_attr(value: Seq<char>) -> Seq<char>
    decreases value.len(),
{
    if value.len() == 0 {
        seq![]
    } else {
        attr_entity(value[0]) + escaped_attr(value.drop_first())
    }
}

proof fn lemma_escaped_text_push(text: Seq<char>, c: char)
    ensures
        escaped_text(text.push(c)) == escaped_text(text) + text_entity(c),
    decreases text.len(),
{
    if text.len() == 0 {
        assert(text.push(c).drop_first() =~= seq![]);
        assert(escaped_text(seq![]) =~= seq![]);
        assert(escaped_text(text.push(c)) =~= escaped_text(text) + text_entity(c));
    } else {
        assert(text.push(c).drop_first() =~= text.drop_first().push(c));
        lemma_escaped_text_push(text.drop_first(), c);
        assert(escaped_text(text.push(c)) =~= escaped_text(text) + text_entity(c));
    }
}

proof fn lemma_escaped_attr_push(value: Seq<char>, c: char)
    ensures
        escaped_attr(value.push(c)) == escaped_attr(value) + attr_entity(c),
    decreases value.len(),
{
    if value.len() == 0 {
        assert(value.push(c).drop_first() =~= seq![]);
        assert(escaped_attr(seq![]) =~= seq![]);
        assert(escaped_attr(value.push(c)) =~= escaped_attr(value) + attr_entity(c));
    } else {
        assert(value.push(c).drop_first() =~= value.drop_first().push(c));
        lemma_escaped_attr_push(value.drop_first(), c);
        assert(escaped_attr(value.push(c)) =~= escaped_attr(value) + attr_entity(c));
    }
}

/// A text with its special characters escaped.
pub fn escape_markup_text(text: &str) -> (r: String)
    ensures
        r@ == escaped_text(text@),
{
    let mut escaped: String = String::new();
    assert(text@.take(0) =~= seq![]);
    assert(escaped@ =~= escaped_text(text@.take(0)));
    for ch in it: text.chars()
        invariant
            it.seq() == text@,
            escaped@ == escaped_text(text@.take(it.index() as int)),
    {
        proof {
            let i = it.index() as int;
            lemma_escaped_text_push(text@.take(i), ch);
            assert(text@.take(i + 1) =~= text@.take(i).push(ch));
            reveal_strlit("&amp;");
            reveal_strlit("&lt;");
            reveal_strlit("&gt;");
            assert("&amp;"@ =~= text_entity('&'));
            assert("&lt;"@ =~= text_entity('<'));
            assert("&gt;"@ =~= text_entity('>'));
        }
        let ghost before = escaped@;
        match ch {
            '&' => escaped.append("&amp;"),
            '<' => escaped.append("&lt;"),
            '>' => escaped.append("&gt;"),
            _ => {
                escaped.push(ch);
                assert(before.push(ch) =~= before + text_entity(ch));
            },
        }
    }
    assert(text@.take(text@.len() as int) =~= text@);
    escaped
}

/// An attribute's value with its special characters escaped.
pub fn escape_markup_attr(value: &str) -> (r: String)
    ensures
        r@ == escaped_attr(value@),
{
    let mut escaped: String = String::new();
    assert(value@.take(0) =~= seq![]);
    assert(escaped@ =~= escaped_attr(value@.take(0)));
    for ch in it: value.chars()
        invariant
            it.seq() == value@,
            escaped@ == escaped_attr(value@.take(it.index() as int)),
    {
        proof {
            let i = it.index() as int;
            lemma_escaped_attr_push(value@.take(i), ch);
            assert(value@.take(i + 1) =~= value@.take(i).push(ch));
            reveal_strlit("&amp;");
            reveal_strlit("&lt;");
            reveal_strlit("&gt;");
            reveal_strlit("&quot;");
            reveal_strlit("&apos;");
            assert("&amp;"@ =~= attr_entity('&'));
            assert("&lt;"@ =~= attr_entity('<'));
            assert("&gt;"@ =~= attr_entity('>'));
            assert("&quot;"@ =~= attr_entity('"'));
            assert("&apos;"@ =~= attr_entity('\''));
        }
        let ghost before = escaped@;
        match ch {
            '&' => escaped.append("&amp;"),
            '<' => escaped.append("&lt;"),
            '>' => escaped.append("&gt;"),
            '"' => escaped.append("&quot;"),
            '\'' => escaped.append("&apos;"),
            _ => {
                escaped.push(ch);
                assert(before.push(ch) =~= before + attr_entity(ch));
            },
        }
    }
    assert(value@.take(value@.len() as int) =~= value@);
    escaped
}

/// No escaped text opens or closes a tag.
pub proof fn lemma_escaped_text_is_inert(text: Seq<char>)
    ensures
        !escaped_text(text).contains('<'),
        !escaped_text(text).contains('>'),
    decreases text.len(),
{
    if text.len() > 0 {
        lemma_escaped_text_is_inert(text.drop_first());
        let head = text_entity(text[0]);
        let rest = escaped_text(text.drop_first());
        assert forall|i: int| 0 <= i < (head + rest).len() implies (#[trigger] (head + rest)[i])
            != '<' && (head + rest)[i] != '>' by {
            if i >= head.len() {
                assert((head + rest)[i] == rest[i - head.len()]);
                assert(rest.contains(rest[i - head.len()]));
            }
        }
    }
}

/// No escaped attribute opens or closes a tag, or ends the quotes around it.
pub proof fn lemma_escaped_attr_is_inert(value: Seq<char>)
    ensures
        !escaped_attr(value).contains('<'),
        !escaped_attr(value).contains('>'),
        !escaped_attr(value).contains('"'),
        !escaped_attr(value).contains('\''),
    decreases value.len(),
{
    if value.len() > 0 {
        lemma_escaped_attr_is_inert(value.drop_first());
        let head = attr_entity(value[0]);
        let rest = escaped_attr(value.drop_first());
        assert forall|i: int| 0 <= i < (head + rest).len() implies (#[trigger] (head + rest)[i])
            != '<' && (head + rest)[i] != '>' && (head + rest)[i] != '"' && (head + rest)[i]
            != '\'' by {
            if i >= head.len() {
                assert((head + rest)[i] == rest[i - head.len()]);
                assert(rest.contains(rest[i - head.len()]));
            }
        }
    }
}

/// Two characters whose entities begin alike are the same.
proof fn lemma_entities_differ(a: char, b: char, x: Seq<char>, y: Seq<char>)
    requires
        attr_entity(a) + x == attr_entity(b) + y,
    ensures
        a == b,
        x == y,
{
    let p = attr_entity(a) + x;
    let q = attr_entity(b) + y;
    assert(p[0] == q[0]);
    assert(attr_entity(a)[0] == p[0]);
    assert(attr_entity(b)[0] == q[0]);
    if a != b {
        assert(p[0] == '&');
        assert(p[1] == q[1]);
        assert(attr_entity(a)[1] == p[1]);
        assert(attr_entity(b)[1] == q[1]);
        assert(p[2] == q[2]);
        assert(attr_entity(a)[2] == p[2]);
        assert(attr_entity(b)[2] == q[2]);
    }
    assert(x =~= p.skip(attr_entity(a).len() as int));
    assert(y =~= q.skip(attr_entity(b).len() as int));
}

/// Escaping loses nothing: two texts that escape alike are the same.
pub proof fn lemma_escaping_text_is_faithful(a: Seq<char>, b: Seq<char>)
    requires
        escaped_text(a) == escaped_text(b),
    ensures
        a == b,
    decreases a.len(),
{
    if a.len() > 0 && b.len() > 0 {
        let x = escaped_text(a.drop_first());
        let y = escaped_text(b.drop_first());
        lemma_text_entities_differ(a[0], b[0], x, y);
        lemma_escaping_text_is_faithful(a.drop_first(), b.drop_first());
        assert(a =~= seq![a[0]] + a.drop_first());
        assert(b =~= seq![b[0]] + b.drop_first());
    } else {
        if a.len() > 0 {
            assert(escaped_text(a).len() >= text_entity(a[0]).len());
        }
        if b.len() > 0 {
            assert(escaped_text(b).len() >= text_entity(b[0]).len());
        }
        assert(a =~= b);
    }
}

proof fn lemma_text_entities_differ(a: char, b: char, x: Seq<char>, y: Seq<char>)
    requires
        text_entity(a) + x == text_entity(b) + y,
    ensures
        a == b,
        x == y,
{
    let p = text_entity(a) + x;
    let q = text_entity(b) + y;
    assert(p[0] == q[0]);
    assert(text_entity(a)[0] == p[0]);
    assert(text_entity(b)[0] == q[0]);
    if a != b {
        assert(p[1] == q[1]);
        assert(text_entity(a)[1] == p[1]);
        assert(text_entity(b)[1] == q[1]);
    }
    assert(x =~= p.skip(text_entity(a).len() as int));
    assert(y =~= q.skip(text_entity(b).len() as int));
}

/// Escaping loses nothing: two values that escape alike are the same.
pub proof fn lemma_escaping_attrs_is_faithful(a: Seq<char>, b: Seq<char>)
    requires
        escaped_attr(a) == escaped_attr(b),
    ensures
        a == b,
    decreases a.len(),
{
    if a.len() > 0 && b.len() > 0 {
        let x = escaped_attr(a.drop_first());
        let y = escaped_attr(b.drop_first());
        lemma_entities_differ(a[0], b[0], x, y);
        lemma_escaping_attrs_is_faithful(a.drop_first(), b.drop_first());
        assert(a =~= seq![a[0]] + a.drop_first());
        assert(b =~= seq![b[0]] + b.drop_first());
    } else {
        if a.len() > 0 {
            assert(escaped_attr(a).len() >= attr_entity(a[0]).len());
        }
        if b.len() > 0 {
            assert(escaped_attr(b).len() >= attr_entity(b[0]).len());
        }
        assert(a =~= b);
    }
}

/// The weights of a font.
#[derive(Clone, Copy, Debug, PartialEq, Eq, Structural)]
pub enum FontWeight {
    Thin,
    UltraLight,
    Light,
    Normal,
    Medium,
    SemiBold,
    Bold,
    UltraBold,
    Black,
}

/// The design of a font without a family.
#[derive(Clone, Copy, Debug, PartialEq, Eq, Structural)]
pub enum FontDesign {
    Default,
    Monospaced,
}

/// A font whose slots were resolved.
#[derive(Debug)]
pub struct ResolvedFont {
    pub size: Single,
    pub weight: FontWeight,
    pub family: Option<String>,
    pub design: FontDesign,
}

/// A color whose slots were resolved.
#[derive(Debug)]
pub struct ResolvedColor {
    pub red: u8,
    pub green: u8,
    pub blue: u8,
    /// The opacity, from zero to one.
    pub alpha: Single,
}

/// The style of a chunk of text.
#[derive(Debug)]
pub struct Style {
    pub font: ResolvedFont,
    pub italic: bool,
    pub underline: bool,
    pub strikethrough: bool,
    pub foreground: Option<ResolvedColor>,
    pub background: Option<ResolvedColor>,
}

/// A chunk of text in one style.
#[derive(Debug)]
pub struct Chunk {
    pub text: String,
    pub style: Style,
}

/// A weight as the number that markup knows it by.
pub open spec fn pango_weight(weight: FontWeight) -> u16 {
    match weight {
        FontWeight::Thin => 100,
        FontWeight::UltraLight => 200,
        FontWeight::Light => 300,
        FontWeight::Normal => 400,
        FontWeight::Medium => 500,
        FontWeight::SemiBold => 600,
        FontWeight::Bold => 700,
        FontWeight::UltraBold => 800,
        FontWeight::Black => 900,
    }
}

/// A weight as the number that markup knows it by.
pub fn font_weight_to_pango_value(weight: FontWeight) -> (r: u16)
    ensures
        r == pango_weight(weight),
{
    match weight {
        FontWeight::Thin => 100,
        FontWeight::UltraLight => 200,
        FontWeight::Light => 300,
        FontWeight::Normal => 400,
        FontWeight::Medium => 500,
        FontWeight::SemiBold => 600,
        FontWeight::Bold => 700,
        FontWeight::UltraBold => 800,
        FontWeight::Black => 900,
    }
}

/// A number of hundredths in decimal notation with two places.
pub open spec fn places(hundredths: nat) -> Seq<char> {
    decimal(hundredths / 100) + "."@ + seq![
        digit(hundredths / 10 % 10),
        digit(hundredths % 10),
    ]
}

/// A number that is not below one in decimal notation, rounded to two places.
pub open spec fn two_places(value: Single) -> Seq<char> {
    if value.infinite() {
        "inf"@
    } else {
        places(round_half_even(value.units() * 100, pow2(149)))
    }
}

/// The size of a font in points, never less than one.
pub open spec fn size_text(size: Single) -> Seq<char> {
    two_places(Single::larger(size, Single { bits: ONE }))
}

/// The opacity of a color as a byte.
pub open spec fn alpha_byte(alpha: Single) -> u8 {
    let scaled = Single::product(alpha, Single::of_int(255));
    if scaled.nan() || scaled.rounded() < 0 {
        0
    } else if scaled.rounded() > 255 {
        255
    } else {
        scaled.rounded() as u8
    }
}

/// The notation of a color without its opacity.
pub open spec fn hex_notation(color: ResolvedColor) -> Seq<char> {
    "#"@ + hex_byte(color.red) + hex_byte(color.green) + hex_byte(color.blue)
}

/// The notation of a color without its opacity.
pub fn resolved_color_to_hex(color: &ResolvedColor) -> (r: String)
    ensures
        r@ == hex_notation(*color),
{
    let mut notation: String = String::new();
    notation.append("#");
    assert(notation@ =~= "#"@);
    push_hex_byte(&mut notation, color.red);
    push_hex_byte(&mut notation, color.green);
    push_hex_byte(&mut notation, color.blue);
    notation
}

/// The attributes `attrs` with a color behind them. A color that is not opaque
/// carries its opacity as a fourth byte.
pub open spec fn with_color(attrs: Seq<char>, name: Seq<char>, color: ResolvedColor) -> Seq<char> {
    if Single::less(color.alpha, Single { bits: ONE }) {
        attrs + " "@ + name + "=\"#"@ + hex_byte(color.red) + hex_byte(color.green) + hex_byte(
            color.blue,
        ) + hex_byte(alpha_byte(color.alpha)) + "\""@
    } else {
        attrs + " "@ + name + "=\""@ + hex_notation(color) + "\""@
    }
}

/// The attributes `attrs` with a font family behind them: the family given,
/// else the generic one of the design, if it has one.
pub open spec fn with_family(attrs: Seq<char>, font: ResolvedFont) -> Seq<char> {
    match font.family {
        Some(family) if family@.len() > 0 => attrs + " font_family=\""@ + escaped_attr(family@)
            + "\""@,
        _ => match font.design {
            FontDesign::Default => attrs,
            FontDesign::Monospaced => attrs + " font_family=\"monospace\""@,
        },
    }
}

/// The color of a chunk's text: the style's own, else the environment's, which
/// yields to the toolkit's disabled color while the label is insensitive.
pub open spec fn effective_foreground(
    style: Style,
    environment: Option<ResolvedColor>,
    sensitive: bool,
) -> Option<ResolvedColor> {
    match style.foreground {
        Some(color) => Some(color),
        None => if sensitive {
            environment
        } else {
            None
        },
    }
}

/// The attributes of a chunk of text.
pub open spec fn markup_attrs(
    style: Style,
    environment: Option<ResolvedColor>,
    sensitive: bool,
) -> Seq<char> {
    let sized = " size=\""@ + size_text(style.font.size) + "pt\""@;
    let weighted = sized + " weight=\""@ + decimal(pango_weight(style.font.weight) as nat) + "\""@;
    let named = with_family(weighted, style.font);
    let slanted = if style.italic {
        named + " style=\"italic\""@
    } else {
        named
    };
    let underlined = if style.underline {
        slanted + " underline=\"single\""@
    } else {
        slanted
    };
    let struck = if style.strikethrough {
        underlined + " strikethrough=\"true\""@
    } else {
        underlined
    };
    let colored = match effective_foreground(style, environment, sensitive) {
        Some(color) => with_color(struck, "foreground"@, color),
        None => struck,
    };
    match style.background {
        Some(color) => with_color(colored, "background"@, color),
        None => colored,
    }
}

/// The markup of chunks of text. Empty chunks leave nothing.
pub open spec fn markup(
    chunks: Seq<Chunk>,
    environment: Option<ResolvedColor>,
    sensitive: bool,
) -> Seq<char>
    decreases chunks.len(),
{
    if chunks.len() == 0 {
        seq![]
    } else {
        let before = markup(chunks.drop_last(), environment, sensitive);
        let chunk = chunks.last();
        if chunk.text@.len() == 0 {
            before
        } else {
            before + "<span"@ + markup_attrs(chunk.style, environment, sensitive) + ">"@
                + escaped_text(chunk.text@) + "</span>"@
        }
    }
}

fn push_two_digits(text: &mut String, n: u128)
    requires
        n < 100,
    ensures
        final(text)@ == old(text)@ + seq![digit((n / 10 % 10) as nat), digit((n % 10) as nat)],
{
    let ghost before = text@;
    if n >= 10 {
        push_decimal(text, n / 10);
        assert(decimal((n / 10) as nat) =~= seq![digit((n / 10) as nat)]);
    } else {
        push_decimal(text, 0);
        assert(decimal(0) =~= seq![digit(0)]);
    }
    push_decimal(text, n % 10);
    assert(decimal((n % 10) as nat) =~= seq![digit((n % 10) as nat)]);
    assert(text@ =~= before + seq![digit((n / 10 % 10) as nat), digit((n % 10) as nat)]);
}

/// Appends a number that is not below one, rounded to two places.
#[verifier::rlimit(60)]
#[verifier::spinoff_prover]
fn push_two_places(text: &mut String, value: Single)
    requires
        !value.nan(),
        value.units() >= pow2(149),
    ensures
        final(text)@ == old(text)@ + two_places(value),
{
    if value.is_infinite() {
        text.append("inf");
        return;
    }
    let (m, e) = value.parts();
    let ghost h = round_half_even(value.units() * 100, pow2(149));
    let ghost before = text@;
    proof {
        lemma2_to64();
        lemma2_to64_rest();
        lemma_pow2_pos(149);
    }
    if e >= 149 {
        let k: u32 = e - 149;
        proof {
            lemma_pow2_adds(k as nat, 149);
            lemma_pow2_adds(24, k as nat);
            lemma_pow2_adds(64, 64);
            if 24 + k < 128 {
                lemma_pow2_strictly_increases((24 + k) as nat, 128);
            }
            assert(m * pow2(k as nat) < pow2(24) * pow2(k as nat)) by (nonlinear_arith)
                requires
                    m < pow2(24),
                    pow2(k as nat) > 0,
            ;
            let whole = m as nat * pow2(k as nat);
            assert(value.units() * 100 == (whole * 100) * pow2(149)) by (nonlinear_arith)
                requires
                    value.units() == m * pow2(e as nat),
                    pow2(e as nat) == pow2(k as nat) * pow2(149),
                    whole == m as nat * pow2(k as nat),
            ;
            lemma_round_half_even_exact(whole * 100, pow2(149));
            assert(h == whole * 100);
        }
        let whole: u128 = m * power(k);
        push_decimal(text, whole);
        text.append(".");
        push_two_digits(text, 0);
        assert(text@ =~= before + two_places(value));
        return;
    }
    let s: u32 = 149 - e;
    proof {
        lemma_pow2_adds(s as nat, e as nat);
        lemma_pow2_pos(e as nat);
        lemma_pow2_pos(s as nat);
        lemma_pow2_strictly_increases(32, 126);
        let n = m as nat * 100;
        assert(value.units() * 100 == n * pow2(e as nat)) by (nonlinear_arith)
            requires
                value.units() == m * pow2(e as nat),
                n == m as nat * 100,
        ;
        lemma_round_half_even_scale(n, pow2(s as nat), pow2(e as nat));
    }
    let hundredths: u128 = nearest(m * 100, s);
    push_decimal(text, hundredths / 100);
    text.append(".");
    push_two_digits(text, hundredths % 100);
    assert(text@ =~= before + two_places(value));
}

/// Appends a color behind the attributes that are there.
pub fn emit_color_attrs(attrs: &mut String, name: &str, color: &ResolvedColor)
    ensures
        final(attrs)@ == with_color(old(attrs)@, name@, *color),
{
    attrs.append(" ");
    attrs.append(name);
    if color.alpha.is_less(Single { bits: ONE }) {
        let scaled: i32 = color.alpha.times(Single::from_i32(255)).round_i32();
        let alpha: u8 = if scaled < 0 {
            0
        } else if scaled > 255 {
            255
        } else {
            scaled as u8
        };
        attrs.append("=\"#");
        push_hex_byte(attrs, color.red);
        push_hex_byte(attrs, color.green);
        push_hex_byte(attrs, color.blue);
        push_hex_byte(attrs, alpha);
        attrs.append("\"");
    } else {
        attrs.append("=\"");
        attrs.append(resolved_color_to_hex(color).as_str());
        attrs.append("\"");
    }
}

fn emit_family(attrs: &mut String, font: &ResolvedFont)
    ensures
        final(attrs)@ == with_family(old(attrs)@, *font),
{
    if let Some(family) = &font.family {
        if !family.as_str().is_empty() {
            attrs.append(" font_family=\"");
            attrs.append(escape_markup_attr(family.as_str()).as_str());
            attrs.append("\"");
            return;
        }
    }
    match font.design {
        FontDesign::Default => {},
        FontDesign::Monospaced => {
            attrs.append(" font_family=\"monospace\"");
        },
    }
}

/// The attributes of a chunk of text. `environment` is the color that the
/// environment gives text, if it does.
pub fn style_to_markup_attrs(
    style: &Style,
    environment: &Option<ResolvedColor>,
    sensitive: bool,
) -> (r: String)
    ensures
        r@ == markup_attrs(*style, *environment, sensitive),
{
    let mut attrs: String = String::new();
    let font_size: Single = style.font.size.max(Single { bits: ONE });
    proof {
        lemma_at_least_one(style.font.size);
    }
    attrs.append(" size=\"");
    assert(attrs@ =~= " size=\""@);
    push_two_places(&mut attrs, font_size);
    attrs.append("pt\"");
    attrs.append(" weight=\"");
    push_decimal(&mut attrs, font_weight_to_pango_value(style.font.weight) as u128);
    attrs.append("\"");
    emit_family(&mut attrs, &style.font);
    if style.italic {
        attrs.append(" style=\"italic\"");
    }
    if style.underline {
        attrs.append(" underline=\"single\"");
    }
    if style.strikethrough {
        attrs.append(" strikethrough=\"true\"");
    }
    match &style.foreground {
        Some(color) => emit_color_attrs(&mut attrs, "foreground", color),
        None => {
            if sensitive {
                if let Some(color) = environment {
                    emit_color_attrs(&mut attrs, "foreground", color);
                }
            }
        },
    }
    if let Some(color) = &style.background {
        emit_color_attrs(&mut attrs, "background", color);
    }
    attrs
}

/// A number brought up to one is a number, and at least one.
proof fn lemma_at_least_one(size: Single)
    ensures
        !Single::larger(size, Single { bits: ONE }).nan(),
        Single::larger(size, Single { bits: ONE }).units() >= pow2(149),
{
    let one = Single { bits: ONE };
    assert(one.units() == pow2(149)) by {
        lemma2_to64();
        lemma_pow2_adds(23, 126);
    }
}

/// The markup of chunks of text.
pub fn styled_to_markup(
    content: &Vec<Chunk>,
    environment: &Option<ResolvedColor>,
    sensitive: bool,
) -> (r: String)
    ensures
        r@ == markup(content@, *environment, sensitive),
{
    let mut text: String = String::new();
    let mut i: usize = 0;
    assert(content@.take(0) =~= seq![]);
    assert(text@ =~= markup(content@.take(0), *environment, sensitive));
    while i < content.len()
        invariant
            i <= content.len(),
            text@ == markup(content@.take(i as int), *environment, sensitive),
        decreases content.len() - i,
    {
        let chunk: &Chunk = &content[i];
        proof {
            assert(content@.take(i + 1).drop_last() =~= content@.take(i as int));
            assert(content@.take(i + 1).last() == *chunk);
            if chunk.text@.len() > 0 {
                assert(escaped_text(chunk.text@).len() > 0);
            }
        }
        let escaped: String = escape_markup_text(chunk.text.as_str());
        i = i + 1;
        if escaped.as_str().is_empty() {
            continue;
        }
        let attrs: String = style_to_markup_attrs(&chunk.style, environment, sensitive);
        text.append("<span");
        text.append(attrs.as_str());
        text.append(">");
        text.append(escaped.as_str());
        text.append("</span>");
    }
    assert(content@.take(i as int) =~= content@);
    text
}

/// A color that a chunk states itself counts whatever the environment says, and
/// whether or not the label is disabled.
pub proof fn lemma_explicit_foreground_wins(
    style: Style,
    environment: Option<ResolvedColor>,
    other: Option<ResolvedColor>,
    sensitive: bool,
    otherwise: bool,
)
    requires
        style.foreground is Some,
    ensures
        markup_attrs(style, environment, sensitive) == markup_attrs(style, other, otherwise),
{
}

/// A disabled label shows nothing of the environment's color.
pub proof fn lemma_disabled_text_ignores_the_environment(
    chunks: Seq<Chunk>,
    environment: Option<ResolvedColor>,
)
    ensures
        markup(chunks, environment, false) == markup(chunks, None, false),
    decreases chunks.len(),
{
    if chunks.len() > 0 {
        lemma_disabled_text_ignores_the_environment(chunks.drop_last(), environment);
    }
}

/// How the lines of a paragraph are set.
#[derive(Clone, Copy, Debug, PartialEq, Eq, Structural)]
pub enum Justification {
    Left,
    Right,
    Center,
}

/// How a label places its text.
#[derive(Clone, Copy, Debug, PartialEq, Eq, Structural)]
pub struct ParagraphPlacement {
    pub justify: Justification,
    /// Where the text lies in spare width, from zero at the left to one.
    pub xalign: Single,
}

/// How a label places text of an alignment.
pub open spec fn paragraph_placement(alignment: HorizontalAlignment) -> ParagraphPlacement {
    match alignment {
        HorizontalAlignment::Leading => ParagraphPlacement {
            justify: Justification::Left,
            xalign: Single { bits: ZERO },
        },
        HorizontalAlignment::Trailing => ParagraphPlacement {
            justify: Justification::Right,
            xalign: Single { bits: ONE },
        },
        HorizontalAlignment::Center => ParagraphPlacement {
            justify: Justification::Center,
            xalign: Single { bits: HALF },
        },
    }
}

/// How a label places text of an alignment.
pub fn apply_paragraph_alignment(alignment: HorizontalAlignment) -> (r: ParagraphPlacement)
    ensures
        r == paragraph_placement(alignment),
{
    match alignment {
        HorizontalAlignment::Leading => ParagraphPlacement {
            justify: Justification::Left,
            xalign: Single { bits: ZERO },
        },
        HorizontalAlignment::Trailing => ParagraphPlacement {
            justify: Justification::Right,
            xalign: Single { bits: ONE },
        },
        HorizontalAlignment::Center => ParagraphPlacement {
            justify: Justification::Center,
            xalign: Single { bits: HALF },
        },
    }
}

/// The most lines a label shows for a limit.
pub fn label_lines(limit: usize) -> (r: i32)
    ensures
        r == if limit > i32::MAX {
            i32::MAX as int
        } else {
            limit as int
        },
{
    if limit > 0x7fff_ffff {
        i32::MAX
    } else {
        limit as i32
    }
}

/// What a label shows.
#[derive(Debug)]
pub struct LabelContent {
    pub markup: String,
    pub placement: ParagraphPlacement,
}

/// What a label shows for styled content. `insensitive` says whether the label
/// or anything around it is disabled.
pub fn apply_styled_content(
    content: &Vec<Chunk>,
    alignment: HorizontalAlignment,
    environment: &Option<ResolvedColor>,
    insensitive: bool,
) -> (r: LabelContent)
    ensures
        r.markup@ == markup(content@, *environment, !insensitive),
        r.placement == paragraph_placement(alignment),
{
    LabelContent {
        markup: styled_to_markup(content, environment, !insensitive),
        placement: apply_paragraph_alignment(alignment),
    }
}

/// Whether a label has to be styled anew after its state changed: only where
/// it became disabled, or is no longer.
pub fn restyles(insensitive: bool, was_insensitive: bool) -> (r: bool)
    ensures
        r == (insensitive != was_insensitive),
{
    insensitive != was_insensitive
}

/// The color of a chunk's text is its own where it states one; else it is the
/// environment's while the label is sensitive, and the toolkit's while it is
/// not.
pub proof fn lemma_text_color_sources(
    style: Style,
    environment: Option<ResolvedColor>,
    sensitive: bool,
)
    ensures
        style.foreground is Some ==> effective_foreground(style, environment, sensitive)
            == style.foreground,
        style.foreground is None && sensitive ==> effective_foreground(
            style,
            environment,
            sensitive,
        ) == environment,
        style.foreground is None && !sensitive ==> effective_foreground(
            style,
            environment,
            sensitive,
        ) is None,
{
}

/// Text lies at the edge that its lines are set to: at the left for a leading
/// alignment, at the right for a trailing one, and half way for a centered one.
pub proof fn lemma_text_lies_where_it_is_set(alignment: HorizontalAlignment)
    ensures
        ({
            let p = paragraph_placement(alignment);
            &&& p.justify is Left <==> alignment is Leading
            &&& p.justify is Right <==> alignment is Trailing
            &&& p.justify is Center <==> alignment is Center
            &&& alignment is Leading ==> p.xalign.value() == 0
            &&& alignment is Trailing ==> p.xalign.value() == pow2(149)
            &&& alignment is Center ==> 2 * p.xalign.value() == pow2(149)
        }),
{
    crate::single::lemma_constants();
}

/// What the characters that mean something to markup are written as. In the text
/// only those that begin or end a tag or an entity are, and every other
/// character stands for itself.
pub proof fn lemma_entities(c: char)
    ensures
        attr_entity('&') == "&amp;"@,
        attr_entity('<') == "&lt;"@,
        attr_entity('>') == "&gt;"@,
        attr_entity('"') == "&quot;"@,
        attr_entity('\'') == "&apos;"@,
        c == '&' || c == '<' || c == '>' ==> text_entity(c) == attr_entity(c),
        c != '&' && c != '<' && c != '>' ==> text_entity(c) == seq![c],
        c != '&' && c != '<' && c != '>' && c != '"' && c != '\'' ==> attr_entity(c) == seq![c],
{
    reveal_strlit("&amp;");
    reveal_strlit("&lt;");
    reveal_strlit("&gt;");
    reveal_strlit("&quot;");
    reveal_strlit("&apos;");
    assert("&amp;"@ =~= attr_entity('&'));
    assert("&lt;"@ =~= attr_entity('<'));
    assert("&gt;"@ =~= attr_entity('>'));
    assert("&quot;"@ =~= attr_entity('"'));
    assert("&apos;"@ =~= attr_entity('\''));
}

} // verus!
