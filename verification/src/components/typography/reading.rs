//! Reading markup back: what a label shows of the markup it is given.

use crate::components::typography::text::{
    alpha_byte, attr_entity, effective_foreground, escaped_attr, escaped_text,
    hex_notation, lemma_escaped_attr_is_inert, markup, markup_attrs, pango_weight, places, size_text, text_entity,
    with_color, with_family, Chunk, FontDesign, ResolvedColor, ResolvedFont, Style,
};
use crate::rounding::round_half_even;
use crate::single::{Single, ONE};
use crate::text::{decimal, digit, hex_byte};
use vstd::arithmetic::power2::pow2;
use vstd::prelude::*;

verus! {

/// What is left of `m` behind the tag that it begins inside of; nothing where
/// the tag does not end. A `>` in quotes ends no tag, and a `<` stands in none.
pub open spec fn after_tag(m: Seq<char>, quoted: bool) -> Option<Seq<char>>
    decreases m.len(),
{
    if m.len() == 0 || m[0] == '<' {
        None
    } else if m[0] == '>' && !quoted {
        Some(m.drop_first())
    } else if m[0] == '"' {
        after_tag(m.drop_first(), !quoted)
    } else {
        after_tag(m.drop_first(), quoted)
    }
}

/// What is left behind a tag is shorter.
pub proof fn lemma_after_tag_is_shorter(m: Seq<char>, quoted: bool)
    ensures
        after_tag(m, quoted) matches Some(rest) ==> rest.len() < m.len(),
    decreases m.len(),
{
    if m.len() > 0 {
        lemma_after_tag_is_shorter(m.drop_first(), quoted);
        lemma_after_tag_is_shorter(m.drop_first(), !quoted);
    }
}

/// What begins the tag of a span.
pub open spec fn span_name() -> Seq<char> {
    seq!['<', 's', 'p', 'a', 'n']
}

/// The tag that closes a span.
pub open spec fn span_end() -> Seq<char> {
    seq!['<', '/', 's', 'p', 'a', 'n', '>']
}

/// Whether `m` begins with `s`.
pub open spec fn begins(m: Seq<char>, s: Seq<char>) -> bool {
    m.len() >= s.len() && m.take(s.len() as int) == s
}

/// The character whose entity `m` begins with.
pub open spec fn entity_at(m: Seq<char>) -> Option<char> {
    if begins(m, attr_entity('&')) {
        Some('&')
    } else if begins(m, attr_entity('<')) {
        Some('<')
    } else if begins(m, attr_entity('>')) {
        Some('>')
    } else if begins(m, attr_entity('"')) {
        Some('"')
    } else if begins(m, attr_entity('\'')) {
        Some('\'')
    } else {
        None
    }
}

/// `text` in front of what was read behind it.
pub open spec fn preceded(text: Seq<char>, rest: Option<Seq<char>>) -> Option<Seq<char>> {
    match rest {
        Some(read) => Some(text + read),
        None => None,
    }
}

/// The text that the markup `m` shows inside of `depth` open spans: its tags
/// dropped and its entities decoded. Nothing where `m` is no markup: where a
/// tag is not one of a span or does not end, a span is closed that was not
/// opened or left open, or an entity is unknown.
pub open spec fn shown(m: Seq<char>, depth: nat) -> Option<Seq<char>>
    decreases m.len(),
{
    if m.len() == 0 {
        if depth == 0 {
            Some(seq![])
        } else {
            None
        }
    } else if begins(m, span_end()) {
        if depth == 0 {
            None
        } else {
            shown(m.skip(span_end().len() as int), (depth - 1) as nat)
        }
    } else if begins(m, span_name().push(' ')) || begins(m, span_name().push('>')) {
        proof {
            lemma_after_tag_is_shorter(m.skip(span_name().len() as int), false);
        }
        match after_tag(m.skip(span_name().len() as int), false) {
            Some(rest) => shown(rest, depth + 1),
            None => None,
        }
    } else if m[0] == '<' {
        None
    } else if m[0] == '&' {
        match entity_at(m) {
            Some(c) => preceded(seq![c], shown(m.skip(attr_entity(c).len() as int), depth)),
            None => None,
        }
    } else {
        preceded(seq![m[0]], shown(m.drop_first(), depth))
    }
}

/// The text of chunks, one behind the other.
pub open spec fn plain_text(chunks: Seq<Chunk>) -> Seq<char>
    decreases chunks.len(),
{
    if chunks.len() == 0 {
        seq![]
    } else {
        plain_text(chunks.drop_last()) + chunks.last().text@
    }
}

/// The quotation that `a` ends in if it begins in `quoted`; nothing where a tag
/// ends or begins in it.
pub open spec fn quotation(a: Seq<char>, quoted: bool) -> Option<bool>
    decreases a.len(),
{
    if a.len() == 0 {
        Some(quoted)
    } else if a[0] == '<' || (a[0] == '>' && !quoted) {
        None
    } else if a[0] == '"' {
        quotation(a.drop_first(), !quoted)
    } else {
        quotation(a.drop_first(), quoted)
    }
}

/// Whether nothing in `a` begins or ends a tag or a quotation.
pub open spec fn quiet(a: Seq<char>) -> bool {
    forall|i: int| 0 <= i < a.len() ==> (#[trigger] a[i]) != '<' && a[i] != '>' && a[i] != '"'
}

proof fn lemma_quotation_joins(a: Seq<char>, b: Seq<char>, quoted: bool)
    requires
        quotation(a, quoted) is Some,
    ensures
        quotation(a + b, quoted) == quotation(b, quotation(a, quoted)->0),
    decreases a.len(),
{
    if a.len() == 0 {
        assert(a + b =~= b);
    } else {
        assert((a + b).drop_first() =~= a.drop_first() + b);
        if a[0] == '"' {
            lemma_quotation_joins(a.drop_first(), b, !quoted);
        } else {
            lemma_quotation_joins(a.drop_first(), b, quoted);
        }
    }
}

proof fn lemma_quiet_changes_nothing(a: Seq<char>, quoted: bool)
    requires
        quiet(a),
    ensures
        quotation(a, quoted) == Some(quoted),
    decreases a.len(),
{
    if a.len() > 0 {
        assert forall|i: int| 0 <= i < a.drop_first().len() implies (#[trigger] a.drop_first()[i])
            != '<' && a.drop_first()[i] != '>' && a.drop_first()[i] != '"' by {
            assert(a.drop_first()[i] == a[i + 1]);
        }
        lemma_quiet_changes_nothing(a.drop_first(), quoted);
    }
}

/// A value in quotes without any in it.
proof fn lemma_quoted_value(a: Seq<char>)
    requires
        !a.contains('"'),
        !a.contains('<'),
    ensures
        quotation(a, true) == Some(true),
    decreases a.len(),
{
    if a.len() > 0 {
        assert(a.contains(a[0]));
        assert forall|c: char| a.drop_first().contains(c) implies a.contains(c) by {
            let i = choose|i: int| 0 <= i < a.drop_first().len() && a.drop_first()[i] == c;
            assert(a[i + 1] == c);
        }
        lemma_quoted_value(a.drop_first());
    }
}

/// Text that ends in its only quotation mark.
proof fn lemma_mark_at_the_end(a: Seq<char>, quoted: bool)
    requires
        a.len() > 0,
        a.last() == '"',
        quiet(a.drop_last()),
    ensures
        quotation(a, quoted) == Some(!quoted),
{
    lemma_quiet_changes_nothing(a.drop_last(), quoted);
    lemma_quotation_joins(a.drop_last(), seq!['"'], quoted);
    assert(a =~= a.drop_last() + seq!['"']);
    reveal_with_fuel(quotation, 2);
    assert(seq!['"'].drop_first() =~= seq![]);
}

/// A tag goes on behind what begins and ends outside of quotes.
proof fn lemma_after_attributes(a: Seq<char>, rest: Seq<char>, quoted: bool)
    requires
        quotation(a, quoted) is Some,
    ensures
        after_tag(a + rest, quoted) == after_tag(rest, quotation(a, quoted)->0),
    decreases a.len(),
{
    if a.len() == 0 {
        assert(a + rest =~= rest);
    } else {
        assert((a + rest).drop_first() =~= a.drop_first() + rest);
        if a[0] == '"' {
            lemma_after_attributes(a.drop_first(), rest, !quoted);
        } else {
            lemma_after_attributes(a.drop_first(), rest, quoted);
        }
    }
}

proof fn lemma_decimal_is_quiet(n: nat)
    ensures
        quiet(decimal(n)),
    decreases n,
{
    if n >= 10 {
        lemma_decimal_is_quiet(n / 10);
    }
}

proof fn lemma_hex_is_quiet(n: u8)
    ensures
        quiet(hex_byte(n)),
{
    assert(hex_byte(n).len() == 2);
}

proof fn lemma_quiet_joins(a: Seq<char>, b: Seq<char>)
    requires
        quiet(a),
        quiet(b),
    ensures
        quiet(a + b),
{
    assert forall|i: int| 0 <= i < (a + b).len() implies (#[trigger] (a + b)[i]) != '<' && (a
        + b)[i] != '>' && (a + b)[i] != '"' by {
        if i >= a.len() {
            assert((a + b)[i] == b[i - a.len()]);
        }
    }
}

proof fn lemma_size_is_quiet(size: Single)
    ensures
        quiet(size_text(size)),
{
    let value = Single::larger(size, Single { bits: ONE });
    reveal_strlit("inf");
    reveal_strlit(".");
    if !value.infinite() {
        let h = round_half_even(value.units() * 100, pow2(149));
        lemma_decimal_is_quiet(h / 100);
        lemma_quiet_joins(decimal(h / 100), "."@);
        lemma_quiet_joins(
            decimal(h / 100) + "."@,
            seq![digit(h / 10 % 10), digit(h % 10)],
        );
        assert(size_text(size) == places(h));
    }
}

/// Whether `a` begins with a space and holds whole attributes only.
spec fn attributes(a: Seq<char>) -> bool {
    &&& quotation(a, false) == Some(false)
    &&& a.len() > 0
    &&& a[0] == ' '
}

/// A further attribute, given by what stands before, in and behind its quotes.
proof fn lemma_attribute(before: Seq<char>, head: Seq<char>, value: Seq<char>, tail: Seq<char>)
    requires
        before.len() == 0 || attributes(before),
        attributes(before) || (head.len() > 0 && head[0] == ' '),
        quotation(head, false) == Some(true),
        quotation(value, true) == Some(true),
        quotation(tail, true) == Some(false),
    ensures
        attributes(before + head + value + tail),
{
    lemma_quotation_joins(before, head, false);
    lemma_quotation_joins(before + head, value, false);
    lemma_quotation_joins(before + head + value, tail, false);
}

/// A further attribute whose value is fixed, and begins at `k`.
proof fn lemma_fixed_attribute(before: Seq<char>, a: Seq<char>, k: int)
    requires
        attributes(before),
        0 < k < a.len(),
        a[k - 1] == '"',
        a.last() == '"',
        quiet(a.take(k - 1)),
        quiet(a.subrange(k, a.len() - 1)),
    ensures
        attributes(before + a),
{
    let head = a.take(k);
    let value = a.subrange(k, a.len() - 1);
    let tail = seq!['"'];
    assert(head.drop_last() =~= a.take(k - 1));
    lemma_mark_at_the_end(head, false);
    lemma_quiet_changes_nothing(value, true);
    assert(tail.drop_last() =~= seq![]);
    lemma_mark_at_the_end(tail, true);
    lemma_attribute(before, head, value, tail);
    assert(before + head + value + tail =~= before + a);
}

proof fn lemma_mark()
    ensures
        "\""@ == seq!['"'],
        quotation("\""@, true) == Some(false),
{
    reveal_strlit("\"");
    assert("\""@ =~= seq!['"']);
    assert("\""@.drop_last() =~= seq![]);
    lemma_mark_at_the_end("\""@, true);
}

proof fn lemma_family(before: Seq<char>, font: ResolvedFont)
    requires
        attributes(before),
    ensures
        attributes(with_family(before, font)),
{
    match font.family {
        Some(family) if family@.len() > 0 => {
            let head = " font_family=\""@;
            reveal_strlit(" font_family=\"");
            lemma_mark_at_the_end(head, false);
            lemma_escaped_attr_is_inert(family@);
            lemma_quoted_value(escaped_attr(family@));
            lemma_mark();
            lemma_attribute(before, head, escaped_attr(family@), "\""@);
        },
        _ => match font.design {
            FontDesign::Default => {},
            FontDesign::Monospaced => {
                reveal_strlit(" font_family=\"monospace\"");
                lemma_fixed_attribute(before, " font_family=\"monospace\""@, 14);
            },
        },
    }
}

proof fn lemma_color(before: Seq<char>, name: Seq<char>, color: ResolvedColor)
    requires
        attributes(before),
        quiet(name),
    ensures
        attributes(with_color(before, name, color)),
{
    reveal_strlit(" ");
    reveal_strlit("=\"#");
    reveal_strlit("=\"");
    let tail = "\""@;
    let sign = "=\""@;
    let head = " "@ + name + sign;
    lemma_mark();
    lemma_quiet_joins(" "@, name);
    lemma_quiet_changes_nothing(" "@ + name, false);
    lemma_mark_at_the_end(sign, false);
    lemma_quotation_joins(" "@ + name, sign, false);
    reveal_strlit("#");
    let red = hex_byte(color.red);
    let green = hex_byte(color.green);
    let blue = hex_byte(color.blue);
    lemma_hex_is_quiet(color.red);
    lemma_hex_is_quiet(color.green);
    lemma_hex_is_quiet(color.blue);
    lemma_quiet_joins("#"@, red);
    lemma_quiet_joins("#"@ + red, green);
    lemma_quiet_joins("#"@ + red + green, blue);
    let opaque = hex_notation(color);
    if Single::less(color.alpha, Single { bits: ONE }) {
        let alpha = hex_byte(alpha_byte(color.alpha));
        let value = opaque + alpha;
        lemma_hex_is_quiet(alpha_byte(color.alpha));
        lemma_quiet_joins(opaque, alpha);
        lemma_quiet_changes_nothing(value, true);
        lemma_attribute(before, head, value, tail);
        assert("=\"#"@ =~= sign + "#"@);
        assert(with_color(before, name, color) =~= before + head + value + tail);
    } else {
        lemma_quiet_changes_nothing(opaque, true);
        lemma_attribute(before, head, opaque, tail);
        assert(with_color(before, name, color) =~= before + head + opaque + tail);
    }
}

proof fn lemma_attrs(style: Style, environment: Option<ResolvedColor>, sensitive: bool)
    ensures
        attributes(markup_attrs(style, environment, sensitive)),
{
    let size = " size=\""@;
    let points = "pt\""@;
    let weight = " weight=\""@;
    reveal_strlit(" size=\"");
    reveal_strlit("pt\"");
    reveal_strlit(" weight=\"");
    lemma_mark();
    lemma_mark_at_the_end(size, false);
    lemma_mark_at_the_end(points, true);
    lemma_mark_at_the_end(weight, false);
    lemma_size_is_quiet(style.font.size);
    lemma_quiet_changes_nothing(size_text(style.font.size), true);
    let none = Seq::<char>::empty();
    lemma_attribute(none, size, size_text(style.font.size), points);
    let sized = size + size_text(style.font.size) + points;
    assert(none + size + size_text(style.font.size) + points =~= sized);
    let number = decimal(pango_weight(style.font.weight) as nat);
    lemma_decimal_is_quiet(pango_weight(style.font.weight) as nat);
    lemma_quiet_changes_nothing(number, true);
    lemma_attribute(sized, weight, number, "\""@);
    let weighted = sized + weight + number + "\""@;
    lemma_family(weighted, style.font);
    let named = with_family(weighted, style.font);
    reveal_strlit(" style=\"italic\"");
    reveal_strlit(" underline=\"single\"");
    reveal_strlit(" strikethrough=\"true\"");
    let slanted = if style.italic {
        lemma_fixed_attribute(named, " style=\"italic\""@, 8);
        named + " style=\"italic\""@
    } else {
        named
    };
    let underlined = if style.underline {
        lemma_fixed_attribute(slanted, " underline=\"single\""@, 12);
        slanted + " underline=\"single\""@
    } else {
        slanted
    };
    let struck = if style.strikethrough {
        lemma_fixed_attribute(underlined, " strikethrough=\"true\""@, 16);
        underlined + " strikethrough=\"true\""@
    } else {
        underlined
    };
    reveal_strlit("foreground");
    reveal_strlit("background");
    let colored = match effective_foreground(style, environment, sensitive) {
        Some(color) => {
            lemma_color(struck, "foreground"@, color);
            with_color(struck, "foreground"@, color)
        },
        None => struck,
    };
    if let Some(color) = style.background {
        lemma_color(colored, "background"@, color);
    }
}

/// An escaped text is read back.
proof fn lemma_escaped_text_is_shown(text: Seq<char>, rest: Seq<char>, depth: nat)
    ensures
        shown(escaped_text(text) + rest, depth) == preceded(text, shown(rest, depth)),
    decreases text.len(),
{
    if text.len() == 0 {
        assert(escaped_text(text) + rest =~= rest);
        if let Some(read) = shown(rest, depth) {
            assert(text + read =~= read);
        }
    } else {
        let c = text[0];
        let entity = text_entity(c);
        let tail = escaped_text(text.drop_first()) + rest;
        let m = escaped_text(text) + rest;
        assert(m =~= entity + tail);
        lemma_escaped_text_is_shown(text.drop_first(), rest, depth);
        assert(m[0] == entity[0]);
        assert(m[0] != '<');
        assert(!begins(m, span_end())) by {
            if begins(m, span_end()) {
                assert(m.take(span_end().len() as int)[0] == m[0]);
            }
        }
        assert(!begins(m, span_name().push(' '))) by {
            if begins(m, span_name().push(' ')) {
                assert(m.take(span_name().push(' ').len() as int)[0] == m[0]);
            }
        }
        assert(!begins(m, span_name().push('>'))) by {
            if begins(m, span_name().push('>')) {
                assert(m.take(span_name().push('>').len() as int)[0] == m[0]);
            }
        }
        if entity.len() > 1 {
            assert(entity == attr_entity(c));
            assert(m.take(entity.len() as int) =~= entity);
            assert(m.skip(entity.len() as int) =~= tail);
            assert(m[1] == entity[1]);
            if c != '&' {
                assert(!begins(m, attr_entity('&'))) by {
                    if begins(m, attr_entity('&')) {
                        assert(m.take(attr_entity('&').len() as int)[1] == m[1]);
                    }
                }
            }
            if c == '>' {
                assert(!begins(m, attr_entity('<'))) by {
                    if begins(m, attr_entity('<')) {
                        assert(m.take(attr_entity('<').len() as int)[1] == m[1]);
                    }
                }
            }
            assert(entity_at(m) == Some(c));
        } else {
            assert(m.drop_first() =~= tail);
        }
        if let Some(read) = shown(rest, depth) {
            assert(seq![c] + (text.drop_first() + read) =~= text + read);
        }
    }
}

/// A span shows the text in it.
proof fn lemma_span_is_shown(attrs: Seq<char>, text: Seq<char>, rest: Seq<char>, depth: nat)
    requires
        attributes(attrs),
    ensures
        shown("<span"@ + attrs + ">"@ + escaped_text(text) + "</span>"@ + rest, depth) == preceded(
            text,
            shown(rest, depth),
        ),
{
    let m = "<span"@ + attrs + ">"@ + escaped_text(text) + "</span>"@ + rest;
    reveal_strlit("<span");
    reveal_strlit(">");
    reveal_strlit("</span>");
    assert("<span"@ =~= span_name());
    assert("</span>"@ =~= span_end());
    let inner = escaped_text(text) + (span_end() + rest);
    let tagged = attrs + (seq!['>'] + inner);
    assert(m =~= span_name() + tagged);
    assert(m[1] == 's');
    assert(!begins(m, span_end())) by {
        if begins(m, span_end()) {
            assert(m.take(span_end().len() as int)[1] == m[1]);
        }
    }
    assert(m.take(6) =~= span_name().push(' '));
    assert(m.skip(span_name().len() as int) =~= tagged);
    lemma_after_attributes(attrs, seq!['>'] + inner, false);
    assert((seq!['>'] + inner).drop_first() =~= inner);
    assert(after_tag(tagged, false) == Some(inner));
    assert(shown(m, depth) == shown(inner, depth + 1));
    lemma_escaped_text_is_shown(text, span_end() + rest, depth + 1);
    assert((span_end() + rest).take(span_end().len() as int) =~= span_end());
    assert((span_end() + rest).skip(span_end().len() as int) =~= rest);
}

proof fn lemma_preceded_joins(a: Seq<char>, b: Seq<char>, rest: Option<Seq<char>>)
    ensures
        preceded(a, preceded(b, rest)) == preceded(a + b, rest),
{
    if let Some(read) = rest {
        assert(a + (b + read) =~= (a + b) + read);
    }
}

/// A span behind other markup and in front of some is the same however they are
/// put together.
pub(crate) proof fn lemma_grouped(
    before: Seq<char>,
    name: Seq<char>,
    attrs: Seq<char>,
    open: Seq<char>,
    text: Seq<char>,
    close: Seq<char>,
    rest: Seq<char>,
)
    ensures
        (before + name + attrs + open + text + close) + rest == before + ((name + attrs + open
            + text + close) + rest),
{
    assert((before + name + attrs + open + text + close) + rest =~= before + ((name + attrs + open
        + text + close) + rest));
}

proof fn lemma_markup_is_shown(
    chunks: Seq<Chunk>,
    environment: Option<ResolvedColor>,
    sensitive: bool,
    rest: Seq<char>,
)
    ensures
        shown(markup(chunks, environment, sensitive) + rest, 0) == preceded(
            plain_text(chunks),
            shown(rest, 0),
        ),
    decreases chunks.len(),
{
    let m = markup(chunks, environment, sensitive);
    if chunks.len() == 0 {
        assert(m + rest =~= rest);
        if let Some(read) = shown(rest, 0) {
            assert(plain_text(chunks) + read =~= read);
        }
    } else {
        let before = markup(chunks.drop_last(), environment, sensitive);
        let chunk = chunks.last();
        let text = chunk.text@;
        if text.len() == 0 {
            lemma_markup_is_shown(chunks.drop_last(), environment, sensitive, rest);
            assert(plain_text(chunks) =~= plain_text(chunks.drop_last()));
        } else {
            let attrs = markup_attrs(chunk.style, environment, sensitive);
            lemma_attrs(chunk.style, environment, sensitive);
            let span = "<span"@ + attrs + ">"@ + escaped_text(text) + "</span>"@;
            lemma_grouped(before, "<span"@, attrs, ">"@, escaped_text(text), "</span>"@, rest);
            lemma_markup_is_shown(chunks.drop_last(), environment, sensitive, span + rest);
            lemma_span_is_shown(attrs, text, rest, 0);
            lemma_preceded_joins(plain_text(chunks.drop_last()), text, shown(rest, 0));
        }
    }
}

/// The markup of chunks of text is markup, and shows their texts one behind the
/// other, whatever characters are in them.
pub proof fn lemma_markup_shows_the_text(
    chunks: Seq<Chunk>,
    environment: Option<ResolvedColor>,
    sensitive: bool,
)
    ensures
        shown(markup(chunks, environment, sensitive), 0) == Some(plain_text(chunks)),
{
    let m = markup(chunks, environment, sensitive);
    lemma_markup_is_shown(chunks, environment, sensitive, seq![]);
    assert(m + Seq::<char>::empty() =~= m);
    assert(plain_text(chunks) + Seq::<char>::empty() =~= plain_text(chunks));
}

/// The attributes of a chunk begin with a space, and the tag that they stand in
/// ends right behind them.
pub proof fn lemma_attributes_end_the_tag(
    style: Style,
    environment: Option<ResolvedColor>,
    sensitive: bool,
)
    ensures
        ({
            let attrs = markup_attrs(style, environment, sensitive);
            &&& attrs.len() > 0 && attrs[0] == ' '
            &&& forall|rest: Seq<char>|
                #[trigger] after_tag(attrs + (seq!['>'] + rest), false) == Some(rest)
        }),
{
    let attrs = markup_attrs(style, environment, sensitive);
    lemma_attrs(style, environment, sensitive);
    assert forall|rest: Seq<char>| #[trigger] after_tag(attrs + (seq!['>'] + rest), false) == Some(
        rest,
    ) by {
        lemma_after_attributes(attrs, seq!['>'] + rest, false);
        assert((seq!['>'] + rest).drop_first() =~= rest);
    }
}

} // verus!
