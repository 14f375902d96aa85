//! Reading the attributes of a span back: what a label makes of the style that
//! its markup states.

use crate::components::typography::reading::{
    after_tag, begins, entity_at, lemma_after_tag_is_shorter, lemma_attributes_end_the_tag,
    lemma_grouped, shown, span_end, span_name,
};
use crate::components::typography::text::{
    alpha_byte, attr_entity, effective_foreground, escaped_attr, escaped_text, hex_notation,
    lemma_escaped_attr_is_inert, lemma_escaped_text_is_inert, markup, markup_attrs, pango_weight,
    places, size_text, with_color, with_family, Chunk, FontDesign, FontWeight, ResolvedColor,
    ResolvedFont, Style,
};
use crate::rounding::{lemma_round_half_even_is_nearest, round_half_even};
use crate::single::{
    lemma_constants, lemma_larger_is_above_both, lemma_rounded_is_nearest, Single, ONE,
};
use crate::text::{
    byte_at, decimal, digit, hex_byte, lemma_decimal_reads_back, lemma_hex_reads_back, numeral,
};
use vstd::arithmetic::power2::{lemma_pow2_pos, pow2};
use vstd::prelude::*;

verus! {

/// Where the reading of a tag stands.
pub enum Place {
    /// Outside of an attribute.
    Between,
    /// In an attribute's name.
    Name,
    /// Behind the sign that ends it.
    Sign,
    /// In the quotes of its value.
    Value,
    /// Behind something that is no attribute.
    Broken,
}

/// What was read of a tag: the attributes that are complete, and the name and
/// the value of the one that is not.
#[verifier::ext_equal]
pub struct Reading {
    pub place: Place,
    pub name: Seq<char>,
    pub value: Seq<char>,
    pub list: Seq<(Seq<char>, Seq<char>)>,
}

/// A reading after one more character: attributes are written ` name="value"`.
pub open spec fn read_char(r: Reading, c: char) -> Reading {
    match r.place {
        Place::Between => if c == ' ' {
            Reading { place: Place::Name, ..r }
        } else {
            Reading { place: Place::Broken, ..r }
        },
        Place::Name => if c == '=' {
            Reading { place: Place::Sign, ..r }
        } else if c == ' ' || c == '"' {
            Reading { place: Place::Broken, ..r }
        } else {
            Reading { name: r.name.push(c), ..r }
        },
        Place::Sign => if c == '"' {
            Reading { place: Place::Value, ..r }
        } else {
            Reading { place: Place::Broken, ..r }
        },
        Place::Value => if c == '"' {
            Reading {
                place: Place::Between,
                name: seq![],
                value: seq![],
                list: r.list.push((r.name, r.value)),
            }
        } else {
            Reading { value: r.value.push(c), ..r }
        },
        Place::Broken => r,
    }
}

/// A reading that has read `list`, and stands outside of an attribute.
pub open spec fn having_read(list: Seq<(Seq<char>, Seq<char>)>) -> Reading {
    Reading { place: Place::Between, name: seq![], value: seq![], list }
}

/// The reading of the whole of `a`.
pub open spec fn reading_of(a: Seq<char>) -> Reading
    decreases a.len(),
{
    if a.len() == 0 {
        having_read(seq![])
    } else {
        read_char(reading_of(a.drop_last()), a.last())
    }
}

/// The attributes that `a` holds, each with its value; nothing where `a` holds
/// anything else.
pub open spec fn attributes_of(a: Seq<char>) -> Option<Seq<(Seq<char>, Seq<char>)>> {
    if reading_of(a).place is Between {
        Some(reading_of(a).list)
    } else {
        None
    }
}

/// The value that `list` gives the attribute `name`.
pub open spec fn value_of(list: Seq<(Seq<char>, Seq<char>)>, name: Seq<char>) -> Option<Seq<char>>
    decreases list.len(),
{
    if list.len() == 0 {
        None
    } else if list.last().0 == name {
        Some(list.last().1)
    } else {
        value_of(list.drop_last(), name)
    }
}

/// The color that a notation stands for: red, green, blue and opacity, which is
/// full where it is not stated.
pub open spec fn color_of(v: Seq<char>) -> Option<(int, int, int, int)> {
    if v.len() == 7 && v[0] == '#' {
        Some((byte_at(v, 1), byte_at(v, 3), byte_at(v, 5), 255))
    } else if v.len() == 9 && v[0] == '#' {
        Some((byte_at(v, 1), byte_at(v, 3), byte_at(v, 5), byte_at(v, 7)))
    } else {
        None
    }
}

/// Whether `v` is the notation of `color`, and of its opacity where that is not
/// full.
pub open spec fn states_color(v: Seq<char>, color: ResolvedColor) -> bool {
    color_of(v) == Some(
        (
            color.red as int,
            color.green as int,
            color.blue as int,
            if Single::less(color.alpha, Single { bits: ONE }) {
                alpha_byte(color.alpha) as int
            } else {
                255
            },
        ),
    )
}

proof fn lemma_name_is_read(before: Seq<char>, word: Seq<char>)
    requires
        reading_of(before).place is Name,
        !word.contains('='),
        !word.contains(' '),
        !word.contains('"'),
    ensures
        reading_of(before + word) == (Reading {
            name: reading_of(before).name + word,
            ..reading_of(before)
        }),
    decreases word.len(),
{
    if word.len() == 0 {
        assert(before + word =~= before);
        assert(reading_of(before).name + word =~= reading_of(before).name);
    } else {
        let front = word.drop_last();
        assert((before + word).drop_last() =~= before + front);
        assert(word.contains(word.last()));
        assert forall|c: char| front.contains(c) implies word.contains(c) by {
            let i = choose|i: int| 0 <= i < front.len() && front[i] == c;
            assert(word[i] == c);
        }
        lemma_name_is_read(before, front);
        assert(reading_of(before).name + word =~= (reading_of(before).name + front).push(
            word.last(),
        ));
    }
}

proof fn lemma_value_is_read(before: Seq<char>, word: Seq<char>)
    requires
        reading_of(before).place is Value,
        !word.contains('"'),
    ensures
        reading_of(before + word) == (Reading {
            value: reading_of(before).value + word,
            ..reading_of(before)
        }),
    decreases word.len(),
{
    if word.len() == 0 {
        assert(before + word =~= before);
        assert(reading_of(before).value + word =~= reading_of(before).value);
    } else {
        let front = word.drop_last();
        assert((before + word).drop_last() =~= before + front);
        assert(word.contains(word.last()));
        assert forall|c: char| front.contains(c) implies word.contains(c) by {
            let i = choose|i: int| 0 <= i < front.len() && front[i] == c;
            assert(word[i] == c);
        }
        lemma_value_is_read(before, front);
        assert(reading_of(before).value + word =~= (reading_of(before).value + front).push(
            word.last(),
        ));
    }
}

/// An attribute as it is written.
pub open spec fn attribute(name: Seq<char>, value: Seq<char>) -> Seq<char> {
    seq![' '] + name + seq!['=', '"'] + value + seq!['"']
}

/// A further attribute is read behind those before it.
proof fn lemma_attribute_is_read(
    before: Seq<char>,
    list: Seq<(Seq<char>, Seq<char>)>,
    name: Seq<char>,
    value: Seq<char>,
)
    requires
        reading_of(before) == having_read(list),
        !name.contains('='),
        !name.contains(' '),
        !name.contains('"'),
        !value.contains('"'),
    ensures
        reading_of(before + attribute(name, value)) == having_read(list.push((name, value))),
{
    let a = before.push(' ');
    let b = a + name;
    let c = b.push('=');
    let d = c.push('"');
    let e = d + value;
    let f = e.push('"');
    assert(a.drop_last() =~= before);
    assert(c.drop_last() =~= b);
    assert(d.drop_last() =~= c);
    assert(f.drop_last() =~= e);
    assert(a.last() == ' ' && c.last() == '=' && d.last() == '"' && f.last() == '"');
    assert(reading_of(a) == (Reading { place: Place::Name, ..having_read(list) }));
    lemma_name_is_read(a, name);
    assert(Seq::<char>::empty() + name =~= name);
    assert(Seq::<char>::empty() + value =~= value);
    assert(reading_of(b) == (Reading { place: Place::Name, name, ..having_read(list) }));
    assert(reading_of(c) == (Reading { place: Place::Sign, name, ..having_read(list) }));
    assert(reading_of(d) == (Reading { place: Place::Value, name, ..having_read(list) }));
    lemma_value_is_read(d, value);
    assert(reading_of(e) == (Reading { place: Place::Value, name, value, ..having_read(list) }));
    assert(reading_of(f) == having_read(list.push((name, value))));
    assert(before + attribute(name, value) =~= f);
}

proof fn lemma_value_of_the_last(
    list: Seq<(Seq<char>, Seq<char>)>,
    name: Seq<char>,
    value: Seq<char>,
)
    ensures
        forall|m: Seq<char>|
            #[trigger] value_of(list.push((name, value)), m) == if m == name {
                Some(value)
            } else {
                value_of(list, m)
            },
{
    assert(list.push((name, value)).drop_last() =~= list);
}

/// No two attributes share a name, and no name ends itself.
proof fn lemma_names()
    ensures
        "size"@ != "weight"@,
        "size"@ != "font_family"@,
        "size"@ != "style"@,
        "size"@ != "underline"@,
        "size"@ != "strikethrough"@,
        "size"@ != "foreground"@,
        "size"@ != "background"@,
        "weight"@ != "font_family"@,
        "weight"@ != "style"@,
        "weight"@ != "underline"@,
        "weight"@ != "strikethrough"@,
        "weight"@ != "foreground"@,
        "weight"@ != "background"@,
        "font_family"@ != "style"@,
        "font_family"@ != "underline"@,
        "font_family"@ != "strikethrough"@,
        "font_family"@ != "foreground"@,
        "font_family"@ != "background"@,
        "style"@ != "underline"@,
        "style"@ != "strikethrough"@,
        "style"@ != "foreground"@,
        "style"@ != "background"@,
        "underline"@ != "strikethrough"@,
        "underline"@ != "foreground"@,
        "underline"@ != "background"@,
        "strikethrough"@ != "foreground"@,
        "strikethrough"@ != "background"@,
        "foreground"@ != "background"@,
{
    reveal_strlit("size");
    reveal_strlit("weight");
    reveal_strlit("font_family");
    reveal_strlit("style");
    reveal_strlit("underline");
    reveal_strlit("strikethrough");
    reveal_strlit("foreground");
    reveal_strlit("background");
    assert("size"@.len() == 4);
    assert("weight"@.len() == 6);
    assert("font_family"@.len() == 11);
    assert("style"@.len() == 5);
    assert("underline"@.len() == 9);
    assert("strikethrough"@.len() == 13);
    assert("foreground"@.len() == 10 && "foreground"@[0] == 'f');
    assert("background"@.len() == 10 && "background"@[0] == 'b');
}

proof fn lemma_decimal_holds_no_quote(n: nat)
    ensures
        !decimal(n).contains('"'),
{
    lemma_decimal_reads_back(n);
    if decimal(n).contains('"') {
        let i = choose|i: int| 0 <= i < decimal(n).len() && decimal(n)[i] == '"';
        assert('0' <= decimal(n)[i] <= '9');
    }
}

proof fn lemma_quotes_join(a: Seq<char>, b: Seq<char>)
    requires
        !a.contains('"'),
        !b.contains('"'),
    ensures
        !(a + b).contains('"'),
{
    if (a + b).contains('"') {
        let i = choose|i: int| 0 <= i < (a + b).len() && (a + b)[i] == '"';
        if i < a.len() {
            assert(a[i] == '"');
        } else {
            assert(b[i - a.len()] == '"');
        }
    }
}

proof fn lemma_size_holds_no_quote(size: Single)
    ensures
        !(size_text(size) + "pt"@).contains('"'),
{
    reveal_strlit("pt");
    reveal_strlit("inf");
    reveal_strlit(".");
    let value = Single::larger(size, Single { bits: ONE });
    assert(!("pt"@).contains('"'));
    if value.infinite() {
        assert(!("inf"@).contains('"'));
        lemma_quotes_join("inf"@, "pt"@);
    } else {
        let h = round_half_even(value.units() * 100, pow2(149));
        let places_of = seq![digit(h / 10 % 10), digit(h % 10)];
        lemma_decimal_holds_no_quote(h / 100);
        assert(!("."@).contains('"'));
        assert(!places_of.contains('"'));
        lemma_quotes_join(decimal(h / 100), "."@);
        lemma_quotes_join(decimal(h / 100) + "."@, places_of);
        lemma_quotes_join(size_text(size), "pt"@);
    }
}

/// The notation that a color is written in.
spec fn color_text(color: ResolvedColor) -> Seq<char> {
    if Single::less(color.alpha, Single { bits: ONE }) {
        hex_notation(color) + hex_byte(alpha_byte(color.alpha))
    } else {
        hex_notation(color)
    }
}

proof fn lemma_byte_at(v: Seq<char>, i: int, n: u8)
    requires
        0 <= i,
        i + 2 <= v.len(),
        v[i] == hex_byte(n)[0],
        v[i + 1] == hex_byte(n)[1],
    ensures
        byte_at(v, i) == n,
        v[i] != '"',
        v[i + 1] != '"',
{
    lemma_hex_reads_back(n);
    assert('0' <= hex_byte(n)[0] <= '9' || 'A' <= hex_byte(n)[0] <= 'F');
    assert('0' <= hex_byte(n)[1] <= '9' || 'A' <= hex_byte(n)[1] <= 'F');
}

proof fn lemma_color_reads_back(color: ResolvedColor)
    ensures
        states_color(color_text(color), color),
        !color_text(color).contains('"'),
{
    reveal_strlit("#");
    let v = color_text(color);
    assert("#"@ =~= seq!['#']);
    assert(v.len() == 7 || v.len() == 9);
    assert(v[0] == '#');
    lemma_byte_at(v, 1, color.red);
    lemma_byte_at(v, 3, color.green);
    lemma_byte_at(v, 5, color.blue);
    if v.len() == 9 {
        lemma_byte_at(v, 7, alpha_byte(color.alpha));
    }
    if v.contains('"') {
        let i = choose|i: int| 0 <= i < v.len() && v[i] == '"';
        assert(i == 0 || i == 1 || i == 2 || i == 3 || i == 4 || i == 5 || i == 6 || i == 7 || i
            == 8);
    }
}

proof fn lemma_color_is_an_attribute(before: Seq<char>, name: Seq<char>, color: ResolvedColor)
    ensures
        with_color(before, name, color) == before + attribute(name, color_text(color)),
{
    reveal_strlit(" ");
    reveal_strlit("=\"#");
    reveal_strlit("=\"");
    reveal_strlit("\"");
    reveal_strlit("#");
    assert(with_color(before, name, color) =~= before + attribute(name, color_text(color)));
}

/// An escaped value is read back.
pub proof fn lemma_escaped_value_is_shown(value: Seq<char>)
    ensures
        shown(escaped_attr(value), 0) == Some(value),
    decreases value.len(),
{
    if value.len() == 0 {
        assert(escaped_attr(value) =~= seq![]);
        assert(value =~= seq![]);
    } else {
        let c = value[0];
        let entity = attr_entity(c);
        let tail = escaped_attr(value.drop_first());
        let m = escaped_attr(value);
        assert(m =~= entity + tail);
        lemma_escaped_value_is_shown(value.drop_first());
        assert(m[0] == entity[0]);
        assert(m[0] != '<');
        assert(!begins(m, span_end())) by {
            if begins(m, span_end()) {
                assert(m.take(span_end().len() as int)[0] == m[0]);
            }
        }
        assert(!begins(m, span_name().push(' '))) by {
            if begins(m, span_name().push(' ')) {
                assert(m.take(span_name().push(' ').len() as int)[0] == m[0]);
            }
        }
        assert(!begins(m, span_name().push('>'))) by {
            if begins(m, span_name().push('>')) {
                assert(m.take(span_name().push('>').len() as int)[0] == m[0]);
            }
        }
        if entity.len() > 1 {
            assert(m.take(entity.len() as int) =~= entity);
            assert(m.skip(entity.len() as int) =~= tail);
            assert(m[1] == entity[1]);
            assert(m[2] == entity[2]);
            assert forall|o: char|
                (o == '&' || o == '<' || o == '>' || o == '"' || o == '\'') && o
                    != c implies !begins(m, #[trigger] attr_entity(o)) by {
                if begins(m, attr_entity(o)) {
                    let head = m.take(attr_entity(o).len() as int);
                    assert(head[1] == m[1]);
                    assert(head[2] == m[2]);
                }
            }
            assert(entity_at(m) == Some(c));
        } else {
            assert(m.drop_first() =~= tail);
        }
        assert(seq![c] + value.drop_first() =~= value);
    }
}

/// Reading a span's attributes back gives the style: the span is underlined if
/// and only if the style is, whatever else it is, and likewise slanted and
/// struck through; the weight, the size and the family are the font's, and the
/// colors those of the text and of what is behind it. Nothing is stated twice,
/// and nothing else is stated.
#[verifier::rlimit(40)]
pub proof fn lemma_span_states_the_style(
    style: Style,
    environment: Option<ResolvedColor>,
    sensitive: bool,
)
    ensures
        attributes_of(markup_attrs(style, environment, sensitive)) matches Some(list) && {
            let colored = style.foreground is Some || (sensitive && environment is Some);
            let named = (style.font.family matches Some(family) && family@.len() > 0)
                || style.font.design is Monospaced;
            &&& style.underline ==> value_of(list, "underline"@) == Some("single"@)
            &&& !style.underline ==> value_of(list, "underline"@) is None
            &&& style.italic ==> value_of(list, "style"@) == Some("italic"@)
            &&& !style.italic ==> value_of(list, "style"@) is None
            &&& style.strikethrough ==> value_of(list, "strikethrough"@) == Some("true"@)
            &&& !style.strikethrough ==> value_of(list, "strikethrough"@) is None
            &&& value_of(list, "size"@) == Some(size_text(style.font.size) + "pt"@)
            &&& value_of(list, "weight"@) matches Some(number) && numeral(number) == pango_weight(
                style.font.weight,
            )
            &&& style.font.family matches Some(family) ==> family@.len() > 0 ==> (value_of(
                list,
                "font_family"@,
            ) matches Some(stated) && shown(stated, 0) == Some(family@))
            &&& !(style.font.family matches Some(family) && family@.len() > 0)
                && style.font.design is Monospaced ==> value_of(list, "font_family"@) == Some(
                "monospace"@,
            )
            &&& !named ==> value_of(list, "font_family"@) is None
            &&& style.foreground matches Some(color) ==> (value_of(list, "foreground"@) matches Some(
                stated,
            ) && states_color(stated, color))
            &&& style.foreground is None && sensitive ==> (environment matches Some(color) ==> (
            value_of(list, "foreground"@) matches Some(stated) && states_color(stated, color)))
            &&& !colored ==> value_of(list, "foreground"@) is None
            &&& style.background matches Some(color) ==> (value_of(list, "background"@) matches Some(
                stated,
            ) && states_color(stated, color))
            &&& style.background is None ==> value_of(list, "background"@) is None
            &&& list.len() == 2 + (if named {
                1int
            } else {
                0
            }) + (if style.italic {
                1int
            } else {
                0
            }) + (if style.underline {
                1int
            } else {
                0
            }) + (if style.strikethrough {
                1int
            } else {
                0
            }) + (if colored {
                1int
            } else {
                0
            }) + (if style.background is Some {
                1int
            } else {
                0
            })
        },
{
    lemma_names();
    lemma_fixed_attributes();
    let weight = pango_weight(style.font.weight) as nat;
    lemma_decimal_reads_back(weight);
    let a2 = " size=\""@ + size_text(style.font.size) + "pt\""@ + " weight=\""@ + decimal(weight)
        + "\""@;
    let l2 = lemma_first_two_are_read(style.font.size, weight);
    let a3 = with_family(a2, style.font);
    let l3 = lemma_family_is_read(a2, l2, style.font);
    let a4 = if style.italic {
        a3 + " style=\"italic\""@
    } else {
        a3
    };
    let l4 = lemma_fixed_is_read(a3, l3, "style"@, "italic"@, " style=\"italic\""@, style.italic);
    let a5 = if style.underline {
        a4 + " underline=\"single\""@
    } else {
        a4
    };
    let l5 = lemma_fixed_is_read(
        a4,
        l4,
        "underline"@,
        "single"@,
        " underline=\"single\""@,
        style.underline,
    );
    let a6 = if style.strikethrough {
        a5 + " strikethrough=\"true\""@
    } else {
        a5
    };
    let l6 = lemma_fixed_is_read(
        a5,
        l5,
        "strikethrough"@,
        "true"@,
        " strikethrough=\"true\""@,
        style.strikethrough,
    );
    let text = effective_foreground(style, environment, sensitive);
    let a7 = match text {
        Some(color) => with_color(a6, "foreground"@, color),
        None => a6,
    };
    let l7 = lemma_color_is_read(a6, l6, "foreground"@, text);
    let a8 = match style.background {
        Some(color) => with_color(a7, "background"@, color),
        None => a7,
    };
    let l8 = lemma_color_is_read(a7, l7, "background"@, style.background);
    assert(a8 == markup_attrs(style, environment, sensitive));
    assert(attributes_of(a8) == Some(l8));
}

/// The attributes whose value is fixed, as they are written; and no name of any
/// attribute ends itself.
proof fn lemma_fixed_attributes()
    ensures
        " style=\"italic\""@ == attribute("style"@, "italic"@),
        " underline=\"single\""@ == attribute("underline"@, "single"@),
        " strikethrough=\"true\""@ == attribute("strikethrough"@, "true"@),
        plain("style"@),
        plain("underline"@),
        plain("strikethrough"@),
        plain("foreground"@),
        plain("background"@),
        plain("size"@),
        plain("weight"@),
        !("italic"@).contains('"'),
        !("single"@).contains('"'),
        !("true"@).contains('"'),
{
    reveal_strlit(" style=\"italic\"");
    reveal_strlit(" underline=\"single\"");
    reveal_strlit(" strikethrough=\"true\"");
    reveal_strlit("style");
    reveal_strlit("italic");
    reveal_strlit("underline");
    reveal_strlit("single");
    reveal_strlit("strikethrough");
    reveal_strlit("true");
    reveal_strlit("foreground");
    reveal_strlit("background");
    reveal_strlit("size");
    reveal_strlit("weight");
    assert(" style=\"italic\""@ =~= attribute("style"@, "italic"@));
    assert(" underline=\"single\""@ =~= attribute("underline"@, "single"@));
    assert(" strikethrough=\"true\""@ =~= attribute("strikethrough"@, "true"@));
}

/// Whether `name` can be the name of an attribute.
spec fn plain(name: Seq<char>) -> bool {
    !name.contains('=') && !name.contains(' ') && !name.contains('"')
}

/// The size and the weight are read first.
proof fn lemma_first_two_are_read(size: Single, weight: nat) -> (after: Seq<
    (Seq<char>, Seq<char>),
>)
    ensures
        reading_of(
            " size=\""@ + size_text(size) + "pt\""@ + " weight=\""@ + decimal(weight) + "\""@,
        ) == having_read(after),
        after.len() == 2,
        forall|m: Seq<char>|
            #[trigger] value_of(after, m) == if m == "weight"@ {
                Some(decimal(weight))
            } else if m == "size"@ {
                Some(size_text(size) + "pt"@)
            } else {
                None
            },
{
    lemma_names();
    lemma_fixed_attributes();
    let l0 = Seq::<(Seq<char>, Seq<char>)>::empty();
    let a0 = Seq::<char>::empty();
    assert(reading_of(a0) == having_read(l0));
    let text = size_text(size) + "pt"@;
    lemma_size_holds_no_quote(size);
    lemma_attribute_is_read(a0, l0, "size"@, text);
    lemma_value_of_the_last(l0, "size"@, text);
    let l1 = l0.push(("size"@, text));
    let a1 = a0 + attribute("size"@, text);
    lemma_decimal_holds_no_quote(weight);
    lemma_attribute_is_read(a1, l1, "weight"@, decimal(weight));
    lemma_value_of_the_last(l1, "weight"@, decimal(weight));
    reveal_strlit("size");
    reveal_strlit("weight");
    reveal_strlit(" size=\"");
    reveal_strlit("pt\"");
    reveal_strlit("pt");
    reveal_strlit(" weight=\"");
    reveal_strlit("\"");
    assert(a1 + attribute("weight"@, decimal(weight)) =~= " size=\""@ + size_text(size) + "pt\""@
        + " weight=\""@ + decimal(weight) + "\""@);
    l1.push(("weight"@, decimal(weight)))
}

/// An attribute whose value is fixed is read where it is given.
proof fn lemma_fixed_is_read(
    before: Seq<char>,
    list: Seq<(Seq<char>, Seq<char>)>,
    name: Seq<char>,
    value: Seq<char>,
    text: Seq<char>,
    given: bool,
) -> (after: Seq<(Seq<char>, Seq<char>)>)
    requires
        reading_of(before) == having_read(list),
        text == attribute(name, value),
        plain(name),
        !value.contains('"'),
    ensures
        given ==> reading_of(before + text) == having_read(after),
        !given ==> reading_of(before) == having_read(after),
        given ==> value_of(after, name) == Some(value),
        !given ==> value_of(after, name) == value_of(list, name),
        forall|m: Seq<char>| m != name ==> #[trigger] value_of(after, m) == value_of(list, m),
        after.len() == list.len() + (if given {
            1int
        } else {
            0
        }),
{
    if given {
        lemma_attribute_is_read(before, list, name, value);
        lemma_value_of_the_last(list, name, value);
        list.push((name, value))
    } else {
        list
    }
}

/// A color is read where there is one.
proof fn lemma_color_is_read(
    before: Seq<char>,
    list: Seq<(Seq<char>, Seq<char>)>,
    name: Seq<char>,
    color: Option<ResolvedColor>,
) -> (after: Seq<(Seq<char>, Seq<char>)>)
    requires
        reading_of(before) == having_read(list),
        plain(name),
    ensures
        match color {
            Some(color) => reading_of(with_color(before, name, color)) == having_read(after)
                && value_of(after, name) is Some && states_color(value_of(after, name)->0, color)
                && after.len() == list.len() + 1,
            None => after == list,
        },
        forall|m: Seq<char>| m != name ==> #[trigger] value_of(after, m) == value_of(list, m),
{
    match color {
        Some(color) => {
            lemma_color_reads_back(color);
            lemma_color_is_an_attribute(before, name, color);
            lemma_attribute_is_read(before, list, name, color_text(color));
            lemma_value_of_the_last(list, name, color_text(color));
            list.push((name, color_text(color)))
        },
        None => list,
    }
}

proof fn lemma_family_is_read(
    before: Seq<char>,
    list: Seq<(Seq<char>, Seq<char>)>,
    font: ResolvedFont,
) -> (after: Seq<(Seq<char>, Seq<char>)>)
    requires
        reading_of(before) == having_read(list),
        value_of(list, "font_family"@) is None,
    ensures
        reading_of(with_family(before, font)) == having_read(after),
        forall|m: Seq<char>|
            m != "font_family"@ ==> #[trigger] value_of(after, m) == value_of(list, m),
        ({
            let given = font.family matches Some(family) && family@.len() > 0;
            &&& font.family matches Some(family) ==> family@.len() > 0 ==> (value_of(
                after,
                "font_family"@,
            ) matches Some(stated) && shown(stated, 0) == Some(family@))
            &&& !given && font.design is Monospaced ==> value_of(after, "font_family"@) == Some(
                "monospace"@,
            )
            &&& !given && !(font.design is Monospaced) ==> value_of(after, "font_family"@) is None
            &&& after.len() == list.len() + (if given || font.design is Monospaced {
                1int
            } else {
                0
            })
        }),
{
    reveal_strlit("font_family");
    reveal_strlit(" font_family=\"");
    reveal_strlit("\"");
    reveal_strlit("monospace");
    reveal_strlit(" font_family=\"monospace\"");
    match font.family {
        Some(family) if family@.len() > 0 => {
            let value = escaped_attr(family@);
            lemma_escaped_attr_is_inert(family@);
            lemma_escaped_value_is_shown(family@);
            lemma_attribute_is_read(before, list, "font_family"@, value);
            lemma_value_of_the_last(list, "font_family"@, value);
            assert(before + attribute("font_family"@, value) =~= with_family(before, font));
            list.push(("font_family"@, value))
        },
        _ => match font.design {
            FontDesign::Default => list,
            FontDesign::Monospaced => {
                lemma_attribute_is_read(before, list, "font_family"@, "monospace"@);
                lemma_value_of_the_last(list, "font_family"@, "monospace"@);
                assert(before + attribute("font_family"@, "monospace"@) =~= with_family(
                    before,
                    font,
                ));
                list.push(("font_family"@, "monospace"@))
            },
        },
    }
}

/// The tags that open a span in `m`, each without its name and its end.
pub open spec fn opened(m: Seq<char>) -> Seq<Seq<char>>
    decreases m.len(),
{
    if m.len() == 0 {
        seq![]
    } else if begins(m, span_name().push(' ')) || begins(m, span_name().push('>')) {
        proof {
            lemma_after_tag_is_shorter(m.skip(span_name().len() as int), false);
        }
        let tagged = m.skip(span_name().len() as int);
        match after_tag(tagged, false) {
            Some(rest) => seq![tagged.take(tagged.len() - rest.len() - 1)] + opened(rest),
            None => seq![],
        }
    } else {
        opened(m.drop_first())
    }
}

/// Text in which no tag begins opens nothing.
proof fn lemma_text_opens_nothing(text: Seq<char>, rest: Seq<char>)
    requires
        !text.contains('<'),
    ensures
        opened(text + rest) == opened(rest),
    decreases text.len(),
{
    let m = text + rest;
    if text.len() == 0 {
        assert(m =~= rest);
    } else {
        assert(text.contains(text[0]));
        assert(m[0] == text[0]);
        assert(!begins(m, span_name().push(' '))) by {
            if begins(m, span_name().push(' ')) {
                assert(m.take(span_name().push(' ').len() as int)[0] == m[0]);
            }
        }
        assert(!begins(m, span_name().push('>'))) by {
            if begins(m, span_name().push('>')) {
                assert(m.take(span_name().push('>').len() as int)[0] == m[0]);
            }
        }
        assert(m.drop_first() =~= text.drop_first() + rest);
        assert forall|c: char| text.drop_first().contains(c) implies text.contains(c) by {
            let i = choose|i: int| 0 <= i < text.drop_first().len() && text.drop_first()[i] == c;
            assert(text[i + 1] == c);
        }
        lemma_text_opens_nothing(text.drop_first(), rest);
    }
}

/// The tag that closes a span opens none.
proof fn lemma_end_opens_nothing(rest: Seq<char>)
    ensures
        opened(span_end() + rest) == opened(rest),
{
    let m = span_end() + rest;
    assert(m[1] == '/');
    assert(!begins(m, span_name().push(' '))) by {
        if begins(m, span_name().push(' ')) {
            assert(m.take(span_name().push(' ').len() as int)[1] == m[1]);
        }
    }
    assert(!begins(m, span_name().push('>'))) by {
        if begins(m, span_name().push('>')) {
            assert(m.take(span_name().push('>').len() as int)[1] == m[1]);
        }
    }
    let tail = seq!['/', 's', 'p', 'a', 'n', '>'];
    assert(m.drop_first() =~= tail + rest);
    lemma_text_opens_nothing(tail, rest);
}

/// A span opens with its attributes.
proof fn lemma_span_opens(attrs: Seq<char>, text: Seq<char>, rest: Seq<char>)
    requires
        attrs.len() > 0,
        attrs[0] == ' ',
        forall|after: Seq<char>|
            #[trigger] after_tag(attrs + (seq!['>'] + after), false) == Some(after),
    ensures
        opened("<span"@ + attrs + ">"@ + escaped_text(text) + "</span>"@ + rest) == seq![attrs]
            + opened(rest),
{
    let m = "<span"@ + attrs + ">"@ + escaped_text(text) + "</span>"@ + rest;
    reveal_strlit("<span");
    reveal_strlit(">");
    reveal_strlit("</span>");
    assert("<span"@ =~= span_name());
    assert("</span>"@ =~= span_end());
    let inner = escaped_text(text) + (span_end() + rest);
    let tagged = attrs + (seq!['>'] + inner);
    assert(m =~= span_name() + tagged);
    assert(m.take(6) =~= span_name().push(' '));
    assert(m.skip(span_name().len() as int) =~= tagged);
    assert(after_tag(tagged, false) == Some(inner));
    assert(tagged.take(tagged.len() - inner.len() - 1) =~= attrs);
    lemma_escaped_text_is_inert(text);
    lemma_text_opens_nothing(escaped_text(text), span_end() + rest);
    lemma_end_opens_nothing(rest);
}

/// The attributes of the chunks that hold any text, in their order.
pub open spec fn stated(
    chunks: Seq<Chunk>,
    environment: Option<ResolvedColor>,
    sensitive: bool,
) -> Seq<Seq<char>> {
    chunks.filter(|chunk: Chunk| chunk.text@.len() > 0).map_values(
        |chunk: Chunk| markup_attrs(chunk.style, environment, sensitive),
    )
}

proof fn lemma_stated_grows(
    chunks: Seq<Chunk>,
    environment: Option<ResolvedColor>,
    sensitive: bool,
)
    ensures
        chunks.len() == 0 ==> stated(chunks, environment, sensitive) == Seq::<Seq<char>>::empty(),
        chunks.len() > 0 && chunks.last().text@.len() == 0 ==> stated(
            chunks,
            environment,
            sensitive,
        ) == stated(chunks.drop_last(), environment, sensitive),
        chunks.len() > 0 && chunks.last().text@.len() > 0 ==> stated(chunks, environment, sensitive)
            == stated(chunks.drop_last(), environment, sensitive).push(
            markup_attrs(chunks.last().style, environment, sensitive),
        ),
{
    reveal(Seq::filter);
    let all = stated(chunks, environment, sensitive);
    if chunks.len() == 0 {
        assert(all =~= seq![]);
    } else {
        let fewer = stated(chunks.drop_last(), environment, sensitive);
        if chunks.last().text@.len() == 0 {
            assert(all =~= fewer);
        } else {
            assert(all =~= fewer.push(markup_attrs(chunks.last().style, environment, sensitive)));
        }
    }
}

#[verifier::rlimit(40)]
proof fn lemma_markup_opens_from(
    chunks: Seq<Chunk>,
    environment: Option<ResolvedColor>,
    sensitive: bool,
    rest: Seq<char>,
)
    ensures
        opened(markup(chunks, environment, sensitive) + rest) == stated(
            chunks,
            environment,
            sensitive,
        ) + opened(rest),
    decreases chunks.len(),
{
    let m = markup(chunks, environment, sensitive);
    let all = stated(chunks, environment, sensitive);
    if chunks.len() == 0 {
        lemma_stated_grows(chunks, environment, sensitive);
        assert(m + rest =~= rest);
        assert(all + opened(rest) =~= opened(rest));
    } else {
        let before = markup(chunks.drop_last(), environment, sensitive);
        let fewer = stated(chunks.drop_last(), environment, sensitive);
        let chunk = chunks.last();
        let text = chunk.text@;
        if text.len() == 0 {
            lemma_markup_opens_from(chunks.drop_last(), environment, sensitive, rest);
            lemma_stated_grows(chunks, environment, sensitive);
        } else {
            let attrs = markup_attrs(chunk.style, environment, sensitive);
            let span = "<span"@ + attrs + ">"@ + escaped_text(text) + "</span>"@;
            lemma_grouped(before, "<span"@, attrs, ">"@, escaped_text(text), "</span>"@, rest);
            lemma_markup_opens_from(chunks.drop_last(), environment, sensitive, span + rest);
            lemma_attributes_end_the_tag(chunk.style, environment, sensitive);
            lemma_span_opens(attrs, text, rest);
            lemma_stated_grows(chunks, environment, sensitive);
            assert(all + opened(rest) =~= fewer + (seq![attrs] + opened(rest)));
        }
    }
}

/// The markup of chunks opens one span for each chunk that holds any text, in
/// their order, and each states the style of its own chunk.
pub proof fn lemma_each_chunk_has_its_span(
    chunks: Seq<Chunk>,
    environment: Option<ResolvedColor>,
    sensitive: bool,
)
    ensures
        opened(markup(chunks, environment, sensitive)) == stated(chunks, environment, sensitive),
{
    let m = markup(chunks, environment, sensitive);
    lemma_markup_opens_from(chunks, environment, sensitive, seq![]);
    assert(m + Seq::<char>::empty() =~= m);
    let all = stated(chunks, environment, sensitive);
    assert(all + Seq::<Seq<char>>::empty() =~= all);
}

/// The size of a font is stated in points with two places, no more than half a
/// hundredth off; a size below one counts as one.
pub proof fn lemma_size_is_stated_in_hundredths(size: Single)
    requires
        !Single::larger(size, Single { bits: ONE }).infinite(),
    ensures
        ({
            let text = size_text(size);
            let points = Single::larger(size, Single { bits: ONE }).value();
            let hundredths = 100 * numeral(text.take(text.len() - 3)) + numeral(
                text.skip(text.len() - 2),
            );
            &&& text.len() >= 4
            &&& text[text.len() - 3] == '.'
            &&& 200 * points - pow2(149) <= 2 * (hundredths * pow2(149)) <= 200 * points + pow2(149)
            &&& !size.nan() && size.value() >= pow2(149) ==> points == size.value()
            &&& size.nan() || size.value() <= pow2(149) ==> points == pow2(149)
        }),
{
    let one = Single { bits: ONE };
    let value = Single::larger(size, one);
    let h = round_half_even(value.units() * 100, pow2(149));
    lemma_constants();
    lemma_pow2_pos(149);
    lemma_larger_is_above_both(size, one);
    assert(!value.negative());
    lemma_round_half_even_is_nearest(value.units() * 100, pow2(149));
    lemma_decimal_reads_back(h / 100);
    reveal_strlit(".");
    let text = size_text(size);
    let front = decimal(h / 100);
    let back = seq![digit(h / 10 % 10), digit(h % 10)];
    assert(text == places(h));
    assert(text.take(text.len() - 3) =~= front);
    assert(text.skip(text.len() - 2) =~= back);
    reveal_with_fuel(numeral, 3);
    assert(back.drop_last() =~= seq![digit(h / 10 % 10)]);
    assert(back.drop_last().drop_last() =~= seq![]);
    assert(numeral(back) == h % 100);
}

/// Heavier weights have larger numbers, a hundred apart, from one hundred on.
pub proof fn lemma_weights_grow(weight: FontWeight)
    ensures
        pango_weight(FontWeight::Thin) == 100,
        pango_weight(FontWeight::UltraLight) == pango_weight(FontWeight::Thin) + 100,
        pango_weight(FontWeight::Light) == pango_weight(FontWeight::UltraLight) + 100,
        pango_weight(FontWeight::Normal) == pango_weight(FontWeight::Light) + 100,
        pango_weight(FontWeight::Medium) == pango_weight(FontWeight::Normal) + 100,
        pango_weight(FontWeight::SemiBold) == pango_weight(FontWeight::Medium) + 100,
        pango_weight(FontWeight::Bold) == pango_weight(FontWeight::SemiBold) + 100,
        pango_weight(FontWeight::UltraBold) == pango_weight(FontWeight::Bold) + 100,
        pango_weight(FontWeight::Black) == pango_weight(FontWeight::UltraBold) + 100,
        100 <= pango_weight(weight) <= 900,
{
}

/// The opacity of a color is the byte nearest to its share of the whole: none at
/// zero or below, full from one on.
pub proof fn lemma_opacity_is_nearest(alpha: Single)
    ensures
        ({
            let scaled = Single::product(alpha, Single::of_int(255));
            let byte = alpha_byte(alpha) as int;
            &&& scaled.nan() || scaled.negative() ==> byte == 0
            &&& !scaled.nan() && !scaled.negative() && byte < 255 ==> (2 * byte - 1) * pow2(149)
                <= 2 * scaled.value() < (2 * byte + 1) * pow2(149)
            &&& !scaled.nan() && byte == 255 ==> 509 * pow2(149) <= 2 * scaled.value()
        }),
{
    let scaled = Single::product(alpha, Single::of_int(255));
    let d = pow2(149) as int;
    lemma_pow2_pos(149);
    lemma_rounded_is_nearest(scaled);
    lemma_rounded_is_nearest(scaled.negated());
    let r = scaled.rounded();
    if r > 255 {
        assert((2 * r - 1) * d >= 509 * d) by (nonlinear_arith)
            requires
                r >= 255,
                d > 0,
        ;
    }
}

/// The notation of a color stands for its three parts.
pub proof fn lemma_notation_states_the_color(color: ResolvedColor)
    ensures
        color_of(hex_notation(color)) == Some(
            (color.red as int, color.green as int, color.blue as int, 255int),
        ),
{
    reveal_strlit("#");
    let v = hex_notation(color);
    assert("#"@ =~= seq!['#']);
    assert(v.len() == 7 && v[0] == '#');
    lemma_byte_at(v, 1, color.red);
    lemma_byte_at(v, 3, color.green);
    lemma_byte_at(v, 5, color.blue);
}

} // verus!
