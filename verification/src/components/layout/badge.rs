//! A count shown on the corner of another view: a dot for zero, a pill with the
//! number otherwise.

use crate::layout::widget::Margins;
use crate::text::{decimal_text, lemma_signed_decimal_reads_back, signed_decimal, signed_numeral};
use vstd::prelude::*;

verus! {

/// The side of the dot, in pixels.
pub const DOT_SIZE: i32 = 6;

/// The least side of the pill, in pixels.
pub const PILL_SIZE: i32 = 16;

/// What the label of a badge shows.
#[derive(Debug)]
pub struct BadgeContent {
    pub text: String,
    /// The size to be requested on both axes, `-1` for none.
    pub size_request: i32,
    pub declarations: String,
}

/// The style of a badge of the given value on the given background.
pub open spec fn badge_style(value: i32, background: Seq<char>) -> Seq<char> {
    if value == 0 {
        "border-radius: 999px; padding: 0; background-color: "@ + background + ";"@
    } else {
        "border-radius: 999px; padding: 0 5px; min-width: "@ + signed_decimal(PILL_SIZE as int)
            + "px; min-height: "@ + signed_decimal(PILL_SIZE as int)
            + "px; font-size: 11px; font-weight: bold; color: #ffffff; background-color: "@
            + background + ";"@
    }
}

/// The style of a badge of the given value on the given background, a color in
/// the notation of style sheets.
pub fn badge_declarations(value: i32, background: &str) -> (r: String)
    ensures
        r@ == badge_style(value, background@),
{
    let mut text: String = String::from_str(
        if value == 0 {
            "border-radius: 999px; padding: 0; background-color: "
        } else {
            "border-radius: 999px; padding: 0 5px; min-width: "
        },
    );
    if value != 0 {
        text.append(decimal_text(PILL_SIZE).as_str());
        text.append("px; min-height: ");
        text.append(decimal_text(PILL_SIZE).as_str());
        text.append("px; font-size: 11px; font-weight: bold; color: #ffffff; background-color: ");
    }
    text.append(background);
    text.append(";");
    text
}

/// The text of a badge.
pub open spec fn badge_text(value: i32) -> Seq<char> {
    if value == 0 {
        seq![]
    } else {
        signed_decimal(value as int)
    }
}

/// The size that a badge requests.
pub open spec fn badge_request(value: i32) -> int {
    if value == 0 {
        DOT_SIZE as int
    } else {
        -1
    }
}

/// What the label of a badge shows: nothing in a box of the dot's size for
/// zero, else the number in a box that fits it.
pub fn apply_badge(value: i32, background: &str) -> (r: BadgeContent)
    ensures
        r.text@ == badge_text(value),
        r.size_request == badge_request(value),
        r.declarations@ == badge_style(value, background@),
{
    let declarations: String = badge_declarations(value, background);
    if value == 0 {
        BadgeContent { text: String::new(), size_request: DOT_SIZE, declarations }
    } else {
        BadgeContent { text: decimal_text(value), size_request: -1, declarations }
    }
}

/// The margins that let a badge hang over its corner by half the dot.
pub fn badge_margins() -> (r: Margins)
    ensures
        r == (Margins { start: 0, end: -3i32, top: -3i32, bottom: 0 }),
{
    Margins { start: 0, end: -(DOT_SIZE / 2), top: -(DOT_SIZE / 2), bottom: 0 }
}

/// A badge shows its number, which can be read off it, and fits it; zero is a
/// dot without text in a box of the dot's own size.
pub proof fn lemma_badge_shows_its_number(value: i32)
    ensures
        value != 0 ==> signed_numeral(badge_text(value)) == value && badge_request(value) == -1,
        value == 0 ==> badge_text(value).len() == 0 && badge_request(value) == DOT_SIZE,
        badge_text(value).len() == 0 <==> value == 0,
{
    lemma_signed_decimal_reads_back(value as int);
}

/// All numbers but zero look alike, and every badge ends in its own background.
pub proof fn lemma_badges_look_alike(a: i32, b: i32, background: Seq<char>)
    ensures
        a != 0 && b != 0 ==> badge_style(a, background) == badge_style(b, background),
        badge_style(a, background).len() > background.len(),
        badge_style(a, background).subrange(
            badge_style(a, background).len() - background.len() - 1,
            badge_style(a, background).len() - 1,
        ) == background,
{
    let style = badge_style(a, background);
    reveal_strlit(";");
    assert(style.subrange(style.len() - background.len() - 1, style.len() - 1) =~= background);
}

} // verus!
