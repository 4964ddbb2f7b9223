//! Colouring text for the terminal, and what can be said of the outcome
//! whether colours are switched on or off.

use colored::{ColoredString, Colorize};
use crate::text::{occurs_at, to_chars, to_string};
use vstd::prelude::*;

verus! {

/// How a piece of a report is to be shown.
#[derive(Clone, Copy, Debug, PartialEq, Eq, Structural)]
pub enum Paint {
    Plain,
    Red,
    RedBold,
    Yellow,
    YellowBold,
    Cyan,
    CyanBold,
    Blue,
    BlueBold,
}

impl DeepView for Paint {
    type V = Paint;

    open spec fn deep_view(&self) -> Paint {
        *self
    }
}

/// `colored::ColoredString`: a text with a colour and a style. Nothing of
/// its inside is known here.
#[verifier::external_type_specification]
#[verifier::external_body]
pub struct ExColoredString(ColoredString);

/// The text that a coloured string holds (its field `input`): the text it
/// was made from.
pub uninterp spec fn painted_text(c: ColoredString) -> Seq<char>;

/// `text` holds the escape character.
pub open spec fn has_escape(text: Seq<char>) -> bool {
    text.contains('\u{1b}')
}

/// `text` stands somewhere in `shown`, unbroken.
pub open spec fn wraps(shown: Seq<char>, text: Seq<char>) -> bool {
    exists|i: int| occurs_at(shown, text, i)
}

/// `shown` may be what comes of showing `text` in `paint`: the text itself
/// where it is plain; otherwise something that holds the text unbroken,
/// unless the text brings escape sequences of its own.
pub open spec fn may_show(paint: Paint, text: Seq<char>, shown: Seq<char>) -> bool {
    if paint == Paint::Plain {
        shown == text
    } else {
        has_escape(text) || wraps(shown, text)
    }
}

/// `Colorize::red` on a string slice: a coloured string made from `text`.
#[verifier::external_body]
fn red(text: &str) -> (c: ColoredString)
    ensures
        painted_text(c) == text@,
{
    text.red()
}

/// `Colorize::yellow` on a string slice: a coloured string made from `text`.
#[verifier::external_body]
fn yellow(text: &str) -> (c: ColoredString)
    ensures
        painted_text(c) == text@,
{
    text.yellow()
}

/// `Colorize::cyan` on a string slice: a coloured string made from `text`.
#[verifier::external_body]
fn cyan(text: &str) -> (c: ColoredString)
    ensures
        painted_text(c) == text@,
{
    text.cyan()
}

/// `Colorize::blue` on a string slice: a coloured string made from `text`.
#[verifier::external_body]
fn blue(text: &str) -> (c: ColoredString)
    ensures
        painted_text(c) == text@,
{
    text.blue()
}

/// `Colorize::bold` on a coloured string: adds a style and keeps the text.
#[verifier::external_body]
fn bold(c: ColoredString) -> (r: ColoredString)
    ensures
        painted_text(r) == painted_text(c),
{
    c.bold()
}

/// `ToString::to_string` on a coloured string: with colours off, the text;
/// with colours on, the text between a style sequence and a reset sequence.
/// A text that holds reset sequences of its own is changed inside, so
/// nothing is claimed of a text with an escape character.
#[verifier::external_body]
fn shown(c: &ColoredString) -> (s: String)
    ensures
        has_escape(painted_text(*c)) || wraps(s@, painted_text(*c)),
{
    c.to_string()
}

/// Shows `text` in `paint`.
pub fn show(text: &Vec<char>, how: Paint) -> (r: Vec<char>)
    ensures
        may_show(how, text@, r@),
{
    let plain = to_string(text);
    let s = plain.as_str();
    let coloured = match how {
        Paint::Plain => {
            return to_chars(s);
        },
        Paint::Red => red(s),
        Paint::RedBold => bold(red(s)),
        Paint::Yellow => yellow(s),
        Paint::YellowBold => bold(yellow(s)),
        Paint::Cyan => cyan(s),
        Paint::CyanBold => bold(cyan(s)),
        Paint::Blue => blue(s),
        Paint::BlueBold => bold(blue(s)),
    };
    let out = shown(&coloured);
    to_chars(out.as_str())
}

} // verus!
