//! How the components of a cell format are written as XML.
//!
//! Each component has one spelling, so that equal components give equal
//! text and are found again in the lists of a style sheet.

use vstd::prelude::*;
use crate::attrs::{escaped, push_escaped};
use crate::bytes::{append, append_lit, decimal, lit, push_decimal};
use crate::style::{Alignment, Border, BorderStyle, Fill, Font, HorizontalAlignment};
use crate::xml::is_space;

verus! {

/// The digit for a value below sixteen, in capitals.
pub open spec fn hex_digit(d: nat) -> u8 {
    if d < 10 {
        (48 + d) as u8
    } else {
        (55 + d) as u8
    }
}

/// The last `width` hexadecimal digits of `n`.
pub open spec fn hex(n: nat, width: nat) -> Seq<u8>
    decreases width,
{
    if width == 0 {
        Seq::<u8>::empty()
    } else {
        hex(n / 16, (width - 1) as nat).push(hex_digit(n % 16))
    }
}

/// Appends the last `width` hexadecimal digits of `n`.
pub fn push_hex(out: &mut Vec<u8>, n: u32, width: u8)
    ensures
        final(out)@ == old(out)@ + hex(n as nat, width as nat),
    decreases width,
{
    if width > 0 {
        push_hex(out, n / 16, width - 1);
        let d: u8 = (n % 16) as u8;
        if d < 10 {
            out.push(48u8 + d);
        } else {
            out.push(55u8 + d);
        }
    }
    assert(out@ =~= old(out)@ + hex(n as nat, width as nat));
}

/// A colour element: `<color rgb="AARRGGBB"/>`, or under another name.
pub open spec fn color_xml(open: Seq<u8>, color: u32) -> Seq<u8> {
    open + hex(color as nat, 8) + lit("\"/>")
}

/// Whether a font says nothing: such a font is the workbook's own.
pub open spec fn font_is_plain(f: Font) -> bool {
    !f.bold && !f.italic && f.color is None
}

/// A font entry.
#[verifier::opaque]
pub open spec fn font_xml(f: Font) -> Seq<u8> {
    lit("<font>") + (if f.bold {
        lit("<b/>")
    } else {
        Seq::<u8>::empty()
    }) + (if f.italic {
        lit("<i/>")
    } else {
        Seq::<u8>::empty()
    }) + (match f.color {
        Some(c) => color_xml(lit("<color rgb=\""), c),
        None => Seq::<u8>::empty(),
    }) + lit("</font>")
}

/// A fill entry.
#[verifier::opaque]
pub open spec fn fill_xml(f: Fill) -> Seq<u8> {
    match f.color {
        Some(c) => lit("<fill><patternFill patternType=\"solid\">") + color_xml(
            lit("<fgColor rgb=\""),
            c,
        ) + lit("</patternFill></fill>"),
        None => lit("<fill><patternFill patternType=\"none\"/></fill>"),
    }
}

/// The name of a line weight.
pub open spec fn line_name(style: BorderStyle) -> Seq<u8> {
    match style {
        BorderStyle::NoLine => lit("none"),
        BorderStyle::Thin => lit("thin"),
        BorderStyle::Medium => lit("medium"),
        BorderStyle::Thick => lit("thick"),
    }
}

/// One side of a border.
pub open spec fn side_xml(side: Seq<u8>, b: Border) -> Seq<u8> {
    lit("<") + side + lit(" style=\"") + line_name(b.style) + lit("\">") + (match b.color {
        Some(c) => color_xml(lit("<color rgb=\""), c),
        None => lit("<color auto=\"1\"/>"),
    }) + lit("</") + side + lit(">")
}

/// A border entry.
#[verifier::opaque]
pub open spec fn border_xml(b: Border) -> Seq<u8> {
    lit("<border>") + side_xml(lit("left"), b) + side_xml(lit("right"), b) + side_xml(
        lit("top"),
        b,
    ) + side_xml(lit("bottom"), b) + lit("<diagonal/></border>")
}

/// Whether an alignment says nothing.
pub open spec fn alignment_is_plain(a: Alignment) -> bool {
    a.horizontal == HorizontalAlignment::General && !a.wrap
}

/// The name of a horizontal alignment.
pub open spec fn horizontal_name(h: HorizontalAlignment) -> Seq<u8> {
    match h {
        HorizontalAlignment::General => lit("general"),
        HorizontalAlignment::Left => lit("left"),
        HorizontalAlignment::Center => lit("center"),
        HorizontalAlignment::Right => lit("right"),
    }
}

/// An alignment element.
pub open spec fn alignment_xml(a: Alignment) -> Seq<u8> {
    lit("<alignment horizontal=\"") + horizontal_name(a.horizontal) + (if a.wrap {
        lit("\" wrapText=\"1\"/>")
    } else {
        lit("\"/>")
    })
}

/// A flag that is written only for a component that is not entry 0.
pub open spec fn apply_flag(id: nat, flag: Seq<u8>) -> Seq<u8> {
    if id == 0 {
        Seq::<u8>::empty()
    } else {
        flag
    }
}

/// A cell format entry: the ids of its number format, font, fill and
/// border, and its alignment.
#[verifier::opaque]
pub open spec fn xf_xml(num_fmt: u32, font: usize, fill: usize, border: usize, a: Alignment) -> Seq<
    u8,
> {
    lit("<xf numFmtId=\"") + decimal(num_fmt as nat) + lit("\" fontId=\"") + decimal(font as nat)
        + lit("\" fillId=\"") + decimal(fill as nat) + lit("\" borderId=\"") + decimal(
        border as nat,
    ) + lit("\" xfId=\"0\"") + apply_flag(num_fmt as nat, lit(" applyNumberFormat=\"1\""))
        + apply_flag(font as nat, lit(" applyFont=\"1\"")) + apply_flag(
        fill as nat,
        lit(" applyFill=\"1\""),
    ) + apply_flag(border as nat, lit(" applyBorder=\"1\"")) + (if alignment_is_plain(a) {
        lit("/>")
    } else {
        lit(" applyAlignment=\"1\">") + alignment_xml(a) + lit("</xf>")
    })
}

/// A number format entry. The code is written as it stands in the table,
/// which holds codes in their escaped form.
pub open spec fn num_fmt_xml(id: u32, code: Seq<u8>) -> Seq<u8> {
    lit("<numFmt numFmtId=\"") + decimal(id as nat) + lit("\" formatCode=\"") + code + lit(
        "\"/>",
    )
}

/// Whether text starts or ends with white space, which a reader would
/// drop unless it is told to keep it.
pub open spec fn needs_preserve(text: Seq<u8>) -> bool {
    text.len() > 0 && (is_space(text[0]) || is_space(text.last()))
}

/// Plain text as a `t` element.
pub open spec fn text_xml(text: Seq<u8>) -> Seq<u8> {
    (if needs_preserve(text) {
        lit("<t xml:space=\"preserve\">")
    } else {
        lit("<t>")
    }) + escaped(text) + lit("</t>")
}

/// A shared string entry for plain text.
pub open spec fn string_xml(text: Seq<u8>) -> Seq<u8> {
    lit("<si>") + text_xml(text) + lit("</si>")
}

/// Writes a colour element.
fn push_color(out: &mut Vec<u8>, open: &str, color: u32)
    ensures
        final(out)@ == old(out)@ + color_xml(lit(open), color),
{
    append_lit(out, open);
    push_hex(out, color, 8);
    append_lit(out, "\"/>");
    assert(out@ =~= old(out)@ + color_xml(lit(open), color));
}

/// Writes a font entry.
pub fn render_font(f: &Font) -> (xml: Vec<u8>)
    ensures
        xml@ == font_xml(*f),
{
    reveal(font_xml);
    let mut out: Vec<u8> = Vec::new();
    append_lit(&mut out, "<font>");
    if f.bold {
        append_lit(&mut out, "<b/>");
    }
    if f.italic {
        append_lit(&mut out, "<i/>");
    }
    match f.color {
        Some(c) => {
            push_color(&mut out, "<color rgb=\"", c);
        },
        None => {},
    }
    append_lit(&mut out, "</font>");
    assert(out@ =~= font_xml(*f));
    out
}

/// Writes a fill entry.
pub fn render_fill(f: &Fill) -> (xml: Vec<u8>)
    ensures
        xml@ == fill_xml(*f),
{
    reveal(fill_xml);
    let mut out: Vec<u8> = Vec::new();
    match f.color {
        Some(c) => {
            append_lit(&mut out, "<fill><patternFill patternType=\"solid\">");
            push_color(&mut out, "<fgColor rgb=\"", c);
            append_lit(&mut out, "</patternFill></fill>");
        },
        None => {
            append_lit(&mut out, "<fill><patternFill patternType=\"none\"/></fill>");
        },
    }
    assert(out@ =~= fill_xml(*f));
    out
}

/// The name of a line weight.
fn line_word(style: BorderStyle) -> (word: &'static str)
    ensures
        lit(word) == line_name(style),
{
    match style {
        BorderStyle::NoLine => "none",
        BorderStyle::Thin => "thin",
        BorderStyle::Medium => "medium",
        BorderStyle::Thick => "thick",
    }
}

/// Writes one side of a border.
fn push_side(out: &mut Vec<u8>, side: &str, b: &Border)
    ensures
        final(out)@ == old(out)@ + side_xml(lit(side), *b),
{
    append_lit(out, "<");
    append_lit(out, side);
    append_lit(out, " style=\"");
    append_lit(out, line_word(b.style));
    append_lit(out, "\">");
    match b.color {
        Some(c) => {
            push_color(out, "<color rgb=\"", c);
        },
        None => {
            append_lit(out, "<color auto=\"1\"/>");
        },
    }
    append_lit(out, "</");
    append_lit(out, side);
    append_lit(out, ">");
    assert(out@ =~= old(out)@ + side_xml(lit(side), *b));
}

/// Writes a border entry.
pub fn render_border(b: &Border) -> (xml: Vec<u8>)
    ensures
        xml@ == border_xml(*b),
{
    reveal(border_xml);
    let mut out: Vec<u8> = Vec::new();
    append_lit(&mut out, "<border>");
    push_side(&mut out, "left", b);
    push_side(&mut out, "right", b);
    push_side(&mut out, "top", b);
    push_side(&mut out, "bottom", b);
    append_lit(&mut out, "<diagonal/></border>");
    assert(out@ =~= border_xml(*b));
    out
}

/// The name of a horizontal alignment.
fn horizontal_word(h: HorizontalAlignment) -> (word: &'static str)
    ensures
        lit(word) == horizontal_name(h),
{
    match h {
        HorizontalAlignment::General => "general",
        HorizontalAlignment::Left => "left",
        HorizontalAlignment::Center => "center",
        HorizontalAlignment::Right => "right",
    }
}

/// Whether an alignment says nothing.
pub fn is_plain_alignment(a: &Alignment) -> (plain: bool)
    ensures
        plain == alignment_is_plain(*a),
{
    let general = match a.horizontal {
        HorizontalAlignment::General => true,
        _ => false,
    };
    general && !a.wrap
}

/// Appends a flag if `id` is not 0.
fn push_flag(out: &mut Vec<u8>, id: usize, flag: &str)
    ensures
        final(out)@ == old(out)@ + apply_flag(id as nat, lit(flag)),
{
    if id != 0 {
        append_lit(out, flag);
    }
    assert(out@ =~= old(out)@ + apply_flag(id as nat, lit(flag)));
}

/// Writes a cell format entry.
pub fn render_xf(num_fmt: u32, font: usize, fill: usize, border: usize, a: &Alignment) -> (xml:
    Vec<u8>)
    ensures
        xml@ == xf_xml(num_fmt, font, fill, border, *a),
{
    reveal(xf_xml);
    let mut out: Vec<u8> = Vec::new();
    append_lit(&mut out, "<xf numFmtId=\"");
    push_decimal(&mut out, num_fmt as u64);
    append_lit(&mut out, "\" fontId=\"");
    push_decimal(&mut out, font as u64);
    append_lit(&mut out, "\" fillId=\"");
    push_decimal(&mut out, fill as u64);
    append_lit(&mut out, "\" borderId=\"");
    push_decimal(&mut out, border as u64);
    append_lit(&mut out, "\" xfId=\"0\"");
    push_flag(&mut out, num_fmt as usize, " applyNumberFormat=\"1\"");
    push_flag(&mut out, font, " applyFont=\"1\"");
    push_flag(&mut out, fill, " applyFill=\"1\"");
    push_flag(&mut out, border, " applyBorder=\"1\"");
    if is_plain_alignment(a) {
        append_lit(&mut out, "/>");
    } else {
        append_lit(&mut out, " applyAlignment=\"1\">");
        append_lit(&mut out, "<alignment horizontal=\"");
        append_lit(&mut out, horizontal_word(a.horizontal));
        if a.wrap {
            append_lit(&mut out, "\" wrapText=\"1\"/>");
        } else {
            append_lit(&mut out, "\"/>");
        }
        append_lit(&mut out, "</xf>");
    }
    assert(out@ =~= xf_xml(num_fmt, font, fill, border, *a));
    out
}

/// Writes a number format entry.
pub fn render_num_fmt(id: u32, code: &[u8]) -> (xml: Vec<u8>)
    ensures
        xml@ == num_fmt_xml(id, code@),
{
    let mut out: Vec<u8> = Vec::new();
    append_lit(&mut out, "<numFmt numFmtId=\"");
    push_decimal(&mut out, id as u64);
    append_lit(&mut out, "\" formatCode=\"");
    append(&mut out, code);
    append_lit(&mut out, "\"/>");
    assert(out@ =~= num_fmt_xml(id, code@));
    out
}

/// Whether a byte is white space.
fn blank(b: u8) -> (yes: bool)
    ensures
        yes == is_space(b),
{
    b == 32 || b == 9 || b == 10 || b == 13
}

/// Appends plain text as a `t` element.
pub fn push_text(out: &mut Vec<u8>, text: &[u8])
    ensures
        final(out)@ == old(out)@ + text_xml(text@),
{
    let n: usize = text.len();
    if n > 0 && (blank(text[0]) || blank(text[n - 1])) {
        append_lit(out, "<t xml:space=\"preserve\">");
    } else {
        append_lit(out, "<t>");
    }
    push_escaped(out, text);
    append_lit(out, "</t>");
    assert(out@ =~= old(out)@ + text_xml(text@));
}

/// Writes a shared string entry for plain text.
pub fn render_string(text: &[u8]) -> (xml: Vec<u8>)
    ensures
        xml@ == string_xml(text@),
{
    let mut out: Vec<u8> = Vec::new();
    append_lit(&mut out, "<si>");
    push_text(&mut out, text);
    append_lit(&mut out, "</si>");
    assert(out@ =~= string_xml(text@));
    out
}

} // verus!
