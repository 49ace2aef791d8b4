//! The look of the overlay window: its style sheet and its footer.
use crate::numbers::{decimal, decimal_text};
use crate::text::same_text;
use vstd::prelude::*;
use vstd::string::StringExecFns;

verus! {

// ---- The style sheet --------------------------------------------------------

/// The values that a theme and a palette give the launcher. Colours are written
/// as CSS writes them, lengths as numbers of pixels.
#[derive(Debug)]
pub struct LauncherStyle {
    /// The colour of the panel, with its opacity.
    pub panel_background: String,
    /// The colour of text that is legible on the panel.
    pub ink: String,
    /// The colour of the caret.
    pub accent: String,
    /// The colour of the line below the search box.
    pub hairline: String,
    /// The colour of a selected row.
    pub selection: String,
    /// The radius of the corners of the panel.
    pub radius: String,
    /// The font.
    pub font_family: String,
    /// The fonts that stand in for it.
    pub font_fallback: String,
    /// The size of the text in a row.
    pub row_font_size: String,
    /// The space above and below the text in a row.
    pub row_padding_v: String,
    /// The space beside the text in a row.
    pub row_padding_h: String,
    /// The space beside a row.
    pub row_inset: String,
    /// The radius of the corners of a row.
    pub row_radius: String,
    /// The radius of the corners of an icon.
    pub icon_radius: String,
    /// The space above and below the text in the search box.
    pub search_padding_v: String,
    /// The space beside the text in the search box.
    pub search_padding_h: String,
    /// The size of the text in the search box.
    pub search_font_size: String,
    /// Whether the list has headings. Where it has, the footer is in upper case.
    pub sections: bool,
}

/// What stands between the radius of the panel and its font.
pub const PANEL_SHADOW: &'static str = "px;\
    /* NO drop shadow. In a browser `backdrop-filter` blurs only the\
    element's own box, so the demo's shadow is free. Hyprland\
    blurs any surface pixel above `ignore_alpha` (0.2), and a\
    32px shadow at 0.6 alpha is far above it — so the compositor\
    blurred the shadow as well, painting a rectangular blurred\
    halo around the rounded panel. That halo is the \"blur\
    backdrop whose radius doesn't match the content\" problem.\
    The blur behind a 0.95-opaque panel already gives plenty of\
    separation; the shadow only fought it. */\
    font-family: \"";

/// What stands before the rule for images.
pub const ICON_NOTE: &'static str = "/* No background tile: these are real app icons, not the demo's\
    placeholder .ico boxes. A tint behind a real icon reads as a\
    failed/unloaded image. */";

/// The rules for headings.
pub const HEADINGS: &'static str = "/* \"Recent\"/\"Apps\" headers (`[launcher].sections`, liquid-motion\
    only — glass-workbench's flat list never builds these rows). */\
    .section-header-label { font-size: 10px; letter-spacing: 0.14em;\
    text-transform: uppercase; font-weight: 600; opacity: 0.45; }\
    .bread-drawer-section-header { padding: 11px 16px 5px; }";

/// The rule for the window.
pub open spec fn window_rule() -> Seq<char> {
    "window { background-color: transparent; }"@
}

fn write_window_rule() -> (r: String)
    ensures
        r@ == window_rule(),
{
    "window { background-color: transparent; }".to_string()
}

/// The rule for the panel.
pub open spec fn panel_rule(style: &LauncherStyle) -> Seq<char> {
    ".launcher-bg { background-color: "@ + style.panel_background@ + "; color: "@ + style.ink@
        + "; border-radius: "@ + style.radius@ + PANEL_SHADOW@ + style.font_family@ + "\", "@
        + style.font_fallback@ + "; }"@
}

fn write_panel_rule(style: &LauncherStyle) -> (r: String)
    ensures
        r@ == panel_rule(style),
{
    let mut out = ".launcher-bg { background-color: ".to_string();
    out.append(style.panel_background.as_str());
    out.append("; color: ");
    out.append(style.ink.as_str());
    out.append("; border-radius: ");
    out.append(style.radius.as_str());
    out.append(PANEL_SHADOW);
    out.append(style.font_family.as_str());
    out.append("\", ");
    out.append(style.font_fallback.as_str());
    out.append("; }");
    out
}

/// The rule for the search box.
pub open spec fn search_rule(style: &LauncherStyle) -> Seq<char> {
    "entry.search { background-color: transparent; color: "@ + style.ink@ + "; caret-color: "@
        + style.accent@
        + ";border: none; outline: none; box-shadow: none; border-radius: 0;border-bottom: 1px solid "@
        + style.hairline@ + ";padding: "@ + style.search_padding_v@ + "px "@
        + style.search_padding_h@ + "px; font-size: "@ + style.search_font_size@ + "px; }"@
}

fn write_search_rule(style: &LauncherStyle) -> (r: String)
    ensures
        r@ == search_rule(style),
{
    let mut out = "entry.search { background-color: transparent; color: ".to_string();
    out.append(style.ink.as_str());
    out.append("; caret-color: ");
    out.append(style.accent.as_str());
    out.append(";border: none; outline: none; box-shadow: none; border-radius: 0;border-bottom: 1px solid ");
    out.append(style.hairline.as_str());
    out.append(";padding: ");
    out.append(style.search_padding_v.as_str());
    out.append("px ");
    out.append(style.search_padding_h.as_str());
    out.append("px; font-size: ");
    out.append(style.search_font_size.as_str());
    out.append("px; }");
    out
}

/// The rule for the search box in focus.
pub open spec fn focus_rule(style: &LauncherStyle) -> Seq<char> {
    "entry.search:focus, entry.search:focus-within {outline: none; box-shadow: none; border-color: transparent;border-bottom: 1px solid "@
        + style.hairline@ + "; }"@
}

fn write_focus_rule(style: &LauncherStyle) -> (r: String)
    ensures
        r@ == focus_rule(style),
{
    let mut out = "entry.search:focus, entry.search:focus-within {outline: none; box-shadow: none; border-color: transparent;border-bottom: 1px solid ".to_string();
    out.append(style.hairline.as_str());
    out.append("; }");
    out
}

/// The rules for the list and its rows.
pub open spec fn row_rule(style: &LauncherStyle) -> Seq<char> {
    "list { background-color: transparent; padding: 4px 0; }row { padding: "@
        + style.row_padding_v@ + "px "@ + style.row_padding_h@ + "px; margin: 0 "@
        + style.row_inset@ + "px; color: "@ + style.ink@
        + ";background-color: transparent; border-radius: "@ + style.row_radius@
        + "px;font-size: "@ + style.row_font_size@ + "px; }"@
}

fn write_row_rule(style: &LauncherStyle) -> (r: String)
    ensures
        r@ == row_rule(style),
{
    let mut out = "list { background-color: transparent; padding: 4px 0; }row { padding: ".to_string();
    out.append(style.row_padding_v.as_str());
    out.append("px ");
    out.append(style.row_padding_h.as_str());
    out.append("px; margin: 0 ");
    out.append(style.row_inset.as_str());
    out.append("px; color: ");
    out.append(style.ink.as_str());
    out.append(";background-color: transparent; border-radius: ");
    out.append(style.row_radius.as_str());
    out.append("px;font-size: ");
    out.append(style.row_font_size.as_str());
    out.append("px; }");
    out
}

/// The rules for selected rows and muted text.
pub open spec fn selection_rule(style: &LauncherStyle) -> Seq<char> {
    "row:hover, row:selected { background-color: "@ + style.selection@ + "; color: "@ + style.ink@
        + "; }.app-muted { opacity: 0.4; font-size: 11px; }"@
}

fn write_selection_rule(style: &LauncherStyle) -> (r: String)
    ensures
        r@ == selection_rule(style),
{
    let mut out = "row:hover, row:selected { background-color: ".to_string();
    out.append(style.selection.as_str());
    out.append("; color: ");
    out.append(style.ink.as_str());
    out.append("; }.app-muted { opacity: 0.4; font-size: 11px; }");
    out
}

/// The rule for icons.
pub open spec fn icon_rule(style: &LauncherStyle) -> Seq<char> {
    ICON_NOTE@ + "image { margin-right: 8px; border-radius: "@ + style.icon_radius@ + "px; }"@
}

fn write_icon_rule(style: &LauncherStyle) -> (r: String)
    ensures
        r@ == icon_rule(style),
{
    let mut out = ICON_NOTE.to_string();
    out.append("image { margin-right: 8px; border-radius: ");
    out.append(style.icon_radius.as_str());
    out.append("px; }");
    out
}

/// The letters of the footer.
pub open spec fn footer_case(sections: bool) -> Seq<char> {
    if sections {
        "text-transform: uppercase; letter-spacing: 0.12em;"@
    } else {
        seq![]
    }
}

/// The rule for the footer.
pub open spec fn footer_rule(style: &LauncherStyle) -> Seq<char> {
    ".launcher-footer { padding: 8px 16px 12px; font-size: 10px; opacity: 0.4;"@ + footer_case(
        style.sections,
    ) + " }"@
}

fn write_footer_rule(style: &LauncherStyle) -> (r: String)
    ensures
        r@ == footer_rule(style),
{
    let mut out = ".launcher-footer { padding: 8px 16px 12px; font-size: 10px; opacity: 0.4;".to_string();
    if style.sections {
        out.append("text-transform: uppercase; letter-spacing: 0.12em;");
    }
    out.append(" }");
    proof {
        assert(out@ =~= footer_rule(style));
    }
    out
}

/// The style sheet of the launcher.
pub open spec fn css_text(style: &LauncherStyle) -> Seq<char> {
    window_rule() + panel_rule(style) + search_rule(style) + focus_rule(style) + row_rule(style)
        + selection_rule(style) + icon_rule(style) + HEADINGS@ + footer_rule(style)
}

/// Writes the style sheet of the launcher.
pub fn build_css(style: &LauncherStyle) -> (r: String)
    ensures
        r@ == css_text(style),
{
    let mut out = write_window_rule();
    out.append(write_panel_rule(style).as_str());
    out.append(write_search_rule(style).as_str());
    out.append(write_focus_rule(style).as_str());
    out.append(write_row_rule(style).as_str());
    out.append(write_selection_rule(style).as_str());
    out.append(write_icon_rule(style).as_str());
    out.append(HEADINGS);
    out.append(write_footer_rule(style).as_str());
    out
}

// ---- The footer -------------------------------------------------------------

/// The text of the footer: the number of rows and what they are called, which is
/// applications where the theme asks for that, else results.
pub open spec fn footer(kind: Seq<char>, n: nat) -> Seq<char> {
    let noun = if kind == "count_apps"@ {
        "application"@
    } else {
        "result"@
    };
    if n == 1 {
        "1 "@ + noun
    } else {
        decimal(n) + " "@ + noun + "s"@
    }
}

/// Writes the footer for `n` rows.
pub fn footer_text(footer_kind: &str, n: usize) -> (r: String)
    ensures
        r@ == footer(footer_kind@, n as nat),
{
    let noun = if same_text(footer_kind, "count_apps") {
        "application"
    } else {
        "result"
    };
    if n == 1 {
        let mut out = "1 ".to_string();
        out.append(noun);
        out
    } else {
        let mut out = decimal_text(n as u64);
        out.append(" ");
        out.append(noun);
        out.append("s");
        out
    }
}

// ---- Laws -------------------------------------------------------------------

/// The footer is the number, and the noun that the theme asks for, in the plural
/// unless the number is one. A theme that asks for no known noun gets results.
pub proof fn law_footer_counts(kind: Seq<char>, n: nat)
    ensures
        n != 1 ==> footer("count_apps"@, n) == decimal(n) + " applications"@,
        footer("count_apps"@, 1) == decimal(1) + " application"@,
        n != 1 && kind != "count_apps"@ ==> footer(kind, n) == decimal(n) + " results"@,
        kind != "count_apps"@ ==> footer(kind, 1) == decimal(1) + " result"@,
{
    reveal_strlit("1 ");
    reveal_strlit(" ");
    reveal_strlit("s");
    reveal_strlit("application");
    reveal_strlit("result");
    reveal_strlit(" applications");
    reveal_strlit(" application");
    reveal_strlit(" results");
    reveal_strlit(" result");
    assert(decimal(n) + " "@ + "application"@ + "s"@ =~= decimal(n) + " applications"@);
    assert(decimal(n) + " "@ + "result"@ + "s"@ =~= decimal(n) + " results"@);
    assert("1 "@ + "application"@ =~= decimal(1) + " application"@);
    assert("1 "@ + "result"@ =~= decimal(1) + " result"@);
}

/// Whether `part` stands somewhere in the sheet.
pub open spec fn holds(sheet: Seq<char>, part: Seq<char>) -> bool {
    exists|before: Seq<char>, behind: Seq<char>| sheet == #[trigger] ((before + part) + behind)
}

proof fn lemma_holds(before: Seq<char>, part: Seq<char>, behind: Seq<char>)
    ensures
        holds(before + part + behind, part),
{
    assert(before + part + behind == (before + part) + behind);
}

proof fn lemma_holds_more(sheet: Seq<char>, part: Seq<char>, more: Seq<char>)
    requires
        holds(sheet, part),
    ensures
        holds(sheet + more, part),
        holds(more + sheet, part),
{
    let (a, b) = choose|before: Seq<char>, behind: Seq<char>|
        sheet == #[trigger] ((before + part) + behind);
    assert(sheet + more =~= (a + part) + (b + more));
    assert(more + sheet =~= ((more + a) + part) + b);
}

proof fn lemma_rule_in_sheet(style: &LauncherStyle, part: Seq<char>)
    ensures
        holds(panel_rule(style), part) ==> holds(css_text(style), part),
        holds(search_rule(style), part) ==> holds(css_text(style), part),
        holds(focus_rule(style), part) ==> holds(css_text(style), part),
        holds(row_rule(style), part) ==> holds(css_text(style), part),
        holds(selection_rule(style), part) ==> holds(css_text(style), part),
        holds(icon_rule(style), part) ==> holds(css_text(style), part),
        holds(footer_rule(style), part) ==> holds(css_text(style), part),
{
    let s1 = window_rule() + panel_rule(style);
    let s2 = s1 + search_rule(style);
    let s3 = s2 + focus_rule(style);
    let s4 = s3 + row_rule(style);
    let s5 = s4 + selection_rule(style);
    let s6 = s5 + icon_rule(style);
    let s7 = s6 + HEADINGS@;
    if holds(panel_rule(style), part) {
        lemma_holds_more(panel_rule(style), part, window_rule());
    }
    if holds(search_rule(style), part) {
        lemma_holds_more(search_rule(style), part, s1);
    }
    if holds(focus_rule(style), part) {
        lemma_holds_more(focus_rule(style), part, s2);
    }
    if holds(row_rule(style), part) {
        lemma_holds_more(row_rule(style), part, s3);
    }
    if holds(selection_rule(style), part) {
        lemma_holds_more(selection_rule(style), part, s4);
    }
    if holds(icon_rule(style), part) {
        lemma_holds_more(icon_rule(style), part, s5);
    }
    if holds(footer_rule(style), part) {
        lemma_holds_more(footer_rule(style), part, s7);
    }
    if holds(s1, part) {
        lemma_holds_more(s1, part, search_rule(style));
    }
    if holds(s2, part) {
        lemma_holds_more(s2, part, focus_rule(style));
    }
    if holds(s3, part) {
        lemma_holds_more(s3, part, row_rule(style));
    }
    if holds(s4, part) {
        lemma_holds_more(s4, part, selection_rule(style));
    }
    if holds(s5, part) {
        lemma_holds_more(s5, part, icon_rule(style));
    }
    if holds(s6, part) {
        lemma_holds_more(s6, part, HEADINGS@);
    }
    if holds(s7, part) {
        lemma_holds_more(s7, part, footer_rule(style));
    }
}

/// The sheet says of the panel what the theme says: its colour, its ink, the radius
/// of its corners and its fonts.
pub proof fn law_panel_looks_as_the_theme_says(style: &LauncherStyle)
    ensures
        holds(
            css_text(style),
            ".launcher-bg { background-color: "@ + style.panel_background@ + "; color: "@
                + style.ink@ + "; border-radius: "@ + style.radius@,
        ),
        holds(css_text(style), style.font_family@ + "\", "@ + style.font_fallback@ + "; }"@),
{
    let head = ".launcher-bg { background-color: "@ + style.panel_background@ + "; color: "@
        + style.ink@ + "; border-radius: "@ + style.radius@;
    let font = style.font_family@ + "\", "@ + style.font_fallback@ + "; }"@;
    assert(panel_rule(style) =~= head + PANEL_SHADOW@ + font);
    lemma_holds(seq![], head, PANEL_SHADOW@ + font);
    assert(Seq::<char>::empty() + head + (PANEL_SHADOW@ + font) =~= panel_rule(style));
    lemma_holds(head + PANEL_SHADOW@, font, seq![]);
    assert(head + PANEL_SHADOW@ + font + Seq::<char>::empty() =~= panel_rule(style));
    lemma_rule_in_sheet(style, head);
    lemma_rule_in_sheet(style, font);
}

/// The sheet says of the search box what the theme says.
pub proof fn law_search_box_looks_as_the_theme_says(style: &LauncherStyle)
    ensures
        holds(
            css_text(style),
            style.ink@ + "; caret-color: "@ + style.accent@
                + ";border: none; outline: none; box-shadow: none; border-radius: 0;border-bottom: 1px solid "@
                + style.hairline@ + ";padding: "@ + style.search_padding_v@ + "px "@
                + style.search_padding_h@ + "px; font-size: "@ + style.search_font_size@ + "px; }"@,
        ),
        holds(css_text(style), style.hairline@ + "; }"@),
{
    let lead = "entry.search { background-color: transparent; color: "@;
    let part = style.ink@ + "; caret-color: "@ + style.accent@
        + ";border: none; outline: none; box-shadow: none; border-radius: 0;border-bottom: 1px solid "@
        + style.hairline@ + ";padding: "@ + style.search_padding_v@ + "px "@
        + style.search_padding_h@ + "px; font-size: "@ + style.search_font_size@ + "px; }"@;
    assert(search_rule(style) =~= lead + part);
    lemma_holds(lead, part, seq![]);
    assert(lead + part + Seq::<char>::empty() =~= lead + part);
    lemma_rule_in_sheet(style, part);
    let focus =
        "entry.search:focus, entry.search:focus-within {outline: none; box-shadow: none; border-color: transparent;border-bottom: 1px solid "@;
    let line = style.hairline@ + "; }"@;
    assert(focus_rule(style) =~= focus + line);
    lemma_holds(focus, line, seq![]);
    assert(focus + line + Seq::<char>::empty() =~= focus + line);
    lemma_rule_in_sheet(style, line);
}

/// The sheet says of the rows what the theme says: their spacing, their ink and
/// corners, the colour of the selected one, and the corners of icons.
pub proof fn law_rows_look_as_the_theme_says(style: &LauncherStyle)
    ensures
        holds(
            css_text(style),
            style.row_padding_v@ + "px "@ + style.row_padding_h@ + "px; margin: 0 "@
                + style.row_inset@ + "px; color: "@ + style.ink@
                + ";background-color: transparent; border-radius: "@ + style.row_radius@
                + "px;font-size: "@ + style.row_font_size@ + "px; }"@,
        ),
        holds(
            css_text(style),
            "row:hover, row:selected { background-color: "@ + style.selection@ + "; color: "@
                + style.ink@,
        ),
        holds(
            css_text(style),
            "image { margin-right: 8px; border-radius: "@ + style.icon_radius@ + "px; }"@,
        ),
{
    let lead = "list { background-color: transparent; padding: 4px 0; }row { padding: "@;
    let row = style.row_padding_v@ + "px "@ + style.row_padding_h@ + "px; margin: 0 "@
        + style.row_inset@ + "px; color: "@ + style.ink@
        + ";background-color: transparent; border-radius: "@ + style.row_radius@
        + "px;font-size: "@ + style.row_font_size@ + "px; }"@;
    assert(row_rule(style) =~= lead + row);
    lemma_holds(lead, row, seq![]);
    assert(lead + row + Seq::<char>::empty() =~= lead + row);
    lemma_rule_in_sheet(style, row);
    let picked = "row:hover, row:selected { background-color: "@ + style.selection@ + "; color: "@
        + style.ink@;
    let behind = "; }.app-muted { opacity: 0.4; font-size: 11px; }"@;
    lemma_holds(seq![], picked, behind);
    assert(Seq::<char>::empty() + picked + behind =~= selection_rule(style));
    lemma_rule_in_sheet(style, picked);
    let image = "image { margin-right: 8px; border-radius: "@ + style.icon_radius@ + "px; }"@;
    lemma_holds(ICON_NOTE@, image, seq![]);
    assert(ICON_NOTE@ + image + Seq::<char>::empty() =~= icon_rule(style));
    lemma_rule_in_sheet(style, image);
}

/// The footer is in upper case if and only if the list has headings.
pub proof fn law_footer_is_in_upper_case_with_headings(style: &LauncherStyle)
    ensures
        footer_rule(style)
            == ".launcher-footer { padding: 8px 16px 12px; font-size: 10px; opacity: 0.4;"@ + (
        if style.sections {
            "text-transform: uppercase; letter-spacing: 0.12em; }"@
        } else {
            " }"@
        }),
        footer_rule(style).is_suffix_of(css_text(style)),
{
    reveal_strlit(" }");
    reveal_strlit("text-transform: uppercase; letter-spacing: 0.12em;");
    reveal_strlit("text-transform: uppercase; letter-spacing: 0.12em; }");
    let lead = ".launcher-footer { padding: 8px 16px 12px; font-size: 10px; opacity: 0.4;"@;
    assert("text-transform: uppercase; letter-spacing: 0.12em;"@ + " }"@
        =~= "text-transform: uppercase; letter-spacing: 0.12em; }"@);
    if style.sections {
        assert(lead + "text-transform: uppercase; letter-spacing: 0.12em;"@ + " }"@ =~= lead + (
        "text-transform: uppercase; letter-spacing: 0.12em;"@ + " }"@));
    } else {
        assert(lead + Seq::<char>::empty() + " }"@ =~= lead + " }"@);
    }
    let f = footer_rule(style);
    let c = css_text(style);
    assert(c.subrange(c.len() - f.len(), c.len() as int) =~= f);
}

}
