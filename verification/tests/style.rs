use breadbox::style::{build_css, footer_text, LauncherStyle};

fn style(sections: bool) -> LauncherStyle {
    LauncherStyle {
        panel_background: "PANEL".to_string(),
        ink: "INK".to_string(),
        accent: "ACCENT".to_string(),
        hairline: "LINE".to_string(),
        selection: "SEL".to_string(),
        radius: "18".to_string(),
        font_family: "FONT".to_string(),
        font_fallback: "FALLBACK".to_string(),
        row_font_size: "25".to_string(),
        row_padding_v: "21".to_string(),
        row_padding_h: "22".to_string(),
        row_inset: "23".to_string(),
        row_radius: "24".to_string(),
        icon_radius: "26".to_string(),
        search_padding_v: "11".to_string(),
        search_padding_h: "12".to_string(),
        search_font_size: "13".to_string(),
        sections,
    }
}

const SHEET: &str = "window { background-color: transparent; }.launcher-bg { background-color: PANEL; color: INK; border-radius: 18px;/* NO drop shadow. In a browser `backdrop-filter` blurs only theelement's own box, so the demo's shadow is free. Hyprlandblurs any surface pixel above `ignore_alpha` (0.2), and a32px shadow at 0.6 alpha is far above it — so the compositorblurred the shadow as well, painting a rectangular blurredhalo around the rounded panel. That halo is the \"blurbackdrop whose radius doesn't match the content\" problem.The blur behind a 0.95-opaque panel already gives plenty ofseparation; the shadow only fought it. */font-family: \"FONT\", FALLBACK; }entry.search { background-color: transparent; color: INK; caret-color: ACCENT;border: none; outline: none; box-shadow: none; border-radius: 0;border-bottom: 1px solid LINE;padding: 11px 12px; font-size: 13px; }entry.search:focus, entry.search:focus-within {outline: none; box-shadow: none; border-color: transparent;border-bottom: 1px solid LINE; }list { background-color: transparent; padding: 4px 0; }row { padding: 21px 22px; margin: 0 23px; color: INK;background-color: transparent; border-radius: 24px;font-size: 25px; }row:hover, row:selected { background-color: SEL; color: INK; }.app-muted { opacity: 0.4; font-size: 11px; }/* No background tile: these are real app icons, not the demo'splaceholder .ico boxes. A tint behind a real icon reads as afailed/unloaded image. */image { margin-right: 8px; border-radius: 26px; }/* \"Recent\"/\"Apps\" headers (`[launcher].sections`, liquid-motiononly — glass-workbench's flat list never builds these rows). */.section-header-label { font-size: 10px; letter-spacing: 0.14em;text-transform: uppercase; font-weight: 600; opacity: 0.45; }.bread-drawer-section-header { padding: 11px 16px 5px; }.launcher-footer { padding: 8px 16px 12px; font-size: 10px; opacity: 0.4;";

#[test]
fn the_style_sheet_holds_the_values_of_the_theme() {
    assert_eq!(build_css(&style(false)), format!("{} }}", SHEET));
}

#[test]
fn headings_come_with_a_footer_in_upper_case() {
    let expected =
        format!("{}text-transform: uppercase; letter-spacing: 0.12em; }}", SHEET);
    assert_eq!(build_css(&style(true)), expected);
}

#[test]
fn the_footer_counts() {
    assert_eq!(footer_text("count_apps", 0), "0 applications");
    assert_eq!(footer_text("count_apps", 1), "1 application");
    assert_eq!(footer_text("count_apps", 42), "42 applications");
    assert_eq!(footer_text("count_results", 1), "1 result");
    assert_eq!(footer_text("count_results", 10), "10 results");
    assert_eq!(footer_text("", 2), "2 results");
    assert_eq!(footer_text("Count_Apps", 2), "2 results");
    assert_eq!(footer_text("x", usize::MAX), format!("{} results", usize::MAX));
}
