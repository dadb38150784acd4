use wlr::colors::{ColorArg, ColorSelection, FgColor, TargetColor};

#[test]
fn orange_truecolor_does_not_overlap_with_red_or_yellow() {
    let orange = FgColor::Rgb(255, 140, 0);

    assert!(TargetColor::Orange.matches(orange));
    assert!(!TargetColor::Red.matches(orange));
    assert!(!TargetColor::Yellow.matches(orange));
}

#[test]
fn yellow_truecolor_does_not_overlap_with_orange() {
    let yellow = FgColor::Rgb(255, 255, 0);

    assert!(TargetColor::Yellow.matches(yellow));
    assert!(!TargetColor::Orange.matches(yellow));
}

#[test]
fn violet_truecolor_does_not_overlap_with_blue() {
    let violet = FgColor::Rgb(148, 0, 211);

    assert!(TargetColor::Violet.matches(violet));
    assert!(!TargetColor::Blue.matches(violet));
}

#[test]
fn indexed_colors_map_to_single_expected_bucket_for_representative_values() {
    let orange = FgColor::Indexed(208);
    let violet = FgColor::Indexed(177);

    assert!(TargetColor::Orange.matches(orange));
    assert!(!TargetColor::Yellow.matches(orange));

    assert!(TargetColor::Violet.matches(violet));
    assert!(!TargetColor::Blue.matches(violet));
}

#[test]
fn all_selection_matches_any_non_default_foreground() {
    let selection = ColorSelection::All;

    assert!(selection.matches(FgColor::Indexed(1)));
    assert!(selection.matches(FgColor::Rgb(255, 255, 255)));
    assert!(!selection.matches(FgColor::Default));
}

#[test]
fn color_args_default_to_red_when_omitted() {
    let selection = ColorSelection::from(Vec::<ColorArg>::new());

    assert!(selection.matches(FgColor::Indexed(1)));
    assert!(!selection.matches(FgColor::Indexed(2)));
}

#[test]
fn color_args_can_match_multiple_colors() {
    let selection = ColorSelection::from(vec![ColorArg::Red, ColorArg::Violet]);

    assert!(selection.matches(FgColor::Indexed(1)));
    assert!(selection.matches(FgColor::Indexed(177)));
    assert!(!selection.matches(FgColor::Indexed(2)));
}

#[test]
fn all_overrides_specific_colors_when_mixed() {
    let selection = ColorSelection::from(vec![ColorArg::Red, ColorArg::All]);

    assert!(matches!(selection, ColorSelection::All));
}

#[test]
fn named_args_keep_their_order() {
    let selection = ColorSelection::from(vec![ColorArg::Green, ColorArg::Blue, ColorArg::Green]);
    match selection {
        ColorSelection::Named(colors) => {
            assert_eq!(colors.len(), 3);
            assert!(matches!(colors[0], TargetColor::Green));
            assert!(matches!(colors[1], TargetColor::Blue));
            assert!(matches!(colors[2], TargetColor::Green));
        }
        ColorSelection::All => panic!("expected named colors"),
    }
}

#[test]
fn default_foreground_never_matches_a_bucket() {
    for t in [
        TargetColor::Red,
        TargetColor::Orange,
        TargetColor::Yellow,
        TargetColor::Green,
        TargetColor::Blue,
        TargetColor::Violet,
    ] {
        assert!(!t.matches(FgColor::Default));
    }
}

#[test]
fn palettes_hold_their_listed_indexes() {
    for idx in [1u8, 9, 196, 160] {
        assert!(TargetColor::Red.matches(FgColor::Indexed(idx)));
    }
    for idx in [208u8, 214, 172] {
        assert!(TargetColor::Orange.matches(FgColor::Indexed(idx)));
    }
    for idx in [3u8, 11, 226, 220] {
        assert!(TargetColor::Yellow.matches(FgColor::Indexed(idx)));
    }
    for idx in [2u8, 10, 46, 34] {
        assert!(TargetColor::Green.matches(FgColor::Indexed(idx)));
    }
    for idx in [4u8, 12, 21, 27] {
        assert!(TargetColor::Blue.matches(FgColor::Indexed(idx)));
    }
    for idx in [5u8, 13, 93, 177] {
        assert!(TargetColor::Violet.matches(FgColor::Indexed(idx)));
    }
    assert!(!TargetColor::Red.matches(FgColor::Indexed(0)));
    assert!(!TargetColor::Blue.matches(FgColor::Indexed(255)));
}

#[test]
fn truecolor_thresholds_are_exact() {
    // Red needs r >= 160 and r at least 60 above g and b.
    assert!(TargetColor::Red.matches(FgColor::Rgb(160, 100, 100)));
    assert!(!TargetColor::Red.matches(FgColor::Rgb(159, 0, 0)));
    assert!(!TargetColor::Red.matches(FgColor::Rgb(180, 121, 0)));
    assert!(!TargetColor::Red.matches(FgColor::Rgb(170, 111, 0)));
    // Saturating margins: g = 250 can never be dominated.
    assert!(!TargetColor::Green.matches(FgColor::Rgb(0, 250, 200)));
    assert!(TargetColor::Green.matches(FgColor::Rgb(0, 250, 190)));
    assert!(TargetColor::Blue.matches(FgColor::Rgb(0, 0, 160)));
    assert!(!TargetColor::Blue.matches(FgColor::Rgb(0, 101, 160)));
    assert!(TargetColor::Yellow.matches(FgColor::Rgb(170, 170, 120)));
    assert!(!TargetColor::Yellow.matches(FgColor::Rgb(170, 170, 121)));
    assert!(TargetColor::Violet.matches(FgColor::Rgb(140, 139, 140)));
    assert!(!TargetColor::Violet.matches(FgColor::Rgb(141, 141, 140)));
    assert!(!TargetColor::Violet.matches(FgColor::Rgb(140, 140, 140)));
    assert!(TargetColor::Violet.matches(FgColor::Rgb(140, 140, 200)));
    assert!(TargetColor::Violet.matches(FgColor::Rgb(200, 140, 140)));
    assert!(TargetColor::Orange.matches(FgColor::Rgb(180, 160, 0)));
    assert!(!TargetColor::Orange.matches(FgColor::Rgb(180, 161, 0)));
}

#[test]
fn grays_and_bright_mixes_are_not_green() {
    for t in [
        TargetColor::Red,
        TargetColor::Orange,
        TargetColor::Yellow,
        TargetColor::Green,
        TargetColor::Blue,
        TargetColor::Violet,
    ] {
        for v in [0u8, 140, 200, 255] {
            assert!(!t.matches(FgColor::Rgb(v, v, v)));
        }
    }
    assert!(!TargetColor::Green.matches(FgColor::Rgb(255, 255, 255)));
    assert!(!TargetColor::Green.matches(FgColor::Rgb(255, 255, 0)));
    assert!(!TargetColor::Green.matches(FgColor::Rgb(200, 255, 255)));
    assert!(TargetColor::Yellow.matches(FgColor::Rgb(255, 255, 0)));
}
