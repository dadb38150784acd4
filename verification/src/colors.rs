use vstd::prelude::*;

verus! {

// These thresholds are intentionally simple. The goal is not perfect color
// science; it is a practical "does this look like the target color?" filter
// for ANSI-colored program output.
pub const STRONG_CHANNEL_MIN: u8 = 160;
pub const DOMINANCE_MARGIN: u8 = 60;
pub const RED_GREEN_MAX: u8 = 120;
pub const RED_BLUE_MAX: u8 = 120;
pub const BLUE_RED_MAX: u8 = 120;
pub const BLUE_GREEN_MAX: u8 = 120;

pub const ORANGE_RED_MIN: u8 = 180;
pub const ORANGE_GREEN_MIN: u8 = 80;
pub const ORANGE_GREEN_MAX: u8 = 210;
pub const ORANGE_BLUE_MAX: u8 = 120;
pub const ORANGE_RED_OVER_GREEN_MARGIN: u8 = 20;

pub const YELLOW_RED_MIN: u8 = 170;
pub const YELLOW_GREEN_MIN: u8 = 170;
pub const YELLOW_BLUE_MAX: u8 = 120;

pub const VIOLET_RED_MIN: u8 = 140;
pub const VIOLET_BLUE_MIN: u8 = 140;
pub const VIOLET_GREEN_MAX: u8 = 140;

/// A color bucket that a user can ask to keep.
#[derive(Clone, Copy, Debug)]
pub enum TargetColor {
    Red,
    Orange,
    Yellow,
    Green,
    Blue,
    Violet,
}

/// A color as it is named on the command line: one bucket, or every
/// non-default foreground color.
#[derive(Clone, Copy, Debug)]
pub enum ColorArg {
    All,
    Red,
    Orange,
    Yellow,
    Green,
    Blue,
    Violet,
}

/// The foreground color established by the most recent SGR sequence.
#[derive(Clone, Copy, Debug)]
pub enum FgColor {
    Default,
    // ANSI indexed colors. This covers both the basic 16-color palette and the
    // 256-color palette selected via `38;5;n`.
    Indexed(u8),
    // Truecolor selected via `38;2;r;g;b`.
    Rgb(u8, u8, u8),
}

#[derive(Clone, Copy, Debug)]
struct ColorProfile {
    indexed_matches: &'static [u8],
    matcher: Matcher,
}

#[derive(Clone, Copy, Debug)]
enum Matcher {
    Red,
    Orange,
    Yellow,
    Green,
    Blue,
    Violet,
}

/// The user-selected matching rule.
#[derive(Clone, Debug)]
pub enum ColorSelection {
    All,
    Named(Vec<TargetColor>),
}

/// The palette indices that count as the bucket `t`:
/// - low values like 1/2/4 are the standard ANSI colors produced by 30..37
/// - values like 9/10/12 are the bright ANSI variants from 90..97
/// - larger values like 196 or 226 are common 256-color palette choices
pub open spec fn palette_of(t: TargetColor) -> Seq<u8> {
    match t {
        TargetColor::Red => seq![1u8, 9u8, 196u8, 160u8],
        TargetColor::Orange => seq![208u8, 214u8, 172u8],
        TargetColor::Yellow => seq![3u8, 11u8, 226u8, 220u8],
        TargetColor::Green => seq![2u8, 10u8, 46u8, 34u8],
        TargetColor::Blue => seq![4u8, 12u8, 21u8, 27u8],
        TargetColor::Violet => seq![5u8, 13u8, 93u8, 177u8],
    }
}

/// Whether the truecolor `(r, g, b)` falls in the bucket `t`. The rules are
/// deliberately coarse and biased toward "obvious" colors: a bucket's main
/// channels must pass fixed thresholds and, for red, orange, green and blue,
/// exceed the others by a margin (added without any cap). No exact gray
/// (including black and white) belongs to any bucket.
pub open spec fn rgb_in_bucket(t: TargetColor, r: u8, g: u8, b: u8) -> bool {
    match t {
        TargetColor::Red => {
            &&& r >= STRONG_CHANNEL_MIN
            &&& g <= RED_GREEN_MAX
            &&& b <= RED_BLUE_MAX
            &&& r >= g + DOMINANCE_MARGIN
            &&& r >= b + DOMINANCE_MARGIN
        },
        TargetColor::Orange => {
            &&& r >= ORANGE_RED_MIN
            &&& g >= ORANGE_GREEN_MIN
            &&& g <= ORANGE_GREEN_MAX
            &&& b <= ORANGE_BLUE_MAX
            &&& r >= g + ORANGE_RED_OVER_GREEN_MARGIN
        },
        TargetColor::Yellow => r >= YELLOW_RED_MIN && g >= YELLOW_GREEN_MIN && b <= YELLOW_BLUE_MAX,
        TargetColor::Green => {
            &&& g >= STRONG_CHANNEL_MIN
            &&& g >= r + DOMINANCE_MARGIN
            &&& g >= b + DOMINANCE_MARGIN
        },
        TargetColor::Blue => {
            &&& b >= STRONG_CHANNEL_MIN
            &&& r <= BLUE_RED_MAX
            &&& g <= BLUE_GREEN_MAX
            &&& b >= r + DOMINANCE_MARGIN
            &&& b >= g + DOMINANCE_MARGIN
        },
        TargetColor::Violet => {
            &&& r >= VIOLET_RED_MIN
            &&& b >= VIOLET_BLUE_MIN
            &&& g <= VIOLET_GREEN_MAX
            &&& !(r == g && g == b)
        },
    }
}

/// Red, green, blue and violet never claim the same truecolor: at most one
/// of them matches `FgColor::Rgb(r, g, b)`.
pub proof fn lemma_primary_buckets_exclusive(r: u8, g: u8, b: u8)
    ensures
        ({
            let fg = FgColor::Rgb(r, g, b);
            &&& !(TargetColor::Red.spec_matches(fg) && TargetColor::Green.spec_matches(fg))
            &&& !(TargetColor::Red.spec_matches(fg) && TargetColor::Blue.spec_matches(fg))
            &&& !(TargetColor::Red.spec_matches(fg) && TargetColor::Violet.spec_matches(fg))
            &&& !(TargetColor::Green.spec_matches(fg) && TargetColor::Blue.spec_matches(fg))
            &&& !(TargetColor::Green.spec_matches(fg) && TargetColor::Violet.spec_matches(fg))
            &&& !(TargetColor::Blue.spec_matches(fg) && TargetColor::Violet.spec_matches(fg))
        }),
{
}

/// Strengthening a hue keeps a match: raising the bucket's main channels and
/// lowering the others never loses red, green, blue or violet.
pub proof fn lemma_stronger_hue_keeps_match(r: u8, g: u8, b: u8, r2: u8, g2: u8, b2: u8)
    ensures
        TargetColor::Red.spec_matches(FgColor::Rgb(r, g, b)) && r2 >= r && g2 <= g && b2 <= b
            ==> TargetColor::Red.spec_matches(FgColor::Rgb(r2, g2, b2)),
        TargetColor::Green.spec_matches(FgColor::Rgb(r, g, b)) && g2 >= g && r2 <= r && b2 <= b
            ==> TargetColor::Green.spec_matches(FgColor::Rgb(r2, g2, b2)),
        TargetColor::Blue.spec_matches(FgColor::Rgb(r, g, b)) && b2 >= b && r2 <= r && g2 <= g
            ==> TargetColor::Blue.spec_matches(FgColor::Rgb(r2, g2, b2)),
        TargetColor::Violet.spec_matches(FgColor::Rgb(r, g, b)) && r2 >= r && b2 >= b && g2 <= g
            ==> TargetColor::Violet.spec_matches(FgColor::Rgb(r2, g2, b2)),
{
}

/// Grays, black and white are never taken for a color.
pub proof fn lemma_gray_matches_no_bucket(t: TargetColor, v: u8)
    ensures
        !t.spec_matches(FgColor::Rgb(v, v, v)),
{
}

/// The palette indices of each bucket, as listed in the ANSI and 256-color
/// palettes: an index matches a bucket exactly when it is one of these.
pub proof fn lemma_palette_members(t: TargetColor, i: u8)
    ensures
        t.spec_matches(FgColor::Indexed(i)) <==> match t {
            TargetColor::Red => i == 1 || i == 9 || i == 196 || i == 160,
            TargetColor::Orange => i == 208 || i == 214 || i == 172,
            TargetColor::Yellow => i == 3 || i == 11 || i == 226 || i == 220,
            TargetColor::Green => i == 2 || i == 10 || i == 46 || i == 34,
            TargetColor::Blue => i == 4 || i == 12 || i == 21 || i == 27,
            TargetColor::Violet => i == 5 || i == 13 || i == 93 || i == 177,
        },
{
    let pal = palette_of(t);
    if pal.contains(i) {
        let k = choose|k: int| 0 <= k < pal.len() && pal[k] == i;
        assert(k == 0 || k == 1 || k == 2 || k == 3);
    }
    if pal.len() > 0 && pal[0] == i {
        assert(pal.contains(i));
    }
    if pal.len() > 1 && pal[1] == i {
        assert(pal.contains(i));
    }
    if pal.len() > 2 && pal[2] == i {
        assert(pal.contains(i));
    }
    if pal.len() > 3 && pal[3] == i {
        assert(pal.contains(i));
    }
}

/// No palette index belongs to two buckets.
pub proof fn lemma_palettes_disjoint(t1: TargetColor, t2: TargetColor, i: u8)
    requires
        t1 != t2,
    ensures
        !(t1.spec_matches(FgColor::Indexed(i)) && t2.spec_matches(FgColor::Indexed(i))),
{
    lemma_palette_members(t1, i);
    lemma_palette_members(t2, i);
}

/// The thresholds of each truecolor bucket, with the margins added without
/// any cap: what `TargetColor::matches` accepts on `FgColor::Rgb(r, g, b)`.
/// In particular yellow needs both red and green at 170 or more, so pure
/// green is not yellow.
pub proof fn lemma_rgb_thresholds(r: u8, g: u8, b: u8)
    ensures
        TargetColor::Red.spec_matches(FgColor::Rgb(r, g, b)) <==> (r >= 160 && g <= 120 && b <= 120
            && r >= g + 60 && r >= b + 60),
        TargetColor::Orange.spec_matches(FgColor::Rgb(r, g, b)) <==> (r >= 180 && 80 <= g <= 210 && b
            <= 120 && r >= g + 20),
        TargetColor::Yellow.spec_matches(FgColor::Rgb(r, g, b)) <==> (r >= 170 && g >= 170 && b
            <= 120),
        TargetColor::Green.spec_matches(FgColor::Rgb(r, g, b)) <==> (g >= 160 && g >= r + 60 && g >= b
            + 60),
        TargetColor::Blue.spec_matches(FgColor::Rgb(r, g, b)) <==> (b >= 160 && r <= 120 && g <= 120
            && b >= r + 60 && b >= g + 60),
        TargetColor::Violet.spec_matches(FgColor::Rgb(r, g, b)) <==> (r >= 140 && b >= 140 && g <= 140
            && !(r == g && g == b)),
{
}

impl TargetColor {
    /// Whether the foreground color `fg` counts as this bucket.
    pub open spec fn spec_matches(self, fg: FgColor) -> bool {
        match fg {
            FgColor::Default => false,
            FgColor::Indexed(idx) => palette_of(self).contains(idx),
            FgColor::Rgb(r, g, b) => rgb_in_bucket(self, r, g, b),
        }
    }

    pub fn matches(self, fg: FgColor) -> (res: bool)
        ensures
            res == self.spec_matches(fg),
    {
        let profile = self.profile();

        match fg {
            FgColor::Default => false,
            FgColor::Indexed(idx) => slice_contains(profile.indexed_matches, idx),
            FgColor::Rgb(r, g, b) => profile.matcher.matches(r, g, b),
        }
    }

    fn profile(self) -> (p: ColorProfile)
        ensures
            p.indexed_matches@ == palette_of(self),
            p.matcher.target() == self,
    {
        match self {
            Self::Red => ColorProfile { indexed_matches: &[1, 9, 196, 160], matcher: Matcher::Red },
            Self::Orange => ColorProfile { indexed_matches: &[208, 214, 172], matcher: Matcher::Orange },
            Self::Yellow => ColorProfile { indexed_matches: &[3, 11, 226, 220], matcher: Matcher::Yellow },
            Self::Green => ColorProfile { indexed_matches: &[2, 10, 46, 34], matcher: Matcher::Green },
            Self::Blue => ColorProfile { indexed_matches: &[4, 12, 21, 27], matcher: Matcher::Blue },
            Self::Violet => ColorProfile { indexed_matches: &[5, 13, 93, 177], matcher: Matcher::Violet },
        }
    }
}

fn slice_contains(s: &[u8], x: u8) -> (res: bool)
    ensures
        res == s@.contains(x),
{
    let mut i: usize = 0;
    while i < s.len()
        invariant
            i <= s@.len(),
            forall|j: int| 0 <= j < i ==> s@[j] != x,
        decreases s@.len() - i,
    {
        if s[i] == x {
            return true;
        }
        i += 1;
    }
    false
}

impl Matcher {
    spec fn target(self) -> TargetColor {
        match self {
            Matcher::Red => TargetColor::Red,
            Matcher::Orange => TargetColor::Orange,
            Matcher::Yellow => TargetColor::Yellow,
            Matcher::Green => TargetColor::Green,
            Matcher::Blue => TargetColor::Blue,
            Matcher::Violet => TargetColor::Violet,
        }
    }

    /// Match RGB colors using a few deliberately coarse rules.
    ///
    /// These rules are tuned for colored logs, stack traces, and warnings rather
    /// than image processing. The thresholds are biased toward "obvious" colors
    /// so we avoid classifying muted or gray-ish text as a rainbow color.
    fn matches(self, r: u8, g: u8, b: u8) -> (res: bool)
        ensures
            res == rgb_in_bucket(self.target(), r, g, b),
    {
        match self {
            Self::Red => {
                r >= STRONG_CHANNEL_MIN && g <= RED_GREEN_MAX && b <= RED_BLUE_MAX && dominates(
                    r,
                    g,
                    DOMINANCE_MARGIN,
                ) && dominates(r, b, DOMINANCE_MARGIN)
            },
            Self::Orange => {
                r >= ORANGE_RED_MIN && g >= ORANGE_GREEN_MIN && g <= ORANGE_GREEN_MAX && b
                    <= ORANGE_BLUE_MAX && dominates(r, g, ORANGE_RED_OVER_GREEN_MARGIN)
            },
            Self::Yellow => { r >= YELLOW_RED_MIN && g >= YELLOW_GREEN_MIN && b <= YELLOW_BLUE_MAX },
            Self::Green => {
                g >= STRONG_CHANNEL_MIN && dominates(g, r, DOMINANCE_MARGIN) && dominates(
                    g,
                    b,
                    DOMINANCE_MARGIN,
                )
            },
            Self::Blue => {
                b >= STRONG_CHANNEL_MIN && r <= BLUE_RED_MAX && g <= BLUE_GREEN_MAX && dominates(
                    b,
                    r,
                    DOMINANCE_MARGIN,
                ) && dominates(b, g, DOMINANCE_MARGIN)
            },
            Self::Violet => {
                r >= VIOLET_RED_MIN && b >= VIOLET_BLUE_MIN && g <= VIOLET_GREEN_MAX && !(r == g && g
                    == b)
            },
        }
    }
}

/// Whether `hi` exceeds `lo` by at least `margin`.
fn dominates(hi: u8, lo: u8, margin: u8) -> (res: bool)
    ensures
        res == (hi >= lo + margin),
{
    hi >= lo && hi - lo >= margin
}

impl ColorArg {
    /// The bucket this argument names, or `None` for `All`.
    pub open spec fn spec_target(self) -> Option<TargetColor> {
        match self {
            ColorArg::All => None,
            ColorArg::Red => Some(TargetColor::Red),
            ColorArg::Orange => Some(TargetColor::Orange),
            ColorArg::Yellow => Some(TargetColor::Yellow),
            ColorArg::Green => Some(TargetColor::Green),
            ColorArg::Blue => Some(TargetColor::Blue),
            ColorArg::Violet => Some(TargetColor::Violet),
        }
    }

    fn target(self) -> (t: Option<TargetColor>)
        ensures
            t == self.spec_target(),
    {
        match self {
            ColorArg::All => None,
            ColorArg::Red => Some(TargetColor::Red),
            ColorArg::Orange => Some(TargetColor::Orange),
            ColorArg::Yellow => Some(TargetColor::Yellow),
            ColorArg::Green => Some(TargetColor::Green),
            ColorArg::Blue => Some(TargetColor::Blue),
            ColorArg::Violet => Some(TargetColor::Violet),
        }
    }
}

/// The bucket named by an argument that is not `All`.
pub open spec fn named_target(a: ColorArg) -> TargetColor {
    a.spec_target().unwrap()
}

impl ColorSelection {
    /// Whether a foreground color is kept by this selection.
    pub open spec fn spec_matches(self, fg: FgColor) -> bool {
        match self {
            ColorSelection::All => !(fg is Default),
            ColorSelection::Named(colors) => exists|i: int|
                0 <= i < colors@.len() && #[trigger] colors@[i].spec_matches(fg),
        }
    }

    /// Whether this is the selection that the command-line arguments `args`
    /// ask for: no argument means red, any `All` means every non-default
    /// color, and otherwise the named buckets in the order given.
    pub open spec fn selected_by(self, args: Seq<ColorArg>) -> bool {
        &&& args.len() == 0 ==> (self matches ColorSelection::Named(v) && v@ == seq![
            TargetColor::Red,
        ])
        &&& (exists|i: int| 0 <= i < args.len() && #[trigger] args[i] is All) ==> self is All
        &&& args.len() > 0 && (forall|i: int| 0 <= i < args.len() ==> !(#[trigger] args[i] is All))
            ==> (self matches ColorSelection::Named(v) && v@ == args.map_values(
            |a: ColorArg| named_target(a),
        ))
    }

    pub fn matches(&self, fg: FgColor) -> (res: bool)
        ensures
            res == self.spec_matches(fg),
    {
        match self {
            Self::All => !matches!(fg, FgColor::Default),
            Self::Named(colors) => {
                let mut i: usize = 0;
                while i < colors.len()
                    invariant
                        i <= colors@.len(),
                        *self == ColorSelection::Named(*colors),
                        forall|j: int| 0 <= j < i ==> !(#[trigger] colors@[j].spec_matches(fg)),
                    decreases colors@.len() - i,
                {
                    if colors[i].matches(fg) {
                        assert(colors@[i as int].spec_matches(fg));
                        assert(exists|k: int| 0 <= k < colors@.len() && #[trigger] colors@[k].spec_matches(fg));
                        assert(self matches ColorSelection::Named(c) && c@ == colors@);
                        return true;
                    }
                    i += 1;
                }
                false
            },
        }
    }
}

/// The default foreground is kept by no selection, and `All` keeps every
/// color that any selection keeps, as well as every palette index and every
/// truecolor.
pub proof fn lemma_all_is_widest(sel: ColorSelection, fg: FgColor)
    ensures
        !sel.spec_matches(FgColor::Default),
        sel.spec_matches(fg) ==> ColorSelection::All.spec_matches(fg),
        fg matches FgColor::Indexed(_) ==> ColorSelection::All.spec_matches(fg),
        fg matches FgColor::Rgb(_, _, _) ==> ColorSelection::All.spec_matches(fg),
{
}

/// A named selection keeps a color exactly when one of its buckets does, in
/// whatever order and with whatever repetitions they are listed.
pub proof fn lemma_named_keeps_any_listed(colors: Vec<TargetColor>, t: TargetColor, fg: FgColor)
    requires
        exists|i: int| 0 <= i < colors@.len() && #[trigger] colors@[i] == t,
        t.spec_matches(fg),
    ensures
        ColorSelection::Named(colors).spec_matches(fg),
{
    let i = choose|i: int| 0 <= i < colors@.len() && #[trigger] colors@[i] == t;
    assert(colors@[i].spec_matches(fg));
    assert(exists|k: int| 0 <= k < colors@.len() && #[trigger] colors@[k].spec_matches(fg));
    let sel = ColorSelection::Named(colors);
    assert(sel matches ColorSelection::Named(c) && c@ == colors@);
}

/// `From` cannot give its result as one spec value, since a `Vec` cannot be
/// built in specifications; `from_spec` names some selection meeting
/// `selected_by`, and `obeys_from_spec` is false. The impl's `from` below
/// states its result exactly through `selected_by`.
impl vstd::std_specs::convert::FromSpecImpl<Vec<ColorArg>> for ColorSelection {
    open spec fn obeys_from_spec() -> bool {
        false
    }

    open spec fn from_spec(args: Vec<ColorArg>) -> ColorSelection {
        choose|sel: ColorSelection| sel.selected_by(args@)
    }
}

impl From<Vec<ColorArg>> for ColorSelection {
    /// Build the selection from command-line arguments.
    fn from(args: Vec<ColorArg>) -> (sel: ColorSelection)
        ensures
            sel.selected_by(args@),
    {
        if args.len() == 0 {
            let mut v: Vec<TargetColor> = Vec::new();
            v.push(TargetColor::Red);
            return ColorSelection::Named(v);
        }
        let mut named: Vec<TargetColor> = Vec::new();
        let mut i: usize = 0;
        while i < args.len()
            invariant
                i <= args@.len(),
                forall|j: int| 0 <= j < i ==> !(#[trigger] args@[j] is All),
                named@ == args@.take(i as int).map_values(|a: ColorArg| named_target(a)),
            decreases args@.len() - i,
        {
            match args[i].target() {
                None => {
                    return ColorSelection::All;
                },
                Some(t) => {
                    named.push(t);
                },
            }
            assert(args@.take(i + 1) == args@.take(i as int).push(args@[i as int]));
            i += 1;
        }
        assert(args@.take(args@.len() as int) == args@);
        ColorSelection::Named(named)
    }
}

} // verus!
