use vstd::prelude::*;

use crate::colors::{ColorSelection, FgColor};
use crate::emitter::{
    lemma_emitter_output, lemma_no_context_prefix_stable, lemma_render_split, EmitterState,
    FilterConfig, LineEmitter,
};

verus! {

// Raw byte constants used by the ANSI parser.
pub const ESC: u8 = 0x1b;
pub const BEL: u8 = 0x07;
pub const NEWLINE: u8 = 0x0a;
pub const TAB: u8 = 0x09;
pub const CSI_INTRO: u8 = 0x5b;
pub const OSC_INTRO: u8 = 0x5d;
pub const ST_TERMINATOR: u8 = 0x5c;

// SGR codes we care about for foreground color tracking.
pub const SGR_RESET: i64 = 0;
pub const SGR_DEFAULT_FOREGROUND: i64 = 39;
pub const SGR_FOREGROUND_BASE_START: i64 = 30;
pub const SGR_FOREGROUND_BASE_END: i64 = 37;
pub const SGR_FOREGROUND_BRIGHT_START: i64 = 90;
pub const SGR_FOREGROUND_BRIGHT_END: i64 = 97;
pub const SGR_EXTENDED_FOREGROUND: i64 = 38;
pub const SGR_EXTENDED_BACKGROUND: i64 = 48;
pub const SGR_MODE_INDEXED: i64 = 5;
pub const SGR_MODE_RGB: i64 = 2;

// CSI final bytes live in 0x40..=0x7e. For this tool, only `m` matters because
// that is SGR ("set graphics rendition"), which carries the color changes.
pub const CSI_FINAL_BYTE_START: u8 = 0x40;
pub const CSI_FINAL_BYTE_END: u8 = 0x7e;
pub const SGR_FINAL_BYTE: u8 = 0x6d;

/// What one input byte means for the filter.
#[derive(Clone, Copy, Debug)]
pub enum ParserEvent {
    Nothing,
    // A byte that would represent visible output in a normal terminal.
    Printable,
    // Raw newline seen; end the current line.
    FlushLine,
    // The parser decoded a new foreground color from SGR.
    SetForeground(FgColor),
}

/// The abstract state of the streaming ANSI parser.
pub enum ParseMode {
    Ground,
    Escape,
    Csi { params: Seq<i64>, current: Option<i64> },
    Osc,
    OscEscape,
}

/// Clamp an SGR parameter into a color channel.
pub open spec fn clamp_channel(x: i64) -> u8 {
    if x < 0 {
        0
    } else if x > 255 {
        255
    } else {
        x as u8
    }
}

/// Scan the SGR parameters `p` from index `i` on, with `fg` the foreground
/// color set by the parameters before `i` (`None` if they set none).
/// Background colors (`48;5;n`, `48;2;r;g;b`) are skipped whole, and other
/// attributes such as bold or underline are ignored.
pub open spec fn sgr_scan(p: Seq<i64>, i: int, fg: Option<FgColor>) -> Option<FgColor>
    decreases p.len() - i,
{
    if i < 0 || i >= p.len() {
        fg
    } else {
        let c = p[i];
        if c == SGR_RESET || c == SGR_DEFAULT_FOREGROUND {
            sgr_scan(p, i + 1, Some(FgColor::Default))
        } else if SGR_FOREGROUND_BASE_START <= c <= SGR_FOREGROUND_BASE_END {
            sgr_scan(p, i + 1, Some(FgColor::Indexed((c - SGR_FOREGROUND_BASE_START) as u8)))
        } else if SGR_FOREGROUND_BRIGHT_START <= c <= SGR_FOREGROUND_BRIGHT_END {
            sgr_scan(p, i + 1, Some(FgColor::Indexed((c - SGR_FOREGROUND_BRIGHT_START + 8) as u8)))
        } else if c == SGR_EXTENDED_FOREGROUND {
            if i + 1 >= p.len() {
                fg
            } else if p[i + 1] == SGR_MODE_INDEXED && i + 2 < p.len() {
                sgr_scan(p, i + 3, Some(FgColor::Indexed(clamp_channel(p[i + 2]))))
            } else if p[i + 1] == SGR_MODE_RGB && i + 4 < p.len() {
                sgr_scan(
                    p,
                    i + 5,
                    Some(
                        FgColor::Rgb(
                            clamp_channel(p[i + 2]),
                            clamp_channel(p[i + 3]),
                            clamp_channel(p[i + 4]),
                        ),
                    ),
                )
            } else {
                sgr_scan(p, i + 2, fg)
            }
        } else if c == SGR_EXTENDED_BACKGROUND {
            if i + 1 >= p.len() {
                fg
            } else if p[i + 1] == SGR_MODE_INDEXED && i + 2 < p.len() {
                sgr_scan(p, i + 3, fg)
            } else if p[i + 1] == SGR_MODE_RGB && i + 4 < p.len() {
                sgr_scan(p, i + 5, fg)
            } else {
                sgr_scan(p, i + 2, fg)
            }
        } else {
            sgr_scan(p, i + 1, fg)
        }
    }
}

/// The foreground color that a complete SGR parameter list sets, or `None`
/// if it sets none (the foreground then stays as it was). An empty list is a
/// reset.
pub open spec fn sgr_update(params: Seq<i64>) -> Option<FgColor> {
    if params.len() == 0 {
        Some(FgColor::Default)
    } else {
        sgr_scan(params, 0, None)
    }
}

/// The foreground color of a complete SGR parameter list applied to the
/// default foreground.
pub open spec fn sgr_foreground(params: Seq<i64>) -> FgColor {
    match sgr_update(params) {
        Some(fg) => fg,
        None => FgColor::Default,
    }
}

/// SGR parameters none of which starts an extended color (`38` or `48`):
/// each of them is a code of its own.
pub open spec fn plain_codes(p: Seq<i64>) -> bool {
    forall|k: int| 0 <= k < p.len() ==> #[trigger] p[k] != SGR_EXTENDED_FOREGROUND && p[k] != SGR_EXTENDED_BACKGROUND
}

proof fn lemma_sgr_scan_shift(p: Seq<i64>, q: Seq<i64>, j: int, fg: Option<FgColor>)
    requires
        0 <= j,
    ensures
        sgr_scan(p + q, p.len() + j, fg) == sgr_scan(q, j, fg),
    decreases q.len() - j,
{
    let pq = p + q;
    let n = p.len() as int;
    if j < q.len() {
        assert(pq[n + j] == q[j]);
        if j + 1 < q.len() {
            assert(pq[n + j + 1] == q[j + 1]);
        }
        if j + 2 < q.len() {
            assert(pq[n + j + 2] == q[j + 2]);
        }
        if j + 3 < q.len() {
            assert(pq[n + j + 3] == q[j + 3]);
        }
        if j + 4 < q.len() {
            assert(pq[n + j + 4] == q[j + 4]);
        }
        let c = q[j];
        let f1 = Some(FgColor::Default);
        lemma_sgr_scan_shift(p, q, j + 1, fg);
        lemma_sgr_scan_shift(p, q, j + 1, Some(FgColor::Default));
        lemma_sgr_scan_shift(p, q, j + 1, Some(FgColor::Indexed((c - SGR_FOREGROUND_BASE_START) as u8)));
        lemma_sgr_scan_shift(
            p,
            q,
            j + 1,
            Some(FgColor::Indexed((c - SGR_FOREGROUND_BRIGHT_START + 8) as u8)),
        );
        if j + 1 < q.len() {
            lemma_sgr_scan_shift(p, q, j + 2, fg);
        }
        if j + 2 < q.len() {
            lemma_sgr_scan_shift(p, q, j + 3, fg);
            lemma_sgr_scan_shift(p, q, j + 3, Some(FgColor::Indexed(clamp_channel(q[j + 2]))));
        }
        if j + 4 < q.len() {
            lemma_sgr_scan_shift(p, q, j + 5, fg);
            lemma_sgr_scan_shift(
                p,
                q,
                j + 5,
                Some(FgColor::Rgb(clamp_channel(q[j + 2]), clamp_channel(q[j + 3]), clamp_channel(q[j + 4]))),
            );
        }
    }
}

/// Scanning either sets a foreground or passes on the one it started with.
proof fn lemma_sgr_scan_from(q: Seq<i64>, j: int, fg: Option<FgColor>)
    requires
        0 <= j,
    ensures
        sgr_scan(q, j, fg) == match sgr_scan(q, j, None) {
            Some(f) => Some(f),
            None => fg,
        },
    decreases q.len() - j,
{
    if j < q.len() {
        let c = q[j];
        lemma_sgr_scan_from(q, j + 1, fg);
        lemma_sgr_scan_from(q, j + 1, Some(FgColor::Default));
        lemma_sgr_scan_from(q, j + 1, Some(FgColor::Indexed((c - SGR_FOREGROUND_BASE_START) as u8)));
        lemma_sgr_scan_from(
            q,
            j + 1,
            Some(FgColor::Indexed((c - SGR_FOREGROUND_BRIGHT_START + 8) as u8)),
        );
        if j + 1 < q.len() {
            lemma_sgr_scan_from(q, j + 2, fg);
        }
        if j + 2 < q.len() {
            lemma_sgr_scan_from(q, j + 3, fg);
            lemma_sgr_scan_from(q, j + 3, Some(FgColor::Indexed(clamp_channel(q[j + 2]))));
        }
        if j + 4 < q.len() {
            lemma_sgr_scan_from(q, j + 5, fg);
            lemma_sgr_scan_from(
                q,
                j + 5,
                Some(FgColor::Rgb(clamp_channel(q[j + 2]), clamp_channel(q[j + 3]), clamp_channel(q[j + 4]))),
            );
        }
    }
}

proof fn lemma_sgr_scan_plain_prefix(p: Seq<i64>, q: Seq<i64>, i: int, fg: Option<FgColor>)
    requires
        plain_codes(p),
        0 <= i <= p.len(),
    ensures
        sgr_scan(p + q, i, fg) == sgr_scan(q, 0, sgr_scan(p, i, fg)),
    decreases p.len() - i,
{
    if i == p.len() {
        lemma_sgr_scan_shift(p, q, 0, fg);
    } else {
        let c = p[i];
        assert((p + q)[i] == c);
        assert(c != SGR_EXTENDED_FOREGROUND && c != SGR_EXTENDED_BACKGROUND);
        lemma_sgr_scan_plain_prefix(p, q, i + 1, fg);
        lemma_sgr_scan_plain_prefix(p, q, i + 1, Some(FgColor::Default));
        lemma_sgr_scan_plain_prefix(p, q, i + 1, Some(FgColor::Indexed((c - SGR_FOREGROUND_BASE_START) as u8)));
        lemma_sgr_scan_plain_prefix(
            p,
            q,
            i + 1,
            Some(FgColor::Indexed((c - SGR_FOREGROUND_BRIGHT_START + 8) as u8)),
        );
    }
}

/// Within one SGR list the last foreground code wins: after a list `p` of
/// plain codes (reset, bold, basic colors, ...), the parameters `q` decide
/// the foreground if they set one, and otherwise `p` does. For instance
/// `ESC[0;31m` is red.
pub proof fn lemma_sgr_last_code_wins(p: Seq<i64>, q: Seq<i64>)
    requires
        plain_codes(p),
        p.len() > 0,
        q.len() > 0,
    ensures
        sgr_update(p + q) == match sgr_update(q) {
            Some(f) => Some(f),
            None => sgr_update(p),
        },
{
    lemma_sgr_scan_plain_prefix(p, q, 0, None);
    lemma_sgr_scan_from(q, 0, sgr_scan(p, 0, None));
}

/// A basic foreground code at the end of a list of plain codes decides the
/// color: `p ++ [c]` with `c` in 30..=37 is palette index `c - 30`, and with
/// `c` in 90..=97 index `c - 82`.
pub proof fn lemma_sgr_final_basic_code(p: Seq<i64>, c: i64)
    requires
        plain_codes(p),
        30 <= c <= 37 || 90 <= c <= 97,
    ensures
        sgr_foreground(p.push(c)) == FgColor::Indexed((if c <= 37 { c - 30 } else { c - 82 }) as u8),
{
    assert(p.push(c) == p + seq![c]);
    let one = seq![c];
    assert(one.len() == 1 && one[0] == c);
    assert(sgr_scan(one, 1, Some(FgColor::Indexed((if c <= 37 { c - 30 } else { c - 82 }) as u8)))
        == Some(FgColor::Indexed((if c <= 37 { c - 30 } else { c - 82 }) as u8)));
    assert(sgr_update(one) == Some(FgColor::Indexed((if c <= 37 { c - 30 } else { c - 82 }) as u8)));
    if p.len() > 0 {
        lemma_sgr_last_code_wins(p, seq![c]);
    } else {
        assert(p.push(c) =~= seq![c]);
    }
}

proof fn lemma_sgr_single(c: i64)
    ensures
        sgr_update(seq![c]) == (if c == 0 || c == 39 {
            Some(FgColor::Default)
        } else if 30 <= c <= 37 {
            Some(FgColor::Indexed((c - 30) as u8))
        } else if 90 <= c <= 97 {
            Some(FgColor::Indexed((c - 82) as u8))
        } else {
            None
        }),
{
    let one = seq![c];
    assert(one.len() == 1 && one[0] == c);
    if c == 0 || c == 39 {
        assert(sgr_scan(one, 1, Some(FgColor::Default)) == Some(FgColor::Default));
    } else if 30 <= c <= 37 {
        let f = Some(FgColor::Indexed((c - 30) as u8));
        assert(sgr_scan(one, 1, f) == f);
    } else if 90 <= c <= 97 {
        let f = Some(FgColor::Indexed((c - 82) as u8));
        assert(sgr_scan(one, 1, f) == f);
    } else {
        assert(sgr_scan(one, 1, None) == None::<FgColor>);
    }
}

/// Each plain code added at the end of a list of plain codes acts on its
/// own: `0` and `39` reset the foreground, `30..=37` and `90..=97` select
/// palette indices `0..=7` and `8..=15`, and any other code (bold, a basic
/// background color, ...) leaves the foreground as the list before it set
/// it.
pub proof fn lemma_sgr_one_more_code(p: Seq<i64>, c: i64)
    requires
        plain_codes(p),
        p.len() > 0,
        c != 38,
        c != 48,
    ensures
        sgr_update(p.push(c)) == (if c == 0 || c == 39 {
            Some(FgColor::Default)
        } else if 30 <= c <= 37 {
            Some(FgColor::Indexed((c - 30) as u8))
        } else if 90 <= c <= 97 {
            Some(FgColor::Indexed((c - 82) as u8))
        } else {
            sgr_update(p)
        }),
{
    assert(p.push(c) == p + seq![c]);
    lemma_sgr_single(c);
    lemma_sgr_last_code_wins(p, seq![c]);
}

/// Extended colors after a list of plain codes: `38;5;n` selects palette
/// index `n` and `38;2;r;g;b` the truecolor `(r, g, b)`, each value clamped
/// into 0..=255, while the background forms `48;5;n` and `48;2;r;g;b` leave
/// the foreground as the list before them set it.
pub proof fn lemma_sgr_extended_codes(p: Seq<i64>, n: i64, r: i64, g: i64, b: i64)
    requires
        plain_codes(p),
        p.len() > 0,
    ensures
        sgr_update(p + seq![38, 5, n]) == Some(FgColor::Indexed(clamp_channel(n))),
        sgr_update(p + seq![38, 2, r, g, b]) == Some(
            FgColor::Rgb(clamp_channel(r), clamp_channel(g), clamp_channel(b)),
        ),
        sgr_update(p + seq![48, 5, n]) == sgr_update(p),
        sgr_update(p + seq![48, 2, r, g, b]) == sgr_update(p),
        clamp_channel(n) == (if n < 0 { 0 } else if n > 255 { 255 } else { n }),
{
    let q1 = seq![38i64, 5, n];
    let q2 = seq![38i64, 2, r, g, b];
    let q3 = seq![48i64, 5, n];
    let q4 = seq![48i64, 2, r, g, b];
    assert(q1.len() == 3 && q1[0] == 38 && q1[1] == 5 && q1[2] == n);
    assert(q2.len() == 5 && q2[0] == 38 && q2[1] == 2 && q2[2] == r && q2[3] == g && q2[4] == b);
    assert(q3.len() == 3 && q3[0] == 48 && q3[1] == 5);
    assert(q4.len() == 5 && q4[0] == 48 && q4[1] == 2);
    assert(sgr_scan(q1, 3, Some(FgColor::Indexed(clamp_channel(n)))) == Some(
        FgColor::Indexed(clamp_channel(n)),
    ));
    let rgb = Some(FgColor::Rgb(clamp_channel(r), clamp_channel(g), clamp_channel(b)));
    assert(sgr_scan(q2, 5, rgb) == rgb);
    assert(sgr_scan(q3, 3, None) == None::<FgColor>);
    assert(sgr_scan(q4, 5, None) == None::<FgColor>);
    lemma_sgr_last_code_wins(p, q1);
    lemma_sgr_last_code_wins(p, q2);
    lemma_sgr_last_code_wins(p, q3);
    lemma_sgr_last_code_wins(p, q4);
}

/// The decimal value of a run of digit bytes.
pub open spec fn decimal_value(digits: Seq<u8>) -> int
    decreases digits.len(),
{
    if digits.len() == 0 {
        0
    } else {
        decimal_value(digits.drop_last()) * 10 + (digits.last() - 0x30)
    }
}

/// Append the decimal digit `d` to the parameter `cur`, saturating at
/// `i64::MAX`.
pub open spec fn push_digit(cur: i64, d: int) -> i64 {
    if cur * 10 + d <= i64::MAX {
        (cur * 10 + d) as i64
    } else {
        i64::MAX
    }
}

/// The completed parameter value: an empty parameter counts as zero.
pub open spec fn param_value(current: Option<i64>) -> i64 {
    match current {
        Some(v) => v,
        None => 0,
    }
}

/// Whether `b` is visible output: printable ASCII or a tab.
pub open spec fn is_printable(b: u8) -> bool {
    (0x20 <= b && b <= 0x7e) || b == TAB
}

impl ParseMode {
    /// Parameters being accumulated are never negative.
    pub open spec fn wf(self) -> bool {
        match self {
            ParseMode::Csi { current, .. } => current matches Some(v) ==> v >= 0,
            _ => true,
        }
    }

    /// The parser transition table: current state and byte to next state and
    /// event. A raw newline ends the line whatever the state.
    pub open spec fn step(self, byte: u8) -> (ParseMode, ParserEvent) {
        let (next, event) = self.transition(byte);
        (next, if byte == NEWLINE { ParserEvent::FlushLine } else { event })
    }

    /// How a byte moves the parser, and what it means apart from ending a
    /// line.
    pub open spec fn transition(self, byte: u8) -> (ParseMode, ParserEvent) {
        match self {
            ParseMode::Ground => if byte == ESC {
                (ParseMode::Escape, ParserEvent::Nothing)
            } else if byte == NEWLINE {
                (ParseMode::Ground, ParserEvent::FlushLine)
            } else if is_printable(byte) {
                (ParseMode::Ground, ParserEvent::Printable)
            } else {
                (ParseMode::Ground, ParserEvent::Nothing)
            },
            ParseMode::Escape => if byte == CSI_INTRO {
                (ParseMode::Csi { params: Seq::empty(), current: None }, ParserEvent::Nothing)
            } else if byte == OSC_INTRO {
                (ParseMode::Osc, ParserEvent::Nothing)
            } else {
                (ParseMode::Ground, ParserEvent::Nothing)
            },
            ParseMode::Csi { params, current } => if 0x30 <= byte <= 0x39 {
                (
                    ParseMode::Csi {
                        params,
                        current: Some(push_digit(param_value(current), byte - 0x30)),
                    },
                    ParserEvent::Nothing,
                )
            } else if byte == 0x3b {
                (ParseMode::Csi { params: params.push(param_value(current)), current: None }, ParserEvent::Nothing)
            } else if CSI_FINAL_BYTE_START <= byte <= CSI_FINAL_BYTE_END {
                let all = params.push(param_value(current));
                (
                    ParseMode::Ground,
                    if byte == SGR_FINAL_BYTE && sgr_update(all) is Some {
                        ParserEvent::SetForeground(sgr_update(all).unwrap())
                    } else {
                        ParserEvent::Nothing
                    },
                )
            } else {
                (ParseMode::Csi { params, current }, ParserEvent::Nothing)
            },
            ParseMode::Osc => if byte == BEL {
                (ParseMode::Ground, ParserEvent::Nothing)
            } else if byte == ESC {
                (ParseMode::OscEscape, ParserEvent::Nothing)
            } else {
                (ParseMode::Osc, ParserEvent::Nothing)
            },
            ParseMode::OscEscape => if byte == ST_TERMINATOR {
                (ParseMode::Ground, ParserEvent::Nothing)
            } else {
                (ParseMode::Osc, ParserEvent::Nothing)
            },
        }
    }
}

impl ParseMode {
    /// The parser state after the bytes `bytes`.
    pub open spec fn walk(self, bytes: Seq<u8>) -> ParseMode
        decreases bytes.len(),
    {
        if bytes.len() == 0 {
            self
        } else {
            self.walk(bytes.drop_last()).step(bytes.last()).0
        }
    }
}

/// Inside an escape sequence no byte is visible text; a raw newline still ends
/// the line; only the final `m` of a CSI sequence can change the foreground;
/// and the sequence ends exactly on its terminator.
pub proof fn lemma_escape_bytes_are_invisible(mode: ParseMode, byte: u8)
    requires
        !(mode is Ground),
    ensures
        !(mode.step(byte).1 is Printable),
        mode.step(byte).1 is FlushLine <==> byte == NEWLINE,
        mode.step(byte).1 is SetForeground ==> mode is Csi && byte == SGR_FINAL_BYTE,
        mode is Csi && byte == SGR_FINAL_BYTE ==> (mode.step(byte).1 is SetForeground <==> sgr_update(
            mode->params.push(param_value(mode->current)),
        ) is Some),
        mode.step(byte).0 is Ground <==> {
            ||| (mode is Escape && byte != CSI_INTRO && byte != OSC_INTRO)
            ||| (mode is Csi && CSI_FINAL_BYTE_START <= byte <= CSI_FINAL_BYTE_END)
            ||| (mode is Osc && byte == BEL)
            ||| (mode is OscEscape && byte == ST_TERMINATOR)
        },
{
}

/// A run of digits of any length inside a CSI sequence is absorbed into the
/// parameter being read: the parser stays in the sequence, reports nothing,
/// and the parameter saturates instead of overflowing.
pub proof fn lemma_digit_run(params: Seq<i64>, current: Option<i64>, digits: Seq<u8>)
    requires
        (ParseMode::Csi { params, current }).wf(),
        forall|k: int| 0 <= k < digits.len() ==> 0x30 <= #[trigger] digits[k] <= 0x39,
    ensures
        (ParseMode::Csi { params, current }).walk(digits) matches ParseMode::Csi { params: p, current: c }
            && p == params && (digits.len() > 0 ==> c is Some) && (digits.len() == 0 ==> c == current),
        (ParseMode::Csi { params, current }).walk(digits).wf(),
        forall|k: int|
            0 <= k < digits.len() ==> (#[trigger] (ParseMode::Csi { params, current }).walk(
                digits.take(k),
            ).step(digits[k])).1 is Nothing,
    decreases digits.len(),
{
    let start = ParseMode::Csi { params, current };
    if digits.len() > 0 {
        let init = digits.drop_last();
        lemma_digit_run(params, current, init);
        assert forall|k: int| 0 <= k < digits.len() implies (#[trigger] start.walk(
            digits.take(k),
        ).step(digits[k])).1 is Nothing by {
            if k < init.len() {
                assert(digits.take(k) =~= init.take(k));
                assert(digits[k] == init[k]);
            } else {
                assert(digits.take(k) =~= init);
            }
        }
    }
}

/// A CSI parameter written as decimal digits is read as its decimal value
/// (as long as that fits in an `i64`).
pub proof fn lemma_digits_read_as_decimal(params: Seq<i64>, digits: Seq<u8>)
    requires
        digits.len() > 0,
        forall|k: int| 0 <= k < digits.len() ==> 0x30 <= #[trigger] digits[k] <= 0x39,
        decimal_value(digits) <= i64::MAX,
    ensures
        (ParseMode::Csi { params, current: None }).walk(digits) == (ParseMode::Csi {
            params,
            current: Some(decimal_value(digits) as i64),
        }),
    decreases digits.len(),
{
    let init = digits.drop_last();
    let d = digits.last();
    assert(0x30 <= d <= 0x39) by {
        assert(d == digits[digits.len() - 1]);
    }
    let start = ParseMode::Csi { params, current: None };
    assert(start.walk(digits) == start.walk(init).step(d).0);
    if init.len() == 0 {
        assert(decimal_value(init) == 0);
        assert(start.walk(init) == start);
    } else {
        assert forall|k: int| 0 <= k < init.len() implies 0x30 <= #[trigger] init[k] <= 0x39 by {
            assert(init[k] == digits[k]);
        }
        lemma_decimal_value_nonneg(init);
        assert(decimal_value(digits) == decimal_value(init) * 10 + (d - 0x30));
        lemma_digits_read_as_decimal(params, init);
    }
}

proof fn lemma_decimal_value_nonneg(digits: Seq<u8>)
    requires
        forall|k: int| 0 <= k < digits.len() ==> 0x30 <= #[trigger] digits[k] <= 0x39,
    ensures
        decimal_value(digits) >= 0,
    decreases digits.len(),
{
    if digits.len() > 0 {
        let init = digits.drop_last();
        assert forall|k: int| 0 <= k < init.len() implies 0x30 <= #[trigger] init[k] <= 0x39 by {
            assert(init[k] == digits[k]);
        }
        lemma_decimal_value_nonneg(init);
        assert(digits.last() == digits[digits.len() - 1]);
    }
}

/// Outside escape sequences: ESC starts one, a newline ends the line,
/// printable ASCII (0x20..=0x7e) and tab are visible text, and every other
/// byte is ignored; only ESC leaves the ground state.
pub proof fn lemma_ground_bytes(byte: u8)
    ensures
        ParseMode::Ground.step(byte) == (if byte == 0x1b {
            (ParseMode::Escape, ParserEvent::Nothing)
        } else if byte == 0x0a {
            (ParseMode::Ground, ParserEvent::FlushLine)
        } else if (0x20 <= byte && byte <= 0x7e) || byte == 0x09 {
            (ParseMode::Ground, ParserEvent::Printable)
        } else {
            (ParseMode::Ground, ParserEvent::Nothing)
        }),
{
}

/// The abstract state of a [`ColorLineFilter`].
pub struct FilterState {
    pub selection: ColorSelection,
    pub emitter: EmitterState,
    pub line_raw: Seq<u8>,
    pub line_matches: bool,
    pub fg: FgColor,
    pub mode: ParseMode,
}

impl FilterState {
    pub open spec fn wf(self) -> bool {
        self.emitter.wf() && self.mode.wf()
    }

    /// The state and the written bytes after one more input byte.
    pub open spec fn step(self, byte: u8) -> (FilterState, Seq<u8>) {
        let line = self.line_raw.push(byte);
        let (mode, event) = self.mode.step(byte);
        match event {
            ParserEvent::Printable => (
                FilterState {
                    line_raw: line,
                    mode,
                    line_matches: self.line_matches || self.selection.spec_matches(self.fg),
                    ..self
                },
                Seq::empty(),
            ),
            ParserEvent::SetForeground(fg) => (FilterState { line_raw: line, mode, fg, ..self }, Seq::empty()),
            ParserEvent::FlushLine => {
                let (emitter, out) = self.emitter.step(line, self.line_matches);
                (
                    FilterState { emitter, line_raw: Seq::empty(), line_matches: false, mode, ..self },
                    out,
                )
            },
            ParserEvent::Nothing => (FilterState { line_raw: line, mode, ..self }, Seq::empty()),
        }
    }

    /// The state and the written bytes after the input `bytes`.
    pub open spec fn run(self, bytes: Seq<u8>) -> (FilterState, Seq<u8>)
        decreases bytes.len(),
    {
        if bytes.len() == 0 {
            (self, Seq::empty())
        } else {
            let (mid, out1) = self.run(bytes.drop_last());
            let (last, out2) = mid.step(bytes.last());
            (last, out1 + out2)
        }
    }

    /// The state and the written bytes at the end of input: a last line
    /// without a trailing newline is handed to the emitter like any other.
    pub open spec fn finish(self) -> (FilterState, Seq<u8>) {
        if self.line_raw.len() > 0 {
            let (emitter, out) = self.emitter.step(self.line_raw, self.line_matches);
            (FilterState { emitter, line_raw: Seq::empty(), line_matches: false, ..self }, out)
        } else {
            (FilterState { line_raw: Seq::empty(), line_matches: false, ..self }, Seq::empty())
        }
    }
}

impl FilterState {
    /// The completed lines, each with whether it matched, in the order in
    /// which the input `bytes` complete them.
    pub open spec fn lines(self, bytes: Seq<u8>) -> Seq<(Seq<u8>, bool)>
        decreases bytes.len(),
    {
        if bytes.len() == 0 {
            Seq::empty()
        } else {
            let mid = self.run(bytes.drop_last()).0;
            let done = self.lines(bytes.drop_last());
            if mid.mode.step(bytes.last()).1 is FlushLine {
                done.push((mid.line_raw.push(bytes.last()), mid.line_matches))
            } else {
                done
            }
        }
    }

    /// All lines of a complete input: the completed ones, then the last line
    /// if the input does not end with a newline.
    pub open spec fn all_lines(self, bytes: Seq<u8>) -> Seq<(Seq<u8>, bool)> {
        let end = self.run(bytes).0;
        if end.line_raw.len() > 0 {
            self.lines(bytes).push((end.line_raw, end.line_matches))
        } else {
            self.lines(bytes)
        }
    }
}

/// The filter hands each completed line to the emitter and writes nothing
/// else: from any state `s` (a fresh filter, or one that has already seen
/// earlier input), its emitter state and what one call writes are those of
/// the emitter taking the lines completed by `bytes` one by one, each with
/// its match flag (`EmitterState::run` is one `step`, the contract of
/// `LineEmitter::finish_line`, per line; `lemma_line_matches` says when a
/// line matches). Context lines are thus written as the emitter writes them.
pub proof fn lemma_run_feeds_emitter(s: FilterState, bytes: Seq<u8>)
    ensures
        s.run(bytes).0.emitter == s.emitter.run(s.lines(bytes)).0,
        s.run(bytes).1 == s.emitter.run(s.lines(bytes)).1,
        s.run(bytes).0.selection == s.selection,
    decreases bytes.len(),
{
    if bytes.len() > 0 {
        let init = bytes.drop_last();
        lemma_run_feeds_emitter(s, init);
        let mid = s.run(init).0;
        let done = s.lines(init);
        if mid.mode.step(bytes.last()).1 is FlushLine {
            let e = (mid.line_raw.push(bytes.last()), mid.line_matches);
            assert(done.push(e).drop_last() =~= done);
            assert(done.push(e).last() == e);
        } else {
            assert(s.run(bytes).1 =~= s.run(init).1);
        }
    }
}

/// Lines are kept exactly as they arrived: the completed lines followed by
/// the line in progress are the input, byte for byte, and every completed
/// line ends with its newline.
pub proof fn lemma_lines_partition_input(s: FilterState, bytes: Seq<u8>)
    ensures
        s.lines(bytes).map_values(|l: (Seq<u8>, bool)| l.0).flatten() + s.run(bytes).0.line_raw
            == s.line_raw + bytes,
        forall|i: int|
            0 <= i < s.lines(bytes).len() ==> (#[trigger] s.lines(bytes)[i]).0.len() > 0 && s.lines(
                bytes,
            )[i].0.last() == NEWLINE,
    decreases bytes.len(),
{
    if bytes.len() == 0 {
        assert(s.lines(bytes).map_values(|l: (Seq<u8>, bool)| l.0) =~= Seq::<Seq<u8>>::empty());
        assert(s.line_raw + bytes =~= s.line_raw);
        assert(Seq::<u8>::empty() + s.line_raw =~= s.line_raw);
    } else {
        let init = bytes.drop_last();
        let b = bytes.last();
        lemma_run_partition_step(s, init, b);
        lemma_lines_partition_input(s, init);
        let mid = s.run(init).0;
        let done = s.lines(init);
        let raws = done.map_values(|l: (Seq<u8>, bool)| l.0);
        assert(init.push(b) =~= bytes);
        if mid.mode.step(b).1 is FlushLine {
            let e = (mid.line_raw.push(b), mid.line_matches);
            assert(done.push(e).map_values(|l: (Seq<u8>, bool)| l.0) =~= raws.push(e.0));
            raws.lemma_flatten_push(e.0);
            assert(raws.flatten() + mid.line_raw.push(b) =~= (raws.flatten() + mid.line_raw).push(b));
            assert((s.line_raw + init).push(b) =~= s.line_raw + bytes);
            assert(raws.push(e.0).flatten() + Seq::<u8>::empty() =~= s.line_raw + bytes);
            assert forall|i: int| 0 <= i < done.push(e).len() implies (#[trigger] done.push(e)[i]).0.len()
                > 0 && done.push(e)[i].0.last() == NEWLINE by {
                if i < done.len() {
                    assert(done.push(e)[i] == done[i]);
                }
            }
        } else {
            assert(raws.flatten() + mid.line_raw.push(b) =~= (raws.flatten() + mid.line_raw).push(b));
            assert((s.line_raw + init).push(b) =~= s.line_raw + bytes);
            assert(raws.flatten() + mid.line_raw.push(b) =~= s.line_raw + bytes);
        }
    }
}

proof fn lemma_run_partition_step(s: FilterState, init: Seq<u8>, b: u8)
    ensures
        s.run(init.push(b)).0 == s.run(init).0.step(b).0,
        s.lines(init.push(b)) == (if s.run(init).0.mode.step(b).1 is FlushLine {
            s.lines(init).push((s.run(init).0.line_raw.push(b), s.run(init).0.line_matches))
        } else {
            s.lines(init)
        }),
        s.run(init).0.mode.step(b).1 is FlushLine ==> b == NEWLINE && s.run(init.push(b)).0.line_raw
            == Seq::<u8>::empty(),
        !(s.run(init).0.mode.step(b).1 is FlushLine) ==> s.run(init.push(b)).0.line_raw == s.run(
            init,
        ).0.line_raw.push(b),
{
    assert(init.push(b).drop_last() =~= init);
    assert(init.push(b).last() == b);
}

/// The central promise: for a fresh filter, everything written for an input
/// is what the emitter writes for its lines, each line with whether some of
/// its visible text had a selected color. With `finish`, the last line
/// counts too.
pub proof fn lemma_filter_output(s: FilterState, bytes: Seq<u8>)
    requires
        s.emitter == EmitterState::initial(s.emitter.separator, s.emitter.before, s.emitter.after),
        s.line_raw.len() == 0,
        bytes.len() < usize::MAX,
    ensures
        s.run(bytes).1 == s.emitter.render(s.lines(bytes), 0, s.lines(bytes).len() as int),
        s.run(bytes).1 + s.run(bytes).0.finish().1 == s.emitter.render(
            s.all_lines(bytes),
            0,
            s.all_lines(bytes).len() as int,
        ),
{
    lemma_run_feeds_emitter(s, bytes);
    lemma_lines_partition_input(s, bytes);
    let ls = s.lines(bytes);
    lemma_lines_bounded(s, bytes);
    lemma_emitter_output(s.emitter, ls);
    let end = s.run(bytes).0;
    if end.line_raw.len() > 0 {
        let e = (end.line_raw, end.line_matches);
        lemma_emitter_output(s.emitter, ls.push(e));
        assert(ls.push(e).drop_last() =~= ls);
        assert(ls.push(e).last() == e);
    } else {
        assert(s.run(bytes).1 + end.finish().1 =~= s.run(bytes).1);
    }
}

/// Earlier input fixes the earlier lines: the completed lines of `a + b`
/// begin with the completed lines of `a`.
pub proof fn lemma_lines_prefix(s: FilterState, a: Seq<u8>, b: Seq<u8>)
    ensures
        s.lines(a + b).len() >= s.lines(a).len(),
        forall|k: int| 0 <= k < s.lines(a).len() ==> #[trigger] s.lines(a + b)[k] == s.lines(a)[k],
    decreases b.len(),
{
    if b.len() == 0 {
        assert(a + b =~= a);
    } else {
        lemma_lines_prefix(s, a, b.drop_last());
        assert((a + b).drop_last() =~= a + b.drop_last());
        assert((a + b).last() == b.last());
        let done = s.lines(a + b.drop_last());
        assert forall|k: int| 0 <= k < s.lines(a).len() implies #[trigger] s.lines(a + b)[k]
            == s.lines(a)[k] by {
            assert(done[k] == s.lines(a)[k]);
        }
    }
}

/// Without context lines, one call of `process_bytes` after earlier input
/// `prev` writes exactly what belongs to the lines that `bytes` completes:
/// each such line if it matched, preceded by the separator if an earlier
/// line was written and a line in between was not (see
/// `lemma_no_context_pieces` for each piece and `lemma_line_matches` for
/// when a line matches).
pub proof fn lemma_no_context_call(s: FilterState, prev: Seq<u8>, bytes: Seq<u8>)
    requires
        s.emitter == EmitterState::initial(s.emitter.separator, 0, 0),
        s.line_raw.len() == 0,
        prev.len() + bytes.len() < usize::MAX,
    ensures
        ({
            let done = s.lines(prev);
            let all = s.lines(prev + bytes);
            &&& all.len() >= done.len()
            &&& forall|k: int| 0 <= k < done.len() ==> #[trigger] all[k] == done[k]
            &&& s.run(prev).0.run(bytes).1 == s.emitter.render(all, done.len() as int, all.len() as int)
        }),
{
    let st = s.emitter;
    let done = s.lines(prev);
    let all = s.lines(prev + bytes);
    let n = done.len() as int;
    lemma_lines_prefix(s, prev, bytes);
    lemma_run_chunks(s, prev, bytes);
    lemma_filter_output(s, prev);
    lemma_filter_output(s, prev + bytes);
    lemma_render_split(st, all, 0, n, all.len() as int);
    lemma_no_context_prefix_stable(st, done, all, n);
    let head = st.render(done, 0, n);
    let x = s.run(prev).0.run(bytes).1;
    assert((head + x).skip(head.len() as int) =~= x);
    assert((head + st.render(all, n, all.len() as int)).skip(head.len() as int) =~= st.render(
        all,
        n,
        all.len() as int,
    ));
}

proof fn lemma_lines_bounded(s: FilterState, bytes: Seq<u8>)
    ensures
        s.lines(bytes).len() + (if s.run(bytes).0.line_raw.len() > 0 { 1int } else { 0 })
            <= bytes.len() + (if s.line_raw.len() > 0 { 1int } else { 0 }),
    decreases bytes.len(),
{
    if bytes.len() > 0 {
        let init = bytes.drop_last();
        lemma_lines_bounded(s, init);
        lemma_run_partition_step(s, init, bytes.last());
        assert(init.push(bytes.last()) =~= bytes);
    }
}

/// The start of the line in progress after `bytes`: the index just after the
/// last byte that completed a line, or 0.
pub open spec fn line_start(s: FilterState, bytes: Seq<u8>) -> int
    decreases bytes.len(),
{
    if bytes.len() == 0 {
        0
    } else if s.run(bytes.drop_last()).0.mode.step(bytes.last()).1 is FlushLine {
        bytes.len() as int
    } else {
        line_start(s, bytes.drop_last())
    }
}

/// Whether byte `k` of `bytes` is visible text written in a selected color.
pub open spec fn visible_in_color(s: FilterState, bytes: Seq<u8>, k: int) -> bool {
    let st = s.run(bytes.take(k)).0;
    st.mode.step(bytes[k]).1 is Printable && st.selection.spec_matches(st.fg)
}

/// A line is kept as soon as one visible character of it is written in a
/// selected color: the line in progress matches exactly when one of its
/// bytes is such a character.
pub proof fn lemma_line_matches(s: FilterState, bytes: Seq<u8>)
    requires
        !s.line_matches,
    ensures
        0 <= line_start(s, bytes) <= bytes.len(),
        s.run(bytes).0.line_matches <==> exists|k: int|
            line_start(s, bytes) <= k < bytes.len() && #[trigger] visible_in_color(s, bytes, k),
    decreases bytes.len(),
{
    if bytes.len() > 0 {
        let init = bytes.drop_last();
        let n = bytes.len() - 1;
        lemma_line_matches(s, init);
        lemma_run_feeds_emitter(s, init);
        assert(bytes.take(n) =~= init);
        assert forall|k: int| 0 <= k < n implies visible_in_color(s, bytes, k) == visible_in_color(
            s,
            init,
            k,
        ) by {
            assert(bytes.take(k) =~= init.take(k));
        }
        assert(bytes[n] == bytes.last());
        if s.run(init).0.line_matches {
            let k = choose|k: int| line_start(s, init) <= k < n && #[trigger] visible_in_color(s, init, k);
            assert(visible_in_color(s, bytes, k));
        }
        if s.run(bytes).0.line_matches && line_start(s, bytes) == line_start(s, init) {
            if !s.run(init).0.line_matches {
                assert(visible_in_color(s, bytes, n));
            }
        }
    }
}

/// An empty SGR parameter counts as zero: `ESC[m` behaves like `ESC[0m`,
/// and `ESC[;31m` like `ESC[0;31m`.
pub proof fn lemma_empty_param_is_zero(params: Seq<i64>, byte: u8)
    requires
        CSI_FINAL_BYTE_START <= byte <= CSI_FINAL_BYTE_END || byte == 0x3b,
    ensures
        (ParseMode::Csi { params, current: None }).step(byte) == (ParseMode::Csi {
            params,
            current: None,
        }).step(0x30).0.step(byte),
{
}

proof fn lemma_run_push(s: FilterState, init: Seq<u8>, b: u8)
    ensures
        s.run(init.push(b)).0 == s.run(init).0.step(b).0,
        s.run(init.push(b)).1 == s.run(init).1 + s.run(init).0.step(b).1,
{
    assert(init.push(b).drop_last() =~= init);
    assert(init.push(b).last() == b);
}

/// Only the final `m` of an SGR sequence can change the foreground color; in
/// particular a newline never does, so a color stays in effect across lines
/// until the next SGR sequence.
pub proof fn lemma_foreground_changes_only_on_sgr(s: FilterState, b: u8)
    ensures
        b != SGR_FINAL_BYTE ==> s.step(b).0.fg == s.fg,
        s.step(b).0.selection == s.selection,
{
}

/// Input without an `m` byte leaves the foreground color as it was.
pub proof fn lemma_foreground_kept_without_sgr(s: FilterState, bytes: Seq<u8>)
    requires
        forall|k: int| 0 <= k < bytes.len() ==> #[trigger] bytes[k] != SGR_FINAL_BYTE,
    ensures
        s.run(bytes).0.fg == s.fg,
    decreases bytes.len(),
{
    if bytes.len() > 0 {
        let init = bytes.drop_last();
        assert forall|k: int| 0 <= k < init.len() implies #[trigger] init[k] != SGR_FINAL_BYTE by {
            assert(init[k] == bytes[k]);
        }
        lemma_foreground_kept_without_sgr(s, init);
        lemma_run_push(s, init, bytes.last());
        assert(init.push(bytes.last()) =~= bytes);
        lemma_foreground_changes_only_on_sgr(s.run(init).0, bytes.last());
    }
}

/// After `ESC[31m` read outside any escape sequence, the foreground is red
/// (palette index 1) for all following input that holds no other `m`,
/// newlines included.
pub proof fn lemma_red_stays_red(s: FilterState, rest: Seq<u8>)
    requires
        s.mode is Ground,
        forall|k: int| 0 <= k < rest.len() ==> #[trigger] rest[k] != SGR_FINAL_BYTE,
    ensures
        s.run(seq![ESC, CSI_INTRO, 0x33u8, 0x31u8, SGR_FINAL_BYTE] + rest).0.fg == FgColor::Indexed(1),
{
    let e: Seq<u8> = seq![];
    let x1 = e.push(ESC);
    let x2 = x1.push(CSI_INTRO);
    let x3 = x2.push(0x33u8);
    let x4 = x3.push(0x31u8);
    let x5 = x4.push(SGR_FINAL_BYTE);
    assert(x5 =~= seq![ESC, CSI_INTRO, 0x33u8, 0x31u8, SGR_FINAL_BYTE]);
    lemma_run_push(s, e, ESC);
    lemma_run_push(s, x1, CSI_INTRO);
    lemma_run_push(s, x2, 0x33u8);
    lemma_run_push(s, x3, 0x31u8);
    lemma_run_push(s, x4, SGR_FINAL_BYTE);
    let params = seq![31i64];
    let st4 = s.run(x4).0;
    assert(st4.mode == ParseMode::Csi { params: Seq::<i64>::empty(), current: Some(31i64) });
    assert(Seq::<i64>::empty().push(31i64) =~= params);
    assert(params[0] == 31);
    assert(sgr_scan(params, 1, Some(FgColor::Indexed(1))) == Some(FgColor::Indexed(1)));
    assert(sgr_update(params) == Some(FgColor::Indexed(1)));
    assert(s.run(x5).0.fg == FgColor::Indexed(1));
    lemma_run_chunks(s, x5, rest);
    lemma_foreground_kept_without_sgr(s.run(x5).0, rest);
}

/// Inside an OSC sequence, bytes other than BEL, ESC and newline change
/// nothing but the raw line.
proof fn lemma_osc_payload(s: FilterState, payload: Seq<u8>)
    requires
        s.mode is Osc,
        forall|k: int|
            0 <= k < payload.len() ==> #[trigger] payload[k] != BEL && payload[k] != ESC && payload[k]
                != NEWLINE,
    ensures
        s.run(payload).0 == (FilterState { line_raw: s.line_raw + payload, ..s }),
        s.run(payload).1 == Seq::<u8>::empty(),
    decreases payload.len(),
{
    if payload.len() == 0 {
        assert(s.line_raw + payload =~= s.line_raw);
    } else {
        let init = payload.drop_last();
        assert forall|k: int| 0 <= k < init.len() implies #[trigger] init[k] != BEL && init[k] != ESC
            && init[k] != NEWLINE by {
            assert(init[k] == payload[k]);
        }
        lemma_osc_payload(s, init);
        lemma_run_push(s, init, payload.last());
        assert(init.push(payload.last()) =~= payload);
        assert((s.line_raw + init).push(payload.last()) =~= s.line_raw + payload);
        assert(Seq::<u8>::empty() + Seq::<u8>::empty() =~= Seq::<u8>::empty());
    }
}

/// An OSC sequence (`ESC ]`, a payload without BEL, ESC or newline, then BEL)
/// read outside any escape sequence is skipped whole: it writes nothing, is
/// no visible text, leaves the foreground and the match state of the line
/// alone, and the parser is back outside escapes afterwards. Only the raw
/// line grows by the sequence's bytes.
pub proof fn lemma_osc_skipped(s: FilterState, payload: Seq<u8>)
    requires
        s.mode is Ground,
        forall|k: int|
            0 <= k < payload.len() ==> #[trigger] payload[k] != BEL && payload[k] != ESC && payload[k]
                != NEWLINE,
    ensures
        ({
            let input = seq![ESC, OSC_INTRO] + payload + seq![BEL];
            &&& s.run(input).0 == (FilterState { line_raw: s.line_raw + input, ..s })
            &&& s.run(input).1 == Seq::<u8>::empty()
        }),
{
    let input = seq![ESC, OSC_INTRO] + payload + seq![BEL];
    let e: Seq<u8> = seq![];
    let x1 = e.push(ESC);
    let x2 = x1.push(OSC_INTRO);
    assert(x2 =~= seq![ESC, OSC_INTRO]);
    lemma_run_push(s, e, ESC);
    lemma_run_push(s, x1, OSC_INTRO);
    let mid = s.run(x2).0;
    assert(mid.mode is Osc);
    lemma_osc_payload(mid, payload);
    lemma_run_chunks(s, x2, payload);
    let y = x2 + payload;
    lemma_run_push(s, y, BEL);
    assert(y.push(BEL) =~= input);
    assert(mid.line_raw =~= s.line_raw + x2);
    assert(mid == (FilterState { line_raw: s.line_raw + x2, mode: ParseMode::Osc, ..s }));
    let end = s.run(y).0;
    assert(end == (FilterState { line_raw: s.line_raw + x2 + payload, mode: ParseMode::Osc, ..s }));
    assert((s.line_raw + x2 + payload).push(BEL) =~= s.line_raw + input);
    assert(end.step(BEL).0 == (FilterState { line_raw: s.line_raw + input, mode: ParseMode::Ground, ..s }));
    assert(s.mode == ParseMode::Ground);
    assert(s.run(y).1 =~= Seq::<u8>::empty());
    assert(s.run(input).1 =~= Seq::<u8>::empty());
}

/// The same holds for an OSC sequence ended by the string terminator
/// `ESC \` instead of BEL.
pub proof fn lemma_osc_skipped_to_st(s: FilterState, payload: Seq<u8>)
    requires
        s.mode is Ground,
        forall|k: int|
            0 <= k < payload.len() ==> #[trigger] payload[k] != BEL && payload[k] != ESC && payload[k]
                != NEWLINE,
    ensures
        ({
            let input = seq![ESC, OSC_INTRO] + payload + seq![ESC, ST_TERMINATOR];
            &&& s.run(input).0 == (FilterState { line_raw: s.line_raw + input, ..s })
            &&& s.run(input).1 == Seq::<u8>::empty()
        }),
{
    let input = seq![ESC, OSC_INTRO] + payload + seq![ESC, ST_TERMINATOR];
    let e: Seq<u8> = seq![];
    let x1 = e.push(ESC);
    let x2 = x1.push(OSC_INTRO);
    assert(x2 =~= seq![ESC, OSC_INTRO]);
    lemma_run_push(s, e, ESC);
    lemma_run_push(s, x1, OSC_INTRO);
    let mid = s.run(x2).0;
    lemma_osc_payload(mid, payload);
    lemma_run_chunks(s, x2, payload);
    let y = x2 + payload;
    lemma_run_push(s, y, ESC);
    lemma_run_push(s, y.push(ESC), ST_TERMINATOR);
    assert(y.push(ESC).push(ST_TERMINATOR) =~= input);
    assert(mid.line_raw =~= s.line_raw + x2);
    assert(mid == (FilterState { line_raw: s.line_raw + x2, mode: ParseMode::Osc, ..s }));
    let end = s.run(y).0;
    assert(end == (FilterState { line_raw: s.line_raw + x2 + payload, mode: ParseMode::Osc, ..s }));
    assert((s.line_raw + x2 + payload).push(ESC).push(ST_TERMINATOR) =~= s.line_raw + input);
    assert(s.mode == ParseMode::Ground);
    assert(s.run(y).1 =~= Seq::<u8>::empty());
    assert(s.run(input).1 =~= Seq::<u8>::empty());
}

/// Splitting the input into chunks does not change anything: feeding `a`
/// and then `b` leaves the same state and writes the same bytes as feeding
/// `a + b` at once.
pub proof fn lemma_run_chunks(s: FilterState, a: Seq<u8>, b: Seq<u8>)
    ensures
        s.run(a + b).0 == s.run(a).0.run(b).0,
        s.run(a + b).1 == s.run(a).1 + s.run(a).0.run(b).1,
    decreases b.len(),
{
    if b.len() == 0 {
        assert(a + b =~= a);
        assert(s.run(a).1 + s.run(a).0.run(b).1 =~= s.run(a).1);
    } else {
        lemma_run_chunks(s, a, b.drop_last());
        assert((a + b).drop_last() =~= a + b.drop_last());
        assert((a + b).last() == b.last());
        let mid = s.run(a).0;
        let (m2, o2) = mid.run(b.drop_last());
        let (m3, o3) = m2.step(b.last());
        assert(s.run(a).1 + (o2 + o3) =~= (s.run(a).1 + o2) + o3);
    }
}

/// Keeps whole lines whose visible text is written in a selected color.
pub struct ColorLineFilter {
    // User-selected matching rule to keep.
    selection: ColorSelection,
    // Exact bytes for the current line, including ANSI escapes. We keep these
    // so a matching line can be emitted exactly as it arrived.
    line_raw: Vec<u8>,
    // Once any printable character on the line is seen in the target color, the
    // whole line is kept.
    line_matches: bool,
    // Current foreground color as established by the most recent SGR sequence.
    fg: FgColor,
    // Cached result of `selection.matches(fg)` so printable text only needs a
    // boolean check in the hot path.
    fg_matches_target: bool,
    // Decides which completed lines are written, with their context.
    emitter: LineEmitter,
    // Streaming parser state. This persists across read() chunk boundaries.
    parser: AnsiParser,
}

impl View for ColorLineFilter {
    type V = FilterState;

    closed spec fn view(&self) -> FilterState {
        FilterState {
            selection: self.selection,
            emitter: self.emitter@,
            line_raw: self.line_raw@,
            line_matches: self.line_matches,
            fg: self.fg,
            mode: self.parser@,
        }
    }
}

impl ColorLineFilter {
    /// The invariant every filter keeps.
    pub closed spec fn inv(&self) -> bool {
        &&& self@.wf()
        &&& self.fg_matches_target == self.selection.spec_matches(self.fg)
    }

    pub fn new(selection: ColorSelection, config: FilterConfig) -> (f: ColorLineFilter)
        ensures
            f.inv(),
            f@ == (FilterState {
                selection,
                emitter: EmitterState::initial(config.separator@, config.before, config.after),
                line_raw: Seq::empty(),
                line_matches: false,
                fg: FgColor::Default,
                mode: ParseMode::Ground,
            }),
    {
        let f = ColorLineFilter {
            selection,
            line_raw: Vec::new(),
            line_matches: false,
            fg: FgColor::Default,
            fg_matches_target: false,
            emitter: LineEmitter::new(config),
            parser: AnsiParser::new(),
        };
        assert(f.line_raw@ =~= Seq::<u8>::empty());
        f
    }

    /// Feed a chunk of input; the bytes to write are appended to `out`.
    pub fn process_bytes(&mut self, bytes: &[u8], out: &mut Vec<u8>)
        requires
            old(self).inv(),
        ensures
            final(self).inv(),
            final(self)@ == old(self)@.run(bytes@).0,
            final(out)@ == old(out)@ + old(self)@.run(bytes@).1,
    {
        // Process one byte at a time so partial escape sequences can continue
        // cleanly across arbitrary read() chunk boundaries.
        let mut i: usize = 0;
        while i < bytes.len()
            invariant
                i <= bytes@.len(),
                self.inv(),
                self@ == old(self)@.run(bytes@.take(i as int)).0,
                out@ == old(out)@ + old(self)@.run(bytes@.take(i as int)).1,
            decreases bytes@.len() - i,
        {
            let byte = bytes[i];
            let ghost before = self@;
            let ghost out_before = out@;
            self.line_raw.push(byte);

            match self.parser.advance(byte) {
                ParserEvent::Printable => {
                    // We only need one matching printable character to keep the
                    // entire raw line.
                    if self.fg_matches_target {
                        self.line_matches = true;
                    }
                },
                ParserEvent::SetForeground(fg) => {
                    self.fg = fg;
                    self.fg_matches_target = self.selection.matches(self.fg);
                },
                // We flush on raw newline bytes rather than parser callbacks so
                // line handling stays simple and byte-accurate.
                ParserEvent::FlushLine => {
                    let mut raw: Vec<u8> = Vec::new();
                    std::mem::swap(&mut raw, &mut self.line_raw);
                    self.emitter.finish_line(raw, self.line_matches, out);
                    self.line_matches = false;
                },
                ParserEvent::Nothing => {},
            }
            proof {
                let prefix = bytes@.take(i as int);
                assert(bytes@.take(i + 1).drop_last() =~= prefix);
                assert(bytes@.take(i + 1).last() == byte);
                assert(self.line_raw@ =~= before.step(byte).0.line_raw);
                assert(self@ == before.step(byte).0);
                assert(out@ =~= out_before + before.step(byte).1);
            }
            i += 1;
        }
        assert(bytes@.take(bytes@.len() as int) =~= bytes@);
    }

    /// Signal the end of input, writing a last line that has no trailing
    /// newline if it is to be kept.
    pub fn finish(&mut self, out: &mut Vec<u8>)
        requires
            old(self).inv(),
        ensures
            final(self).inv(),
            final(self)@ == old(self)@.finish().0,
            final(out)@ == old(out)@ + old(self)@.finish().1,
    {
        // EOF may arrive without a trailing newline. In that case the buffered
        // line is still a complete line.
        if self.line_raw.len() > 0 {
            let mut raw: Vec<u8> = Vec::new();
            std::mem::swap(&mut raw, &mut self.line_raw);
            self.emitter.finish_line(raw, self.line_matches, out);
        } else {
            assert(out@ =~= old(out)@ + Seq::<u8>::empty());
        }
        self.line_raw.clear();
        self.line_matches = false;
        assert(self.line_raw@ =~= Seq::<u8>::empty());
    }
}

// Parser flow, at a high level:
//
// 1. Start in Ground.
//    Most bytes are either printable text, raw newlines, or the ESC byte that
//    begins an ANSI escape sequence.
//
// 2. If we see ESC, move to Escape.
//    The next byte tells us which family of escape sequence we are entering.
//    For this tool we only distinguish:
//    - CSI: ESC [ ...   used for SGR color changes such as ESC[31m
//    - OSC: ESC ] ...   used for things like terminal-title updates
//
// 3. Inside CSI, collect numeric parameters until we hit the final byte.
//    Example: ESC[38;2;255;0;0m accumulates the params
//    [38, 2, 255, 0, 0] and then the final `m` tells us to interpret them as
//    SGR ("set graphics rendition") data.
//
// 4. Inside OSC, ignore everything until the terminator.
//    OSC is not visible text and does not affect our foreground-color filter,
//    but we still need to skip over it so those bytes are not mistaken for
//    printable output.
//
// 5. Every processed byte produces a small semantic event for the caller:
//    - Printable: a visible character was seen
//    - FlushLine: a raw newline ended the line
//    - SetForeground: SGR changed the current foreground color
//    - Nothing: nothing relevant happened for filtering
struct AnsiParser {
    state: ParserState,
}

enum ParserState {
    // Default state: ordinary bytes, control bytes, or the start of an escape.
    Ground,
    // We just saw ESC and are waiting to learn which escape family this is.
    Escape,
    // Control Sequence Introducer, e.g. ESC[31m or ESC[38;2;255;0;0m.
    Csi(CsiState),
    // Operating System Command, e.g. terminal-title sequences. We do not use
    // them for matching, but we should skip over them cleanly.
    Osc,
    // Inside OSC, we saw ESC and are checking for the string terminator ESC \.
    OscEscape,
}

struct CsiState {
    // Fully completed numeric parameters, e.g. [38, 2, 255, 0, 0].
    params: Vec<i64>,
    // The parameter currently being accumulated from digit bytes.
    current: Option<i64>,
}

impl View for ParserState {
    type V = ParseMode;

    closed spec fn view(&self) -> ParseMode {
        match self {
            ParserState::Ground => ParseMode::Ground,
            ParserState::Escape => ParseMode::Escape,
            ParserState::Csi(csi) => ParseMode::Csi { params: csi.params@, current: csi.current },
            ParserState::Osc => ParseMode::Osc,
            ParserState::OscEscape => ParseMode::OscEscape,
        }
    }
}

impl View for AnsiParser {
    type V = ParseMode;

    closed spec fn view(&self) -> ParseMode {
        self.state@
    }
}

impl AnsiParser {
    fn new() -> (p: AnsiParser)
        ensures
            p@ == ParseMode::Ground,
    {
        AnsiParser { state: ParserState::Ground }
    }

    fn advance(&mut self, byte: u8) -> (event: ParserEvent)
        requires
            old(self)@.wf(),
        ensures
            final(self)@.wf(),
            (final(self)@, event) == old(self)@.step(byte),
    {
        // We temporarily take ownership of the current state so each match arm
        // can decide both:
        // - which event this byte produces
        // - which parser state should be active for the next byte
        //
        // That means `advance()` is the entire state machine transition table:
        // current state + current byte -> next state + parser event.
        let mut state = ParserState::Ground;
        std::mem::swap(&mut state, &mut self.state);
        let (next_state, event) = match state {
            ParserState::Ground => {
                if byte == ESC {
                    // ESC starts an ANSI escape sequence. We need one more
                    // byte to learn which kind of sequence it is.
                    (ParserState::Escape, ParserEvent::Nothing)
                } else if byte == NEWLINE {
                    // We treat raw newline bytes as the only line delimiter.
                    (ParserState::Ground, ParserEvent::FlushLine)
                } else if (0x20 <= byte && byte <= 0x7e) || byte == TAB {
                    // Printable ASCII and tabs count as visible output.
                    (ParserState::Ground, ParserEvent::Printable)
                } else {
                    // Other control bytes are ignored.
                    (ParserState::Ground, ParserEvent::Nothing)
                }
            },
            ParserState::Escape => {
                if byte == CSI_INTRO {
                    // ESC [ introduces a CSI sequence such as ESC[31m.
                    (ParserState::Csi(CsiState::new()), ParserEvent::Nothing)
                } else if byte == OSC_INTRO {
                    // ESC ] introduces an OSC sequence; we just skip it.
                    (ParserState::Osc, ParserEvent::Nothing)
                } else {
                    // Any other ESC sequence is not relevant to this tool.
                    (ParserState::Ground, ParserEvent::Nothing)
                }
            },
            ParserState::Csi(mut csi) => {
                if 0x30 <= byte && byte <= 0x39 {
                    // CSI parameters are ASCII digits separated by semicolons.
                    let digit = (byte - 0x30) as i64;
                    let cur = match csi.current {
                        Some(v) => v,
                        None => 0,
                    };
                    let next = if cur > (i64::MAX - digit) / 10 {
                        i64::MAX
                    } else {
                        cur * 10 + digit
                    };
                    csi.current = Some(next);
                    (ParserState::Csi(csi), ParserEvent::Nothing)
                } else if byte == 0x3b {
                    // Semicolon ends one parameter and starts the next.
                    csi.finish_param();
                    (ParserState::Csi(csi), ParserEvent::Nothing)
                } else if CSI_FINAL_BYTE_START <= byte && byte <= CSI_FINAL_BYTE_END {
                    // The final byte closes the CSI sequence. Only `m` (SGR)
                    // changes colors.
                    csi.finish_param();
                    let params = csi.params;
                    let event = if byte == SGR_FINAL_BYTE {
                        // A list without foreground codes (bold only, say)
                        // leaves the foreground as it was.
                        match sgr_foreground_update(params.as_slice()) {
                            Some(fg) => ParserEvent::SetForeground(fg),
                            None => ParserEvent::Nothing,
                        }
                    } else {
                        ParserEvent::Nothing
                    };
                    (ParserState::Ground, event)
                } else {
                    (ParserState::Csi(csi), ParserEvent::Nothing)
                }
            },
            ParserState::Osc => {
                if byte == BEL {
                    // OSC can end with BEL ...
                    (ParserState::Ground, ParserEvent::Nothing)
                } else if byte == ESC {
                    // ... or with the two-byte ST sequence ESC \.
                    (ParserState::OscEscape, ParserEvent::Nothing)
                } else {
                    (ParserState::Osc, ParserEvent::Nothing)
                }
            },
            ParserState::OscEscape => {
                // If the byte after ESC is `\`, the ST terminator is complete.
                // Otherwise the ESC was part of the OSC payload.
                let next_state = if byte == ST_TERMINATOR {
                    ParserState::Ground
                } else {
                    ParserState::Osc
                };
                (next_state, ParserEvent::Nothing)
            },
        };

        self.state = next_state;
        // A raw newline ends the line whatever the parser state, so an
        // unfinished escape sequence never swallows a line break.
        if byte == NEWLINE {
            ParserEvent::FlushLine
        } else {
            event
        }
    }
}

impl CsiState {
    fn new() -> (c: CsiState)
        ensures
            c.params@ == Seq::<i64>::empty(),
            c.current == None::<i64>,
    {
        CsiState { params: Vec::new(), current: None }
    }

    fn finish_param(&mut self)
        ensures
            final(self).params@ == old(self).params@.push(param_value(old(self).current)),
            final(self).current == None::<i64>,
    {
        // Empty parameters count as zero in SGR. That means ESC[m behaves the
        // same as ESC[0m.
        let v = match self.current {
            Some(v) => v,
            None => 0,
        };
        self.params.push(v);
        self.current = None;
    }
}

fn clamp_to_channel(x: i64) -> (c: u8)
    ensures
        c == clamp_channel(x),
{
    if x < 0 {
        0
    } else if x > 255 {
        255
    } else {
        x as u8
    }
}

/// Parse a complete SGR parameter list and return the foreground color it
/// sets, or `None` if it sets none.
///
/// Examples:
/// - `31` -> ANSI red
/// - `91` -> bright ANSI red
/// - `38;5;196` -> indexed 256-color red
/// - `38;2;255;0;0` -> truecolor red
/// - `1` (bold) or `48;5;31` (a background color) -> no foreground change
///
/// We intentionally ignore non-foreground SGR attributes such as bold,
/// underline, or background colors.
fn sgr_foreground_update(params: &[i64]) -> (fg: Option<FgColor>)
    ensures
        fg == sgr_update(params@),
{
    let reset: [i64; 1] = [SGR_RESET];
    let flat: &[i64] = if params.len() == 0 { reset.as_slice() } else { params };
    proof {
        if params@.len() == 0 {
            assert(flat@ =~= seq![SGR_RESET]);
            assert(sgr_scan(flat@, 1, Some(FgColor::Default)) == Some(FgColor::Default));
        }
    }

    let mut fg: Option<FgColor> = None;
    let mut i: usize = 0;

    while i < flat.len()
        invariant
            i <= flat@.len(),
            sgr_scan(flat@, i as int, fg) == sgr_update(params@),
        ensures
            fg == sgr_update(params@),
        decreases flat@.len() - i,
    {
        let c = flat[i];
        if c == SGR_RESET || c == SGR_DEFAULT_FOREGROUND {
            fg = Some(FgColor::Default);
            i += 1;
        } else if SGR_FOREGROUND_BASE_START <= c && c <= SGR_FOREGROUND_BASE_END {
            // ANSI base colors 30..37 map to indexes 0..7.
            fg = Some(FgColor::Indexed((c - SGR_FOREGROUND_BASE_START) as u8));
            i += 1;
        } else if SGR_FOREGROUND_BRIGHT_START <= c && c <= SGR_FOREGROUND_BRIGHT_END {
            // Bright ANSI colors 90..97 map to indexes 8..15.
            fg = Some(FgColor::Indexed((c - SGR_FOREGROUND_BRIGHT_START + 8) as u8));
            i += 1;
        } else if c == SGR_EXTENDED_FOREGROUND {
            // Extended foreground colors use:
            // - 38;5;n       for 256-color palette entries
            // - 38;2;r;g;b   for truecolor RGB
            if i + 1 >= flat.len() {
                break;
            }
            let mode = flat[i + 1];
            if mode == SGR_MODE_INDEXED && i + 2 < flat.len() {
                fg = Some(FgColor::Indexed(clamp_to_channel(flat[i + 2])));
                i += 3;
            } else if mode == SGR_MODE_RGB && flat.len() - i > 4 {
                let r = clamp_to_channel(flat[i + 2]);
                let g = clamp_to_channel(flat[i + 3]);
                let b = clamp_to_channel(flat[i + 4]);
                fg = Some(FgColor::Rgb(r, g, b));
                i += 5;
            } else {
                i += 2;
            }
        } else if c == SGR_EXTENDED_BACKGROUND {
            // Extended background colors (48;5;n and 48;2;r;g;b) are skipped
            // whole so their arguments are not read as codes.
            if i + 1 >= flat.len() {
                break;
            }
            let mode = flat[i + 1];
            if mode == SGR_MODE_INDEXED && i + 2 < flat.len() {
                i += 3;
            } else if mode == SGR_MODE_RGB && flat.len() - i > 4 {
                i += 5;
            } else {
                i += 2;
            }
        } else {
            i += 1;
        }
    }

    fg
}

/// Parse a complete SGR parameter list and return the foreground color it
/// leaves when applied to the default foreground: the color it sets, or
/// `FgColor::Default` if it sets none.
pub fn parse_sgr_foreground(params: &[i64]) -> (fg: FgColor)
    ensures
        fg == sgr_foreground(params@),
{
    match sgr_foreground_update(params) {
        Some(fg) => fg,
        None => FgColor::Default,
    }
}

} // verus!
