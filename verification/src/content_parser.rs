//! The `.rsvp` script format: text paragraphs interleaved with `@` directives
//! that set the "pen" (reading speed, easing, scale, flash and binaural
//! settings) carried forward until overridden.
//!
//! Numbers in a script are kept as the text that was written, checked to be
//! accepted by `f32`'s `FromStr` (see `number`); converting them is left to
//! the caller.

use vstd::prelude::*;

use crate::config::Easing;
use crate::number::{float_literal_in, is_float_literal};
use crate::text::{
    chars_of, copy_range, decimal, find, find_in, push_decimal, push_range, push_str, range_eq,
    range_views, ranges_within, split_char, split_char_ranges, split_ws, split_ws_ranges,
    starts_with_in, string_from_chars, strip_prefix, trim, trim_bounds, lines, line_ranges,
    lemma_trim_idempotent, lemma_split_char_nonempty, lemma_find, matches_at, decimal_value,
    lemma_decimal_spells,
};

verus! {

// ---------------------------------------------------------------------------
// Values the parser produces
// ---------------------------------------------------------------------------

/// Why a script was refused; each variant carries the (0-based) line number.
#[derive(Debug)]
pub enum ScriptError {
    UnknownDirective(usize, String),
    InvalidWpm(usize, String),
    InvalidEasing(usize, String),
    InvalidScale(usize, String),
    NoWpmDefined(usize),
    InvalidFlash(usize, String),
    ParseError(usize, String),
}

/// The three components of a color, as written (`r,g,b`).
#[derive(Debug)]
pub struct ColorTokens {
    pub red: String,
    pub green: String,
    pub blue: String,
}

/// Flash colors; `None` stands for the default of that color.
#[derive(Debug)]
pub struct FlashSpec {
    pub accent_color: Option<ColorTokens>,
    pub bg_color: Option<ColorTokens>,
}

/// Binaural overrides; `None` keeps the value of the theta preset.
#[derive(Debug)]
pub struct BinauralSpec {
    pub carrier_hz: Option<String>,
    pub beat_hz: Option<String>,
    pub drone_hz: Option<String>,
    pub volume: Option<String>,
}

/// One paragraph of the script with the pen that was active when it ended.
#[derive(Debug)]
pub struct ScriptBlock {
    pub text: String,
    pub wpm_from: String,
    pub wpm_to: String,
    pub easing: Option<Easing>,
    pub scale: Option<String>,
    pub flash: Option<FlashSpec>,
    pub binaural: Option<BinauralSpec>,
}

// ---------------------------------------------------------------------------
// Their mathematical models
// ---------------------------------------------------------------------------

pub enum ScriptFault {
    UnknownDirective(nat, Seq<char>),
    InvalidWpm(nat, Seq<char>),
    InvalidEasing(nat, Seq<char>),
    InvalidScale(nat, Seq<char>),
    NoWpmDefined(nat),
    InvalidFlash(nat, Seq<char>),
    ParseError(nat, Seq<char>),
}

pub struct SpecColor {
    pub red: Seq<char>,
    pub green: Seq<char>,
    pub blue: Seq<char>,
}

pub struct SpecFlash {
    pub accent_color: Option<SpecColor>,
    pub bg_color: Option<SpecColor>,
}

pub struct SpecBinaural {
    pub carrier_hz: Option<Seq<char>>,
    pub beat_hz: Option<Seq<char>>,
    pub drone_hz: Option<Seq<char>>,
    pub volume: Option<Seq<char>>,
}

pub struct SpecBlock {
    pub text: Seq<char>,
    pub wpm_from: Seq<char>,
    pub wpm_to: Seq<char>,
    pub easing: Option<Easing>,
    pub scale: Option<Seq<char>>,
    pub flash: Option<SpecFlash>,
    pub binaural: Option<SpecBinaural>,
}

/// The settings that carry forward from line to line.
pub struct SpecPen {
    pub wpm_from: Option<Seq<char>>,
    pub wpm_to: Option<Seq<char>>,
    pub easing: Option<Easing>,
    pub scale: Option<Seq<char>>,
    pub flash: Option<SpecFlash>,
    pub binaural: Option<SpecBinaural>,
}

/// The parser between two lines: the pen, the paragraph being collected,
/// the line it began on, and the blocks emitted so far.
pub struct SpecParse {
    pub pen: SpecPen,
    pub buf: Seq<char>,
    pub buf_start: nat,
    pub blocks: Seq<SpecBlock>,
}

pub open spec fn opt_string_view(o: Option<String>) -> Option<Seq<char>> {
    match o {
        Some(s) => Some(s@),
        None => None,
    }
}

impl View for ColorTokens {
    type V = SpecColor;

    open spec fn view(&self) -> SpecColor {
        SpecColor { red: self.red@, green: self.green@, blue: self.blue@ }
    }
}

pub open spec fn opt_color_view(o: Option<ColorTokens>) -> Option<SpecColor> {
    match o {
        Some(c) => Some(c@),
        None => None,
    }
}

impl View for FlashSpec {
    type V = SpecFlash;

    open spec fn view(&self) -> SpecFlash {
        SpecFlash {
            accent_color: opt_color_view(self.accent_color),
            bg_color: opt_color_view(self.bg_color),
        }
    }
}

impl View for BinauralSpec {
    type V = SpecBinaural;

    open spec fn view(&self) -> SpecBinaural {
        SpecBinaural {
            carrier_hz: opt_string_view(self.carrier_hz),
            beat_hz: opt_string_view(self.beat_hz),
            drone_hz: opt_string_view(self.drone_hz),
            volume: opt_string_view(self.volume),
        }
    }
}

impl View for ScriptBlock {
    type V = SpecBlock;

    open spec fn view(&self) -> SpecBlock {
        SpecBlock {
            text: self.text@,
            wpm_from: self.wpm_from@,
            wpm_to: self.wpm_to@,
            easing: self.easing,
            scale: opt_string_view(self.scale),
            flash: match self.flash {
                Some(f) => Some(f@),
                None => None,
            },
            binaural: match self.binaural {
                Some(b) => Some(b@),
                None => None,
            },
        }
    }
}

impl View for ScriptError {
    type V = ScriptFault;

    open spec fn view(&self) -> ScriptFault {
        match self {
            ScriptError::UnknownDirective(l, s) => ScriptFault::UnknownDirective(*l as nat, s@),
            ScriptError::InvalidWpm(l, s) => ScriptFault::InvalidWpm(*l as nat, s@),
            ScriptError::InvalidEasing(l, s) => ScriptFault::InvalidEasing(*l as nat, s@),
            ScriptError::InvalidScale(l, s) => ScriptFault::InvalidScale(*l as nat, s@),
            ScriptError::NoWpmDefined(l) => ScriptFault::NoWpmDefined(*l as nat),
            ScriptError::InvalidFlash(l, s) => ScriptFault::InvalidFlash(*l as nat, s@),
            ScriptError::ParseError(l, s) => ScriptFault::ParseError(*l as nat, s@),
        }
    }
}

pub open spec fn blocks_view(bs: Seq<ScriptBlock>) -> Seq<SpecBlock> {
    bs.map_values(|b: ScriptBlock| b@)
}

// ---------------------------------------------------------------------------
// The format
// ---------------------------------------------------------------------------

/// A number written on its own: its trimmed text, or the message of the refusal.
pub open spec fn spec_parse_float(val: Seq<char>) -> Result<Seq<char>, Seq<char>> {
    let t = trim(val);
    if is_float_literal(t) {
        Ok(t)
    } else {
        Err("'"@ + t + "' is not a valid number"@)
    }
}

/// A color written `r,g,b`.
pub open spec fn spec_parse_color(val: Seq<char>) -> Result<SpecColor, Seq<char>> {
    let parts = split_char(val, ',');
    if parts.len() != 3 {
        Err("expected 3 components, got "@ + decimal(parts.len()))
    } else if !is_float_literal(trim(parts[0])) {
        Err("invalid red component '"@ + trim(parts[0]) + "'"@)
    } else if !is_float_literal(trim(parts[1])) {
        Err("invalid green component '"@ + trim(parts[1]) + "'"@)
    } else if !is_float_literal(trim(parts[2])) {
        Err("invalid blue component '"@ + trim(parts[2]) + "'"@)
    } else {
        Ok(SpecColor { red: trim(parts[0]), green: trim(parts[1]), blue: trim(parts[2]) })
    }
}

/// One argument of `@flash`: `color=r,g,b`, `bgColor=r,g,b`, anything else ignored.
pub open spec fn flash_arg(tok: Seq<char>, acc: SpecFlash) -> Result<SpecFlash, Seq<char>> {
    match strip_prefix(tok, "color="@) {
        Some(val) => match spec_parse_color(val) {
            Ok(c) => Ok(SpecFlash { accent_color: Some(c), ..acc }),
            Err(e) => Err(e),
        },
        None => match strip_prefix(tok, "bgColor="@) {
            Some(val) => match spec_parse_color(val) {
                Ok(c) => Ok(SpecFlash { bg_color: Some(c), ..acc }),
                Err(e) => Err(e),
            },
            None => Ok(acc),
        },
    }
}

/// The arguments of `@flash`, left to right.
pub open spec fn flash_args(toks: Seq<Seq<char>>, acc: SpecFlash) -> Result<SpecFlash, Seq<char>>
    decreases toks.len(),
{
    if toks.len() == 0 {
        Ok(acc)
    } else {
        match flash_arg(toks[0], acc) {
            Ok(a) => flash_args(toks.drop_first(), a),
            Err(e) => Err(e),
        }
    }
}

/// One argument of `@binaural`: `carrier=`, `beat=`, `drone=` or `volume=` a number.
pub open spec fn binaural_arg(tok: Seq<char>, acc: SpecBinaural) -> Result<SpecBinaural, Seq<char>> {
    match strip_prefix(tok, "carrier="@) {
        Some(val) => match spec_parse_float(val) {
            Ok(x) => Ok(SpecBinaural { carrier_hz: Some(x), ..acc }),
            Err(e) => Err(e),
        },
        None => match strip_prefix(tok, "beat="@) {
            Some(val) => match spec_parse_float(val) {
                Ok(x) => Ok(SpecBinaural { beat_hz: Some(x), ..acc }),
                Err(e) => Err(e),
            },
            None => match strip_prefix(tok, "drone="@) {
                Some(val) => match spec_parse_float(val) {
                    Ok(x) => Ok(SpecBinaural { drone_hz: Some(x), ..acc }),
                    Err(e) => Err(e),
                },
                None => match strip_prefix(tok, "volume="@) {
                    Some(val) => match spec_parse_float(val) {
                        Ok(x) => Ok(SpecBinaural { volume: Some(x), ..acc }),
                        Err(e) => Err(e),
                    },
                    None => Err("unknown @binaural parameter '"@ + tok + "'"@),
                },
            },
        },
    }
}

/// The arguments of `@binaural`, left to right.
pub open spec fn binaural_args(toks: Seq<Seq<char>>, acc: SpecBinaural) -> Result<SpecBinaural, Seq<char>>
    decreases toks.len(),
{
    if toks.len() == 0 {
        Ok(acc)
    } else {
        match binaural_arg(toks[0], acc) {
            Ok(a) => binaural_args(toks.drop_first(), a),
            Err(e) => Err(e),
        }
    }
}

pub open spec fn no_flash_colors() -> SpecFlash {
    SpecFlash { accent_color: None, bg_color: None }
}

pub open spec fn theta_binaural() -> SpecBinaural {
    SpecBinaural { carrier_hz: None, beat_hz: None, drone_hz: None, volume: None }
}

/// The pen after the directive `@directive rest` on line `line_no` (the whole line is `line`).
pub open spec fn directive_step(
    pen: SpecPen,
    line_no: nat,
    line: Seq<char>,
    directive: Seq<char>,
    rest: Seq<char>,
) -> Result<SpecPen, ScriptFault> {
    if directive == "wpm"@ {
        match find(rest, "->"@) {
            Some(k) => {
                let from = trim(rest.take(k));
                let to = trim(rest.skip(k + 2));
                if is_float_literal(from) && is_float_literal(to) {
                    Ok(SpecPen { wpm_from: Some(from), wpm_to: Some(to), ..pen })
                } else {
                    Err(ScriptFault::InvalidWpm(line_no, rest))
                }
            },
            None => {
                if is_float_literal(rest) {
                    Ok(SpecPen { wpm_from: Some(rest), wpm_to: Some(rest), ..pen })
                } else {
                    Err(ScriptFault::InvalidWpm(line_no, rest))
                }
            },
        }
    } else if directive == "easing"@ {
        if rest == "linear"@ {
            Ok(SpecPen { easing: Some(Easing::Linear), ..pen })
        } else if rest == "instant"@ {
            Ok(SpecPen { easing: Some(Easing::Instant), ..pen })
        } else {
            Err(ScriptFault::InvalidEasing(line_no, rest))
        }
    } else if directive == "scale"@ {
        if is_float_literal(rest) {
            Ok(SpecPen { scale: Some(rest), ..pen })
        } else {
            Err(ScriptFault::InvalidScale(line_no, rest))
        }
    } else if directive == "flash"@ {
        match flash_args(split_ws(rest), no_flash_colors()) {
            Ok(f) => Ok(SpecPen { flash: Some(f), ..pen }),
            Err(e) => Err(ScriptFault::InvalidFlash(line_no, e)),
        }
    } else if directive == "binaural"@ {
        if rest == "off"@ {
            Ok(SpecPen { binaural: None, ..pen })
        } else {
            match binaural_args(split_ws(rest), theta_binaural()) {
                Ok(b) => Ok(SpecPen { binaural: Some(b), ..pen }),
                Err(e) => Err(ScriptFault::ParseError(line_no, e)),
            }
        }
    } else {
        Err(ScriptFault::UnknownDirective(line_no, line))
    }
}

/// Ends the paragraph being collected: a block with the current pen, unless it is blank.
pub open spec fn spec_flush(st: SpecParse) -> Result<SpecParse, ScriptFault> {
    let text = trim(st.buf);
    if text.len() == 0 {
        Ok(SpecParse { buf: Seq::empty(), ..st })
    } else {
        match (st.pen.wpm_from, st.pen.wpm_to) {
            (Some(f), Some(t)) => Ok(
                SpecParse {
                    buf: Seq::empty(),
                    blocks: st.blocks.push(
                        SpecBlock {
                            text,
                            wpm_from: f,
                            wpm_to: t,
                            easing: st.pen.easing,
                            scale: st.pen.scale,
                            flash: st.pen.flash,
                            binaural: st.pen.binaural,
                        },
                    ),
                    ..st
                },
            ),
            _ => Err(ScriptFault::NoWpmDefined(st.buf_start)),
        }
    }
}

/// The parser after line `line_no`, whose text is `raw`.
pub open spec fn line_step(st: SpecParse, line_no: nat, raw: Seq<char>) -> Result<SpecParse, ScriptFault> {
    let line = trim(raw);
    if line.len() > 0 && line[0] == '#' {
        Ok(st)
    } else if line.len() == 0 {
        spec_flush(st)
    } else if line[0] == '@' {
        let end = line.drop_first();
        let directive = match find(end, seq![' ']) {
            Some(k) => end.take(k),
            None => end,
        };
        let rest = match find(end, seq![' ']) {
            Some(k) => trim(end.skip(k + 1)),
            None => Seq::empty(),
        };
        match directive_step(st.pen, line_no, line, directive, rest) {
            Ok(p) => Ok(SpecParse { pen: p, ..st }),
            Err(e) => Err(e),
        }
    } else if st.buf.len() == 0 {
        Ok(SpecParse { buf: line, buf_start: line_no, ..st })
    } else {
        Ok(SpecParse { buf: st.buf + seq![' '] + line, ..st })
    }
}

/// The parser after the lines `ls`, the first of which is line `first`.
pub open spec fn run_lines(ls: Seq<Seq<char>>, first: nat, st: SpecParse) -> Result<SpecParse, ScriptFault>
    decreases ls.len(),
{
    if ls.len() == 0 {
        Ok(st)
    } else {
        match line_step(st, first, ls[0]) {
            Ok(s) => run_lines(ls.drop_first(), first + 1, s),
            Err(e) => Err(e),
        }
    }
}

pub open spec fn initial_parse() -> SpecParse {
    SpecParse {
        pen: SpecPen {
            wpm_from: None,
            wpm_to: None,
            easing: None,
            scale: None,
            flash: None,
            binaural: None,
        },
        buf: Seq::empty(),
        buf_start: 0,
        blocks: Seq::empty(),
    }
}

/// The parser's end: the last paragraph flushed.
pub open spec fn finish(r: Result<SpecParse, ScriptFault>) -> Result<Seq<SpecBlock>, ScriptFault> {
    match r {
        Ok(st) => match spec_flush(st) {
            Ok(s) => Ok(s.blocks),
            Err(e) => Err(e),
        },
        Err(e) => Err(e),
    }
}

/// The blocks of a script, or why it is refused.
pub open spec fn spec_parse_script(source: Seq<char>) -> Result<Seq<SpecBlock>, ScriptFault> {
    finish(run_lines(lines(source), 0, initial_parse()))
}


// ---------------------------------------------------------------------------
// The parser
// ---------------------------------------------------------------------------

/// `v[s.0..s.1]`.
pub open spec fn span_view(v: Seq<char>, s: (usize, usize)) -> Seq<char> {
    v.subrange(s.0 as int, s.1 as int)
}

pub open spec fn span_ok(s: (usize, usize), n: nat) -> bool {
    s.0 <= s.1 <= n
}

pub open spec fn opt_span_view(v: Seq<char>, s: Option<(usize, usize)>) -> Option<Seq<char>> {
    match s {
        Some(x) => Some(span_view(v, x)),
        None => None,
    }
}

pub open spec fn opt_span_ok(s: Option<(usize, usize)>, n: nat) -> bool {
    match s {
        Some(x) => span_ok(x, n),
        None => true,
    }
}

/// A color's components, as spans of the source.
#[derive(Clone, Copy)]
struct ColorSpans {
    red: (usize, usize),
    green: (usize, usize),
    blue: (usize, usize),
}

impl ColorSpans {
    spec fn view_in(self, v: Seq<char>) -> SpecColor {
        SpecColor {
            red: span_view(v, self.red),
            green: span_view(v, self.green),
            blue: span_view(v, self.blue),
        }
    }

    spec fn ok(self, n: nat) -> bool {
        span_ok(self.red, n) && span_ok(self.green, n) && span_ok(self.blue, n)
    }
}

spec fn opt_color_spans_view(v: Seq<char>, c: Option<ColorSpans>) -> Option<SpecColor> {
    match c {
        Some(x) => Some(x.view_in(v)),
        None => None,
    }
}

spec fn opt_color_spans_ok(c: Option<ColorSpans>, n: nat) -> bool {
    match c {
        Some(x) => x.ok(n),
        None => true,
    }
}

/// The text that `v[lo..hi]` spans.
fn span_string(v: &Vec<char>, s: (usize, usize)) -> (r: String)
    requires
        span_ok(s, v.len() as nat),
    ensures
        r@ == span_view(v@, s),
{
    let c = copy_range(v, s.0, s.1);
    string_from_chars(c.as_slice())
}

fn opt_span_string(v: &Vec<char>, s: Option<(usize, usize)>) -> (r: Option<String>)
    requires
        opt_span_ok(s, v.len() as nat),
    ensures
        opt_string_view(r) == opt_span_view(v@, s),
{
    match s {
        Some(x) => Some(span_string(v, x)),
        None => None,
    }
}

/// A number written in `v[lo..hi]`: the span of its trimmed text, or the refusal's message.
fn parse_float(v: &Vec<char>, lo: usize, hi: usize) -> (r: Result<(usize, usize), Vec<char>>)
    requires
        lo <= hi <= v.len(),
    ensures
        match r {
            Ok(s) => span_ok(s, v.len() as nat) && spec_parse_float(v@.subrange(lo as int, hi as int))
                == Ok::<Seq<char>, Seq<char>>(span_view(v@, s)),
            Err(m) => spec_parse_float(v@.subrange(lo as int, hi as int)) == Err::<Seq<char>, Seq<char>>(m@),
        },
{
    let (a, b) = trim_bounds(v, lo, hi);
    if float_literal_in(v, a, b) {
        Ok((a, b))
    } else {
        let mut m: Vec<char> = Vec::new();
        push_str(&mut m, "'");
        push_range(&mut m, v, a, b);
        push_str(&mut m, "' is not a valid number");
        assert(m@ =~= "'"@ + v@.subrange(a as int, b as int) + "' is not a valid number"@);
        Err(m)
    }
}

/// A color written `r,g,b` in `v[lo..hi]`.
fn parse_color(v: &Vec<char>, lo: usize, hi: usize) -> (r: Result<ColorSpans, Vec<char>>)
    requires
        lo <= hi <= v.len(),
    ensures
        match r {
            Ok(c) => c.ok(v.len() as nat) && spec_parse_color(v@.subrange(lo as int, hi as int))
                == Ok::<SpecColor, Seq<char>>(c.view_in(v@)),
            Err(m) => spec_parse_color(v@.subrange(lo as int, hi as int)) == Err::<SpecColor, Seq<char>>(m@),
        },
{
    let ghost val = v@.subrange(lo as int, hi as int);
    let parts = split_char_ranges(v, lo, hi, ',');
    let ghost ps = split_char(val, ',');
    assert(range_views(v@, parts@) == ps);
    if parts.len() != 3 {
        let mut m: Vec<char> = Vec::new();
        push_str(&mut m, "expected 3 components, got ");
        push_decimal(&mut m, parts.len());
        assert(m@ =~= "expected 3 components, got "@ + decimal(ps.len()));
        return Err(m);
    }
    assert(ps[0] == v@.subrange(parts@[0].0 as int, parts@[0].1 as int));
    assert(ps[1] == v@.subrange(parts@[1].0 as int, parts@[1].1 as int));
    assert(ps[2] == v@.subrange(parts@[2].0 as int, parts@[2].1 as int));
    let red = trim_bounds(v, parts[0].0, parts[0].1);
    let green = trim_bounds(v, parts[1].0, parts[1].1);
    let blue = trim_bounds(v, parts[2].0, parts[2].1);
    if !float_literal_in(v, red.0, red.1) {
        let mut m: Vec<char> = Vec::new();
        push_str(&mut m, "invalid red component '");
        push_range(&mut m, v, red.0, red.1);
        push_str(&mut m, "'");
        assert(m@ =~= "invalid red component '"@ + span_view(v@, red) + "'"@);
        return Err(m);
    }
    if !float_literal_in(v, green.0, green.1) {
        let mut m: Vec<char> = Vec::new();
        push_str(&mut m, "invalid green component '");
        push_range(&mut m, v, green.0, green.1);
        push_str(&mut m, "'");
        assert(m@ =~= "invalid green component '"@ + span_view(v@, green) + "'"@);
        return Err(m);
    }
    if !float_literal_in(v, blue.0, blue.1) {
        let mut m: Vec<char> = Vec::new();
        push_str(&mut m, "invalid blue component '");
        push_range(&mut m, v, blue.0, blue.1);
        push_str(&mut m, "'");
        assert(m@ =~= "invalid blue component '"@ + span_view(v@, blue) + "'"@);
        return Err(m);
    }
    Ok(ColorSpans { red, green, blue })
}


/// Flash colors, as spans of the source.
#[derive(Clone, Copy)]
struct FlashSpans {
    accent: Option<ColorSpans>,
    bg: Option<ColorSpans>,
}

impl FlashSpans {
    spec fn view_in(self, v: Seq<char>) -> SpecFlash {
        SpecFlash {
            accent_color: opt_color_spans_view(v, self.accent),
            bg_color: opt_color_spans_view(v, self.bg),
        }
    }

    spec fn ok(self, n: nat) -> bool {
        opt_color_spans_ok(self.accent, n) && opt_color_spans_ok(self.bg, n)
    }
}

/// Binaural overrides, as spans of the source.
#[derive(Clone, Copy)]
struct BinauralSpans {
    carrier: Option<(usize, usize)>,
    beat: Option<(usize, usize)>,
    drone: Option<(usize, usize)>,
    volume: Option<(usize, usize)>,
}

impl BinauralSpans {
    spec fn view_in(self, v: Seq<char>) -> SpecBinaural {
        SpecBinaural {
            carrier_hz: opt_span_view(v, self.carrier),
            beat_hz: opt_span_view(v, self.beat),
            drone_hz: opt_span_view(v, self.drone),
            volume: opt_span_view(v, self.volume),
        }
    }

    spec fn ok(self, n: nat) -> bool {
        opt_span_ok(self.carrier, n) && opt_span_ok(self.beat, n) && opt_span_ok(self.drone, n)
            && opt_span_ok(self.volume, n)
    }
}

/// If `v[tok]` starts with `p`, the span of what follows `p`.
fn strip_prefix_span(v: &Vec<char>, tok: (usize, usize), p: &str) -> (r: Option<(usize, usize)>)
    requires
        span_ok(tok, v.len() as nat),
    ensures
        match strip_prefix(span_view(v@, tok), p@) {
            Some(rest) => r is Some && span_ok(r->0, v.len() as nat) && span_view(v@, r->0) == rest,
            None => r is None,
        },
{
    let pat = chars_of(p);
    if starts_with_in(v, tok.0, tok.1, &pat) {
        assert(span_view(v@, tok).skip(pat.len() as int) =~= v@.subrange(
            tok.0 + pat.len(),
            tok.1 as int,
        ));
        Some((tok.0 + pat.len(), tok.1))
    } else {
        None
    }
}

fn flash_arg_exec(v: &Vec<char>, tok: (usize, usize), acc: FlashSpans) -> (r: Result<FlashSpans, Vec<char>>)
    requires
        span_ok(tok, v.len() as nat),
        acc.ok(v.len() as nat),
    ensures
        match r {
            Ok(f) => f.ok(v.len() as nat) && flash_arg(span_view(v@, tok), acc.view_in(v@)) == Ok::<
                SpecFlash,
                Seq<char>,
            >(f.view_in(v@)),
            Err(m) => flash_arg(span_view(v@, tok), acc.view_in(v@)) == Err::<SpecFlash, Seq<char>>(m@),
        },
{
    match strip_prefix_span(v, tok, "color=") {
        Some(val) => {
            let c = parse_color(v, val.0, val.1)?;
            Ok(FlashSpans { accent: Some(c), ..acc })
        },
        None => match strip_prefix_span(v, tok, "bgColor=") {
            Some(val) => {
                let c = parse_color(v, val.0, val.1)?;
                Ok(FlashSpans { bg: Some(c), ..acc })
            },
            None => Ok(acc),
        },
    }
}

/// The arguments of `@flash` in `v[lo..hi]`.
fn flash_args_exec(v: &Vec<char>, lo: usize, hi: usize) -> (r: Result<FlashSpans, Vec<char>>)
    requires
        lo <= hi <= v.len(),
    ensures
        match r {
            Ok(f) => f.ok(v.len() as nat) && flash_args(
                split_ws(v@.subrange(lo as int, hi as int)),
                no_flash_colors(),
            ) == Ok::<SpecFlash, Seq<char>>(f.view_in(v@)),
            Err(m) => flash_args(split_ws(v@.subrange(lo as int, hi as int)), no_flash_colors())
                == Err::<SpecFlash, Seq<char>>(m@),
        },
{
    let toks = split_ws_ranges(v, lo, hi);
    let ghost ts = split_ws(v@.subrange(lo as int, hi as int));
    let mut acc = FlashSpans { accent: None, bg: None };
    let mut i: usize = 0;
    assert(ts.skip(0) =~= ts);
    while i < toks.len()
        invariant
            i <= toks.len(),
            ranges_within(toks@, lo as int, hi as int),
            hi <= v.len(),
            range_views(v@, toks@) == ts,
            ts == split_ws(v@.subrange(lo as int, hi as int)),
            acc.ok(v.len() as nat),
            flash_args(ts, no_flash_colors()) == flash_args(ts.skip(i as int), acc.view_in(v@)),
        decreases toks.len() - i,
    {
        assert(range_views(v@, toks@).len() == toks.len());
        assert(ts.skip(i as int).len() > 0);
        assert(ts.skip(i as int)[0] == span_view(v@, toks@[i as int]));
        assert(ts.skip(i as int).drop_first() =~= ts.skip(i + 1));
        match flash_arg_exec(v, toks[i], acc) {
            Ok(a) => {
                acc = a;
            },
            Err(m) => {
                return Err(m);
            },
        }
        i = i + 1;
    }
    Ok(acc)
}

fn binaural_arg_exec(v: &Vec<char>, tok: (usize, usize), acc: BinauralSpans) -> (r: Result<BinauralSpans, Vec<char>>)
    requires
        span_ok(tok, v.len() as nat),
        acc.ok(v.len() as nat),
    ensures
        match r {
            Ok(b) => b.ok(v.len() as nat) && binaural_arg(span_view(v@, tok), acc.view_in(v@)) == Ok::<
                SpecBinaural,
                Seq<char>,
            >(b.view_in(v@)),
            Err(m) => binaural_arg(span_view(v@, tok), acc.view_in(v@)) == Err::<SpecBinaural, Seq<char>>(m@),
        },
{
    if let Some(val) = strip_prefix_span(v, tok, "carrier=") {
        let x = parse_float(v, val.0, val.1)?;
        return Ok(BinauralSpans { carrier: Some(x), ..acc });
    }
    if let Some(val) = strip_prefix_span(v, tok, "beat=") {
        let x = parse_float(v, val.0, val.1)?;
        return Ok(BinauralSpans { beat: Some(x), ..acc });
    }
    if let Some(val) = strip_prefix_span(v, tok, "drone=") {
        let x = parse_float(v, val.0, val.1)?;
        return Ok(BinauralSpans { drone: Some(x), ..acc });
    }
    if let Some(val) = strip_prefix_span(v, tok, "volume=") {
        let x = parse_float(v, val.0, val.1)?;
        return Ok(BinauralSpans { volume: Some(x), ..acc });
    }
    let mut m: Vec<char> = Vec::new();
    push_str(&mut m, "unknown @binaural parameter '");
    push_range(&mut m, v, tok.0, tok.1);
    push_str(&mut m, "'");
    assert(m@ =~= "unknown @binaural parameter '"@ + span_view(v@, tok) + "'"@);
    Err(m)
}

/// The arguments of `@binaural` in `v[lo..hi]`.
fn binaural_args_exec(v: &Vec<char>, lo: usize, hi: usize) -> (r: Result<BinauralSpans, Vec<char>>)
    requires
        lo <= hi <= v.len(),
    ensures
        match r {
            Ok(b) => b.ok(v.len() as nat) && binaural_args(
                split_ws(v@.subrange(lo as int, hi as int)),
                theta_binaural(),
            ) == Ok::<SpecBinaural, Seq<char>>(b.view_in(v@)),
            Err(m) => binaural_args(split_ws(v@.subrange(lo as int, hi as int)), theta_binaural())
                == Err::<SpecBinaural, Seq<char>>(m@),
        },
{
    let toks = split_ws_ranges(v, lo, hi);
    let ghost ts = split_ws(v@.subrange(lo as int, hi as int));
    let mut acc = BinauralSpans { carrier: None, beat: None, drone: None, volume: None };
    let mut i: usize = 0;
    assert(ts.skip(0) =~= ts);
    while i < toks.len()
        invariant
            i <= toks.len(),
            ranges_within(toks@, lo as int, hi as int),
            hi <= v.len(),
            range_views(v@, toks@) == ts,
            ts == split_ws(v@.subrange(lo as int, hi as int)),
            acc.ok(v.len() as nat),
            binaural_args(ts, theta_binaural()) == binaural_args(ts.skip(i as int), acc.view_in(v@)),
        decreases toks.len() - i,
    {
        assert(range_views(v@, toks@).len() == toks.len());
        assert(ts.skip(i as int).len() > 0);
        assert(ts.skip(i as int)[0] == span_view(v@, toks@[i as int]));
        assert(ts.skip(i as int).drop_first() =~= ts.skip(i + 1));
        match binaural_arg_exec(v, toks[i], acc) {
            Ok(a) => {
                acc = a;
            },
            Err(m) => {
                return Err(m);
            },
        }
        i = i + 1;
    }
    Ok(acc)
}


/// The current "pen state": settings that carry forward until overridden,
/// as spans of the source.
#[derive(Clone, Copy)]
struct State {
    wpm_from: Option<(usize, usize)>,
    wpm_to: Option<(usize, usize)>,
    easing: Option<Easing>,
    scale: Option<(usize, usize)>,
    flash: Option<FlashSpans>,
    binaural: Option<BinauralSpans>,
}

impl State {
    fn new() -> (s: Self)
        ensures
            s.wpm_from is None && s.wpm_to is None && s.easing is None,
            s.scale is None && s.flash is None && s.binaural is None,
    {
        State { wpm_from: None, wpm_to: None, easing: None, scale: None, flash: None, binaural: None }
    }

    spec fn view_in(self, v: Seq<char>) -> SpecPen {
        SpecPen {
            wpm_from: opt_span_view(v, self.wpm_from),
            wpm_to: opt_span_view(v, self.wpm_to),
            easing: self.easing,
            scale: opt_span_view(v, self.scale),
            flash: match self.flash {
                Some(f) => Some(f.view_in(v)),
                None => None,
            },
            binaural: match self.binaural {
                Some(b) => Some(b.view_in(v)),
                None => None,
            },
        }
    }

    spec fn ok(self, n: nat) -> bool {
        &&& opt_span_ok(self.wpm_from, n)
        &&& opt_span_ok(self.wpm_to, n)
        &&& opt_span_ok(self.scale, n)
        &&& match self.flash {
            Some(f) => f.ok(n),
            None => true,
        }
        &&& match self.binaural {
            Some(b) => b.ok(n),
            None => true,
        }
    }
}

/// Whether `v[s]` is the text of `lit`.
fn span_is(v: &Vec<char>, s: (usize, usize), lit: &str) -> (b: bool)
    requires
        span_ok(s, v.len() as nat),
    ensures
        b == (span_view(v@, s) == lit@),
{
    let w = chars_of(lit);
    range_eq(v, s.0, s.1, &w)
}

/// The pen after the directive whose name is `v[directive]` and argument `v[rest]`.
fn directive_exec(
    v: &Vec<char>,
    pen: State,
    line_no: usize,
    line: (usize, usize),
    directive: (usize, usize),
    rest: (usize, usize),
) -> (r: Result<State, ScriptError>)
    requires
        pen.ok(v.len() as nat),
        span_ok(line, v.len() as nat),
        span_ok(directive, v.len() as nat),
        span_ok(rest, v.len() as nat),
    ensures
        match r {
            Ok(p) => p.ok(v.len() as nat) && directive_step(
                pen.view_in(v@),
                line_no as nat,
                span_view(v@, line),
                span_view(v@, directive),
                span_view(v@, rest),
            ) == Ok::<SpecPen, ScriptFault>(p.view_in(v@)),
            Err(e) => directive_step(
                pen.view_in(v@),
                line_no as nat,
                span_view(v@, line),
                span_view(v@, directive),
                span_view(v@, rest),
            ) == Err::<SpecPen, ScriptFault>(e@),
        },
{
    let ghost r_s = span_view(v@, rest);
    if span_is(v, directive, "wpm") {
        let arrow = chars_of("->");
        proof {
            reveal_strlit("->");
        }
        match find_in(v, rest.0, rest.1, &arrow) {
            Some(k) => {
                let from = trim_bounds(v, rest.0, k);
                let to = trim_bounds(v, k + 2, rest.1);
                assert(r_s.take(k - rest.0) =~= v@.subrange(rest.0 as int, k as int));
                assert(r_s.skip(k - rest.0 + 2) =~= v@.subrange(k + 2, rest.1 as int));
                if float_literal_in(v, from.0, from.1) && float_literal_in(v, to.0, to.1) {
                    Ok(State { wpm_from: Some(from), wpm_to: Some(to), ..pen })
                } else {
                    Err(ScriptError::InvalidWpm(line_no, span_string(v, rest)))
                }
            },
            None => {
                if float_literal_in(v, rest.0, rest.1) {
                    Ok(State { wpm_from: Some(rest), wpm_to: Some(rest), ..pen })
                } else {
                    Err(ScriptError::InvalidWpm(line_no, span_string(v, rest)))
                }
            },
        }
    } else if span_is(v, directive, "easing") {
        if span_is(v, rest, "linear") {
            Ok(State { easing: Some(Easing::Linear), ..pen })
        } else if span_is(v, rest, "instant") {
            Ok(State { easing: Some(Easing::Instant), ..pen })
        } else {
            Err(ScriptError::InvalidEasing(line_no, span_string(v, rest)))
        }
    } else if span_is(v, directive, "scale") {
        if float_literal_in(v, rest.0, rest.1) {
            Ok(State { scale: Some(rest), ..pen })
        } else {
            Err(ScriptError::InvalidScale(line_no, span_string(v, rest)))
        }
    } else if span_is(v, directive, "flash") {
        match flash_args_exec(v, rest.0, rest.1) {
            Ok(f) => Ok(State { flash: Some(f), ..pen }),
            Err(m) => Err(ScriptError::InvalidFlash(line_no, string_from_chars(m.as_slice()))),
        }
    } else if span_is(v, directive, "binaural") {
        if span_is(v, rest, "off") {
            Ok(State { binaural: None, ..pen })
        } else {
            match binaural_args_exec(v, rest.0, rest.1) {
                Ok(b) => Ok(State { binaural: Some(b), ..pen }),
                Err(m) => Err(ScriptError::ParseError(line_no, string_from_chars(m.as_slice()))),
            }
        }
    } else {
        Err(ScriptError::UnknownDirective(line_no, span_string(v, line)))
    }
}


/// The parser between two lines (see `SpecParse`).
struct Parser {
    pen: State,
    buf: Vec<char>,
    buf_start: usize,
    blocks: Vec<ScriptBlock>,
}

impl Parser {
    spec fn view_in(&self, v: Seq<char>) -> SpecParse {
        SpecParse {
            pen: self.pen.view_in(v),
            buf: self.buf@,
            buf_start: self.buf_start as nat,
            blocks: blocks_view(self.blocks@),
        }
    }
}

fn color_tokens(v: &Vec<char>, c: ColorSpans) -> (r: ColorTokens)
    requires
        c.ok(v.len() as nat),
    ensures
        r@ == c.view_in(v@),
{
    ColorTokens {
        red: span_string(v, c.red),
        green: span_string(v, c.green),
        blue: span_string(v, c.blue),
    }
}

fn opt_color_tokens(v: &Vec<char>, c: Option<ColorSpans>) -> (r: Option<ColorTokens>)
    requires
        opt_color_spans_ok(c, v.len() as nat),
    ensures
        opt_color_view(r) == opt_color_spans_view(v@, c),
{
    match c {
        Some(x) => Some(color_tokens(v, x)),
        None => None,
    }
}

/// The block that the paragraph `text` forms under `pen`.
fn make_block(
    v: &Vec<char>,
    pen: State,
    text: String,
    wpm_from: (usize, usize),
    wpm_to: (usize, usize),
) -> (b: ScriptBlock)
    requires
        pen.ok(v.len() as nat),
        span_ok(wpm_from, v.len() as nat),
        span_ok(wpm_to, v.len() as nat),
    ensures
        b@ == (SpecBlock {
            text: text@,
            wpm_from: span_view(v@, wpm_from),
            wpm_to: span_view(v@, wpm_to),
            easing: pen.view_in(v@).easing,
            scale: pen.view_in(v@).scale,
            flash: pen.view_in(v@).flash,
            binaural: pen.view_in(v@).binaural,
        }),
{
    let flash = match pen.flash {
        Some(f) => Some(
            FlashSpec { accent_color: opt_color_tokens(v, f.accent), bg_color: opt_color_tokens(v, f.bg) },
        ),
        None => None,
    };
    let binaural = match pen.binaural {
        Some(b) => Some(
            BinauralSpec {
                carrier_hz: opt_span_string(v, b.carrier),
                beat_hz: opt_span_string(v, b.beat),
                drone_hz: opt_span_string(v, b.drone),
                volume: opt_span_string(v, b.volume),
            },
        ),
        None => None,
    };
    ScriptBlock {
        text,
        wpm_from: span_string(v, wpm_from),
        wpm_to: span_string(v, wpm_to),
        easing: pen.easing,
        scale: opt_span_string(v, pen.scale),
        flash,
        binaural,
    }
}

/// Ends the paragraph being collected (see `spec_flush`).
fn flush(v: &Vec<char>, p: &mut Parser) -> (r: Result<(), ScriptError>)
    requires
        old(p).pen.ok(v.len() as nat),
    ensures
        final(p).pen.ok(v.len() as nat),
        match r {
            Ok(_) => spec_flush(old(p).view_in(v@)) == Ok::<SpecParse, ScriptFault>(final(p).view_in(v@)),
            Err(e) => spec_flush(old(p).view_in(v@)) == Err::<SpecParse, ScriptFault>(e@),
        },
{
    let (a, b) = trim_bounds(&p.buf, 0, p.buf.len());
    assert(p.buf@.subrange(0, p.buf@.len() as int) =~= p.buf@);
    if a == b {
        p.buf = Vec::new();
        return Ok(());
    }
    let (wpm_from, wpm_to) = match (p.pen.wpm_from, p.pen.wpm_to) {
        (Some(f), Some(t)) => (f, t),
        _ => {
            return Err(ScriptError::NoWpmDefined(p.buf_start));
        },
    };
    let text_chars = copy_range(&p.buf, a, b);
    let text = string_from_chars(text_chars.as_slice());
    let block = make_block(v, p.pen, text, wpm_from, wpm_to);
    let ghost old_blocks = p.blocks@;
    p.blocks.push(block);
    assert(blocks_view(p.blocks@) =~= blocks_view(old_blocks).push(block@));
    p.buf = Vec::new();
    Ok(())
}

/// Feeds line `line_no`, spanning `v[raw]`, to the parser (see `line_step`).
fn line_exec(v: &Vec<char>, p: &mut Parser, line_no: usize, raw: (usize, usize)) -> (r: Result<(), ScriptError>)
    requires
        old(p).pen.ok(v.len() as nat),
        span_ok(raw, v.len() as nat),
    ensures
        final(p).pen.ok(v.len() as nat),
        match r {
            Ok(_) => line_step(old(p).view_in(v@), line_no as nat, span_view(v@, raw)) == Ok::<
                SpecParse,
                ScriptFault,
            >(final(p).view_in(v@)),
            Err(e) => line_step(old(p).view_in(v@), line_no as nat, span_view(v@, raw)) == Err::<
                SpecParse,
                ScriptFault,
            >(e@),
        },
{
    let (a, b) = trim_bounds(v, raw.0, raw.1);
    let ghost line = span_view(v@, (a, b));
    if a < b && v[a] == '#' {
        assert(line[0] == v@[a as int]);
        return Ok(());
    }
    if a == b {
        return flush(v, p);
    }
    assert(line[0] == v@[a as int]);
    if v[a] == '@' {
        let ghost end = line.drop_first();
        assert(end =~= v@.subrange(a + 1, b as int));
        let mut space: Vec<char> = Vec::new();
        space.push(' ');
        assert(space@ =~= seq![' ']);
        let (directive, rest) = match find_in(v, a + 1, b, &space) {
            Some(k) => {
                assert(end.take(k - (a + 1)) =~= v@.subrange(a + 1, k as int));
                assert(end.skip(k - (a + 1) + 1) =~= v@.subrange(k + 1, b as int));
                ((a + 1, k), trim_bounds(v, k + 1, b))
            },
            None => {
                assert(v@.subrange(b as int, b as int) =~= Seq::<char>::empty());
                ((a + 1, b), (b, b))
            },
        };
        match directive_exec(v, p.pen, line_no, (a, b), directive, rest) {
            Ok(pen) => {
                p.pen = pen;
                Ok(())
            },
            Err(e) => Err(e),
        }
    } else if p.buf.len() == 0 {
        p.buf = copy_range(v, a, b);
        p.buf_start = line_no;
        Ok(())
    } else {
        let ghost old_buf = p.buf@;
        p.buf.push(' ');
        push_range(&mut p.buf, v, a, b);
        assert(p.buf@ =~= old_buf + seq![' '] + line);
        Ok(())
    }
}

/// Reads an `.rsvp` script into blocks.
///
/// Lines are trimmed; `#` starts a comment line; an empty line ends a
/// paragraph; `@wpm`, `@easing`, `@scale`, `@flash` and `@binaural` set the pen,
/// which carries forward until overridden; other lines are paragraph text,
/// continuation lines joined with a space. A paragraph becomes a block with
/// the pen active when it ends; a paragraph with no `@wpm` before it is an error.
pub fn parse_script(source: &str) -> (r: Result<Vec<ScriptBlock>, ScriptError>)
    ensures
        match r {
            Ok(bs) => spec_parse_script(source@) == Ok::<Seq<SpecBlock>, ScriptFault>(blocks_view(bs@))
                && forall|i: int| 0 <= i < bs.len() ==> block_wf(#[trigger] bs@[i]@),
            Err(e) => spec_parse_script(source@) == Err::<Seq<SpecBlock>, ScriptFault>(e@),
        },
{
    let v = chars_of(source);
    let lrs = line_ranges(&v);
    let ghost ls = lines(v@);
    let mut p = Parser { pen: State::new(), buf: Vec::new(), buf_start: 0, blocks: Vec::new() };
    assert(blocks_view(p.blocks@) =~= Seq::<SpecBlock>::empty());
    assert(p.view_in(v@) =~= initial_parse());
    assert(ls.skip(0) =~= ls);
    let mut i: usize = 0;
    while i < lrs.len()
        invariant
            i <= lrs.len(),
            ranges_within(lrs@, 0, v.len() as int),
            range_views(v@, lrs@) == ls,
            ls == lines(v@),
            v@ == source@,
            p.pen.ok(v.len() as nat),
            spec_parse_script(source@) == finish(run_lines(ls.skip(i as int), i as nat, p.view_in(v@))),
        decreases lrs.len() - i,
    {
        assert(range_views(v@, lrs@).len() == lrs.len());
        assert(ls.skip(i as int)[0] == span_view(v@, lrs@[i as int]));
        assert(ls.skip(i as int).drop_first() =~= ls.skip(i + 1));
        match line_exec(&v, &mut p, i, lrs[i]) {
            Ok(_) => {},
            Err(e) => {
                return Err(e);
            },
        }
        i = i + 1;
    }
    assert(range_views(v@, lrs@).len() == lrs.len());
    assert(ls.skip(i as int).len() == 0);
    match flush(&v, &mut p) {
        Ok(_) => {
            proof {
                let bs = blocks_view(p.blocks@);
                lemma_parsed_blocks_well_formed(source@);
                assert(spec_parse_script(source@)->Ok_0 == bs);
                assert forall|k: int| 0 <= k < p.blocks.len() implies block_wf(#[trigger] p.blocks@[k]@) by {
                    assert(block_wf(bs[k]));
                }
            }
            Ok(p.blocks)
        },
        Err(e) => Err(e),
    }
}


/// The human-readable text of a refusal.
pub open spec fn fault_message(f: ScriptFault) -> Seq<char> {
    match f {
        ScriptFault::UnknownDirective(l, s) => "Line "@ + decimal(l) + ": unknown directive '"@ + s
            + "'"@,
        ScriptFault::InvalidWpm(l, s) => "Line "@ + decimal(l) + ": invalid @wpm value '"@ + s + "'"@,
        ScriptFault::InvalidEasing(l, s) => "Line "@ + decimal(l) + ": invalid @easing value '"@ + s
            + "'"@,
        ScriptFault::InvalidScale(l, s) => "Line "@ + decimal(l) + ": invalid @scale value '"@ + s
            + "'"@,
        ScriptFault::NoWpmDefined(l) => "Line "@ + decimal(l) + ": text block has no @wpm defined"@,
        ScriptFault::InvalidFlash(l, s) => "Line "@ + decimal(l) + ": invalid @flash defined: '"@ + s
            + "'"@,
        ScriptFault::ParseError(l, s) => "Line "@ + decimal(l) + ": "@ + s,
    }
}

impl ScriptError {
    /// The text that describes this error, as its `Display` writes it.
    pub fn message(&self) -> (m: String)
        ensures
            m@ == fault_message(self@),
    {
        let mut out: Vec<char> = Vec::new();
        push_str(&mut out, "Line ");
        match self {
            ScriptError::UnknownDirective(l, s) => {
                push_decimal(&mut out, *l);
                push_str(&mut out, ": unknown directive '");
                push_str(&mut out, s.as_str());
                push_str(&mut out, "'");
            },
            ScriptError::InvalidWpm(l, s) => {
                push_decimal(&mut out, *l);
                push_str(&mut out, ": invalid @wpm value '");
                push_str(&mut out, s.as_str());
                push_str(&mut out, "'");
            },
            ScriptError::InvalidEasing(l, s) => {
                push_decimal(&mut out, *l);
                push_str(&mut out, ": invalid @easing value '");
                push_str(&mut out, s.as_str());
                push_str(&mut out, "'");
            },
            ScriptError::InvalidScale(l, s) => {
                push_decimal(&mut out, *l);
                push_str(&mut out, ": invalid @scale value '");
                push_str(&mut out, s.as_str());
                push_str(&mut out, "'");
            },
            ScriptError::NoWpmDefined(l) => {
                push_decimal(&mut out, *l);
                push_str(&mut out, ": text block has no @wpm defined");
            },
            ScriptError::InvalidFlash(l, s) => {
                push_decimal(&mut out, *l);
                push_str(&mut out, ": invalid @flash defined: '");
                push_str(&mut out, s.as_str());
                push_str(&mut out, "'");
            },
            ScriptError::ParseError(l, s) => {
                push_decimal(&mut out, *l);
                push_str(&mut out, ": ");
                push_str(&mut out, s.as_str());
            },
        }
        assert(out@ =~= fault_message(self@));
        string_from_chars(out.as_slice())
    }
}


// ---------------------------------------------------------------------------
// What every parsed script satisfies
// ---------------------------------------------------------------------------

pub open spec fn opt_float(o: Option<Seq<char>>) -> bool {
    match o {
        Some(x) => is_float_literal(x),
        None => true,
    }
}

pub open spec fn color_wf(c: SpecColor) -> bool {
    is_float_literal(c.red) && is_float_literal(c.green) && is_float_literal(c.blue)
}

pub open spec fn opt_color_wf(o: Option<SpecColor>) -> bool {
    match o {
        Some(c) => color_wf(c),
        None => true,
    }
}

pub open spec fn flash_wf(f: SpecFlash) -> bool {
    opt_color_wf(f.accent_color) && opt_color_wf(f.bg_color)
}

pub open spec fn binaural_wf(b: SpecBinaural) -> bool {
    opt_float(b.carrier_hz) && opt_float(b.beat_hz) && opt_float(b.drone_hz) && opt_float(b.volume)
}

pub open spec fn pen_wf(p: SpecPen) -> bool {
    &&& opt_float(p.wpm_from)
    &&& opt_float(p.wpm_to)
    &&& opt_float(p.scale)
    &&& match p.flash {
        Some(f) => flash_wf(f),
        None => true,
    }
    &&& match p.binaural {
        Some(b) => binaural_wf(b),
        None => true,
    }
}

/// A block as the parser emits it: non-empty trimmed text, and every number
/// in it text that `f32` parses.
pub open spec fn block_wf(b: SpecBlock) -> bool {
    &&& b.text.len() > 0
    &&& trim(b.text) == b.text
    &&& is_float_literal(b.wpm_from)
    &&& is_float_literal(b.wpm_to)
    &&& opt_float(b.scale)
    &&& match b.flash {
        Some(f) => flash_wf(f),
        None => true,
    }
    &&& match b.binaural {
        Some(bi) => binaural_wf(bi),
        None => true,
    }
}

pub open spec fn parse_wf(st: SpecParse) -> bool {
    pen_wf(st.pen) && forall|i: int| 0 <= i < st.blocks.len() ==> block_wf(#[trigger] st.blocks[i])
}

proof fn lemma_flash_args_wf(toks: Seq<Seq<char>>, acc: SpecFlash)
    requires
        flash_wf(acc),
    ensures
        flash_args(toks, acc) matches Ok(f) ==> flash_wf(f),
    decreases toks.len(),
{
    if toks.len() > 0 {
        if let Ok(a) = flash_arg(toks[0], acc) {
            lemma_flash_args_wf(toks.drop_first(), a);
        }
    }
}

proof fn lemma_binaural_args_wf(toks: Seq<Seq<char>>, acc: SpecBinaural)
    requires
        binaural_wf(acc),
    ensures
        binaural_args(toks, acc) matches Ok(b) ==> binaural_wf(b),
    decreases toks.len(),
{
    if toks.len() > 0 {
        if let Ok(a) = binaural_arg(toks[0], acc) {
            lemma_binaural_args_wf(toks.drop_first(), a);
        }
    }
}

proof fn lemma_line_step_wf(st: SpecParse, line_no: nat, raw: Seq<char>)
    requires
        parse_wf(st),
    ensures
        line_step(st, line_no, raw) matches Ok(s) ==> parse_wf(s),
{
    let line = trim(raw);
    if line.len() > 0 && line[0] == '#' {
    } else if line.len() == 0 {
        lemma_flush_wf(st);
    } else if line[0] == '@' {
        let end = line.drop_first();
        let rest = match find(end, seq![' ']) {
            Some(k) => trim(end.skip(k + 1)),
            None => Seq::empty(),
        };
        lemma_flash_args_wf(split_ws(rest), no_flash_colors());
        lemma_binaural_args_wf(split_ws(rest), theta_binaural());
    }
}

proof fn lemma_flush_wf(st: SpecParse)
    requires
        parse_wf(st),
    ensures
        spec_flush(st) matches Ok(s) ==> parse_wf(s),
{
    lemma_trim_idempotent(st.buf);
}

proof fn lemma_run_lines_wf(ls: Seq<Seq<char>>, first: nat, st: SpecParse)
    requires
        parse_wf(st),
    ensures
        run_lines(ls, first, st) matches Ok(s) ==> parse_wf(s),
    decreases ls.len(),
{
    if ls.len() > 0 {
        lemma_line_step_wf(st, first, ls[0]);
        if let Ok(s) = line_step(st, first, ls[0]) {
            lemma_run_lines_wf(ls.drop_first(), first + 1, s);
        }
    }
}

/// Every block of a script that parses has non-empty text without surrounding
/// whitespace and a reading speed, and each number it holds is text that `f32`
/// parses.
pub proof fn lemma_parsed_blocks_well_formed(source: Seq<char>)
    ensures
        spec_parse_script(source) matches Ok(bs) ==> forall|i: int|
            0 <= i < bs.len() ==> block_wf(#[trigger] bs[i]),
{
    let st0 = initial_parse();
    assert(parse_wf(st0));
    lemma_run_lines_wf(lines(source), 0, st0);
    if let Ok(st) = run_lines(lines(source), 0, st0) {
        lemma_flush_wf(st);
    }
}


/// The name of the directive on a line (what follows `@`, up to the first
/// space), if the line is a directive.
pub open spec fn directive_name(raw: Seq<char>) -> Option<Seq<char>> {
    let line = trim(raw);
    if line.len() > 0 && line[0] == '@' {
        let end = line.drop_first();
        Some(
            match find(end, seq![' ']) {
                Some(k) => end.take(k),
                None => end,
            },
        )
    } else {
        None
    }
}

/// Settings carry forward until overridden: a line changes a setting of the
/// pen only when it is the directive that sets it.
pub proof fn lemma_settings_carry_forward(st: SpecParse, line_no: nat, raw: Seq<char>)
    ensures
        line_step(st, line_no, raw) matches Ok(s) ==> {
            &&& directive_name(raw) != Some("wpm"@) ==> s.pen.wpm_from == st.pen.wpm_from
                && s.pen.wpm_to == st.pen.wpm_to
            &&& directive_name(raw) != Some("easing"@) ==> s.pen.easing == st.pen.easing
            &&& directive_name(raw) != Some("scale"@) ==> s.pen.scale == st.pen.scale
            &&& directive_name(raw) != Some("flash"@) ==> s.pen.flash == st.pen.flash
            &&& directive_name(raw) != Some("binaural"@) ==> s.pen.binaural == st.pen.binaural
        },
{
}


// ---------------------------------------------------------------------------
// What each directive argument does
// ---------------------------------------------------------------------------

proof fn lemma_strip_prefix_concat(p: Seq<char>, x: Seq<char>)
    ensures
        strip_prefix(p + x, p) == Some(x),
{
    assert((p + x).take(p.len() as int) =~= p);
    assert((p + x).skip(p.len() as int) =~= x);
}

proof fn lemma_strip_prefix_first_differs(s: Seq<char>, p: Seq<char>)
    requires
        s.len() > 0,
        p.len() > 0,
        s[0] != p[0],
    ensures
        strip_prefix(s, p) is None,
{
    if p.len() <= s.len() {
        assert(s.take(p.len() as int)[0] != p[0]);
    }
}

/// A `@binaural` argument `carrier=x`, `beat=x`, `drone=x` or `volume=x`
/// sets exactly its own frequency (or volume) to the trimmed number `x`,
/// leaving the others as they were; a number `f32` refuses is reported.
pub proof fn lemma_binaural_arg_sets_its_field(x: Seq<char>, acc: SpecBinaural)
    ensures
        is_float_literal(trim(x)) ==> binaural_arg("carrier="@ + x, acc) == Ok::<SpecBinaural, Seq<char>>(
            SpecBinaural {
                carrier_hz: Some(trim(x)),
                beat_hz: acc.beat_hz,
                drone_hz: acc.drone_hz,
                volume: acc.volume,
            },
        ),
        is_float_literal(trim(x)) ==> binaural_arg("beat="@ + x, acc) == Ok::<SpecBinaural, Seq<char>>(
            SpecBinaural {
                carrier_hz: acc.carrier_hz,
                beat_hz: Some(trim(x)),
                drone_hz: acc.drone_hz,
                volume: acc.volume,
            },
        ),
        is_float_literal(trim(x)) ==> binaural_arg("drone="@ + x, acc) == Ok::<SpecBinaural, Seq<char>>(
            SpecBinaural {
                carrier_hz: acc.carrier_hz,
                beat_hz: acc.beat_hz,
                drone_hz: Some(trim(x)),
                volume: acc.volume,
            },
        ),
        is_float_literal(trim(x)) ==> binaural_arg("volume="@ + x, acc) == Ok::<SpecBinaural, Seq<char>>(
            SpecBinaural {
                carrier_hz: acc.carrier_hz,
                beat_hz: acc.beat_hz,
                drone_hz: acc.drone_hz,
                volume: Some(trim(x)),
            },
        ),
        !is_float_literal(trim(x)) ==> binaural_arg("beat="@ + x, acc) == Err::<SpecBinaural, Seq<char>>(
            "'"@ + trim(x) + "' is not a valid number"@,
        ),
{
    reveal_strlit("carrier=");
    reveal_strlit("beat=");
    reveal_strlit("drone=");
    reveal_strlit("volume=");
    let c = "carrier="@;
    let b = "beat="@;
    let d = "drone="@;
    let v = "volume="@;
    lemma_strip_prefix_concat(c, x);
    lemma_strip_prefix_concat(b, x);
    lemma_strip_prefix_concat(d, x);
    lemma_strip_prefix_concat(v, x);
    assert((b + x)[0] == 'b');
    assert((d + x)[0] == 'd');
    assert((v + x)[0] == 'v');
    lemma_strip_prefix_first_differs(b + x, c);
    lemma_strip_prefix_first_differs(d + x, c);
    lemma_strip_prefix_first_differs(d + x, b);
    lemma_strip_prefix_first_differs(v + x, c);
    lemma_strip_prefix_first_differs(v + x, b);
    lemma_strip_prefix_first_differs(v + x, d);
}

/// `@binaural beat=x` (and likewise `carrier=`, `drone=`, `volume=`) gives the
/// theta preset with exactly that one value replaced.
pub proof fn lemma_binaural_single_argument(x: Seq<char>)
    requires
        is_float_literal(trim(x)),
    ensures
        binaural_args(seq!["carrier="@ + x], theta_binaural()) == Ok::<SpecBinaural, Seq<char>>(
            SpecBinaural { carrier_hz: Some(trim(x)), beat_hz: None, drone_hz: None, volume: None },
        ),
        binaural_args(seq!["beat="@ + x], theta_binaural()) == Ok::<SpecBinaural, Seq<char>>(
            SpecBinaural { carrier_hz: None, beat_hz: Some(trim(x)), drone_hz: None, volume: None },
        ),
        binaural_args(seq!["drone="@ + x], theta_binaural()) == Ok::<SpecBinaural, Seq<char>>(
            SpecBinaural { carrier_hz: None, beat_hz: None, drone_hz: Some(trim(x)), volume: None },
        ),
        binaural_args(seq!["volume="@ + x], theta_binaural()) == Ok::<SpecBinaural, Seq<char>>(
            SpecBinaural { carrier_hz: None, beat_hz: None, drone_hz: None, volume: Some(trim(x)) },
        ),
{
    lemma_binaural_arg_sets_its_field(x, theta_binaural());
    lemma_binaural_args_single("carrier="@ + x, theta_binaural());
    lemma_binaural_args_single("beat="@ + x, theta_binaural());
    lemma_binaural_args_single("drone="@ + x, theta_binaural());
    lemma_binaural_args_single("volume="@ + x, theta_binaural());
}

proof fn lemma_binaural_args_single(t: Seq<char>, acc: SpecBinaural)
    ensures
        binaural_args(seq![t], acc) == binaural_arg(t, acc),
{
    let ts = seq![t];
    assert(ts[0] == t);
    assert(ts.drop_first() =~= Seq::<Seq<char>>::empty());
    match binaural_arg(t, acc) {
        Ok(a) => {
            assert(binaural_args(ts.drop_first(), a) == Ok::<SpecBinaural, Seq<char>>(a));
        },
        Err(e) => {},
    }
}


proof fn lemma_split_char_without(a: Seq<char>, c: char)
    requires
        !a.contains(c),
    ensures
        split_char(a, c) == seq![a],
    decreases a.len(),
{
    if a.len() == 0 {
        assert(a =~= Seq::<char>::empty());
        assert(seq![a] =~= seq![Seq::<char>::empty()]);
    } else {
        let t = a.drop_last();
        assert(!t.contains(c)) by {
            if t.contains(c) {
                let i = choose|i: int| 0 <= i < t.len() && t[i] == c;
                assert(a[i] == c);
            }
        }
        lemma_split_char_without(t, c);
        assert(a.last() != c) by {
            assert(a[a.len() - 1] == a.last());
        }
        assert(t.push(a.last()) =~= a);
        assert(split_char(a, c) =~= seq![a]);
    }
}

proof fn lemma_split_char_join(a: Seq<char>, c: char, b: Seq<char>)
    ensures
        split_char(a + seq![c] + b, c) == split_char(a, c) + split_char(b, c),
    decreases b.len(),
{
    let s = a + seq![c] + b;
    lemma_split_char_nonempty(b, c);
    if b.len() == 0 {
        assert(s.drop_last() =~= a);
        assert(split_char(s, c) =~= split_char(a, c) + split_char(b, c));
    } else {
        let b0 = b.drop_last();
        assert(s.drop_last() =~= a + seq![c] + b0);
        lemma_split_char_join(a, c, b0);
        lemma_split_char_nonempty(b0, c);
        assert(s.last() == b.last());
        assert(split_char(s, c) =~= split_char(a, c) + split_char(b, c));
    }
}

/// A color `r,g,b` has the trimmed `r`, `g` and `b` as its red, green and
/// blue components, in that order; the first component that `f32` refuses is
/// reported.
pub proof fn lemma_parse_color_components(r: Seq<char>, g: Seq<char>, b: Seq<char>)
    requires
        !r.contains(','),
        !g.contains(','),
        !b.contains(','),
    ensures
        is_float_literal(trim(r)) && is_float_literal(trim(g)) && is_float_literal(trim(b))
            ==> spec_parse_color(r + seq![','] + g + seq![','] + b) == Ok::<SpecColor, Seq<char>>(
            SpecColor { red: trim(r), green: trim(g), blue: trim(b) },
        ),
        !is_float_literal(trim(r)) ==> spec_parse_color(r + seq![','] + g + seq![','] + b) == Err::<
            SpecColor,
            Seq<char>,
        >("invalid red component '"@ + trim(r) + "'"@),
        is_float_literal(trim(r)) && !is_float_literal(trim(g)) ==> spec_parse_color(
            r + seq![','] + g + seq![','] + b,
        ) == Err::<SpecColor, Seq<char>>("invalid green component '"@ + trim(g) + "'"@),
        is_float_literal(trim(r)) && is_float_literal(trim(g)) && !is_float_literal(trim(b))
            ==> spec_parse_color(r + seq![','] + g + seq![','] + b) == Err::<SpecColor, Seq<char>>(
            "invalid blue component '"@ + trim(b) + "'"@,
        ),
{
    let rg = r + seq![','] + g;
    lemma_split_char_join(r, ',', g);
    lemma_split_char_join(rg, ',', b);
    lemma_split_char_without(r, ',');
    lemma_split_char_without(g, ',');
    lemma_split_char_without(b, ',');
    assert(split_char(rg + seq![','] + b, ',') =~= seq![r, g, b]);
}

/// A `@flash` argument `color=x` sets the accent color and `bgColor=x` the
/// background color to the color `x`, leaving the other as it was.
pub proof fn lemma_flash_arg_sets_its_color(x: Seq<char>, acc: SpecFlash)
    ensures
        spec_parse_color(x) matches Ok(c) ==> flash_arg("color="@ + x, acc) == Ok::<SpecFlash, Seq<char>>(
            SpecFlash { accent_color: Some(c), bg_color: acc.bg_color },
        ) && flash_arg("bgColor="@ + x, acc) == Ok::<SpecFlash, Seq<char>>(
            SpecFlash { accent_color: acc.accent_color, bg_color: Some(c) },
        ),
        spec_parse_color(x) matches Err(e) ==> flash_arg("color="@ + x, acc) == Err::<SpecFlash, Seq<char>>(e)
            && flash_arg("bgColor="@ + x, acc) == Err::<SpecFlash, Seq<char>>(e),
{
    reveal_strlit("color=");
    reveal_strlit("bgColor=");
    let c = "color="@;
    let b = "bgColor="@;
    lemma_strip_prefix_concat(c, x);
    lemma_strip_prefix_concat(b, x);
    assert((b + x)[0] == 'b');
    lemma_strip_prefix_first_differs(b + x, c);
}


proof fn lemma_directive_names_differ()
    ensures
        "wpm"@ != "easing"@,
        "wpm"@ != "scale"@,
        "wpm"@ != "flash"@,
        "wpm"@ != "binaural"@,
        "easing"@ != "scale"@,
        "easing"@ != "flash"@,
        "easing"@ != "binaural"@,
        "scale"@ != "flash"@,
        "scale"@ != "binaural"@,
        "flash"@ != "binaural"@,
        "linear"@ != "instant"@,
{
    reveal_strlit("wpm");
    reveal_strlit("easing");
    reveal_strlit("scale");
    reveal_strlit("flash");
    reveal_strlit("binaural");
    reveal_strlit("linear");
    reveal_strlit("instant");
    assert("wpm"@[0] != "easing"@[0]);
    assert("wpm"@[0] != "scale"@[0]);
    assert("wpm"@[0] != "flash"@[0]);
    assert("wpm"@[0] != "binaural"@[0]);
    assert("easing"@[0] != "scale"@[0]);
    assert("easing"@[0] != "flash"@[0]);
    assert("easing"@[0] != "binaural"@[0]);
    assert("scale"@[0] != "flash"@[0]);
    assert("scale"@[0] != "binaural"@[0]);
    assert("flash"@[0] != "binaural"@[0]);
    assert("linear"@[0] != "instant"@[0]);
}

/// `@wpm x` sets both the starting and the ending speed to `x`; `@wpm a -> b`
/// sets the starting speed to `a` and the ending speed to `b` (trimmed); the
/// other settings are kept.
pub proof fn lemma_wpm_directive(pen: SpecPen, n: nat, line: Seq<char>, a: Seq<char>, b: Seq<char>)
    ensures
        find(a, "->"@) is None && is_float_literal(a) ==> directive_step(pen, n, line, "wpm"@, a)
            == Ok::<SpecPen, ScriptFault>(
            SpecPen {
                wpm_from: Some(a),
                wpm_to: Some(a),
                easing: pen.easing,
                scale: pen.scale,
                flash: pen.flash,
                binaural: pen.binaural,
            },
        ),
        !a.contains('-') && is_float_literal(trim(a)) && is_float_literal(trim(b)) ==> directive_step(
            pen,
            n,
            line,
            "wpm"@,
            a + "->"@ + b,
        ) == Ok::<SpecPen, ScriptFault>(
            SpecPen {
                wpm_from: Some(trim(a)),
                wpm_to: Some(trim(b)),
                easing: pen.easing,
                scale: pen.scale,
                flash: pen.flash,
                binaural: pen.binaural,
            },
        ),
        !is_float_literal(a) && find(a, "->"@) is None ==> directive_step(pen, n, line, "wpm"@, a)
            == Err::<SpecPen, ScriptFault>(ScriptFault::InvalidWpm(n, a)),
{
    reveal_strlit("->");
    let arrow = "->"@;
    let rest = a + arrow + b;
    if !a.contains('-') {
        lemma_find(rest, arrow);
        assert(matches_at(rest, a.len() as int, arrow)) by {
            assert(rest.subrange(a.len() as int, a.len() + 2int) =~= arrow);
        }
        assert forall|j: int| 0 <= j < a.len() implies !matches_at(rest, j, arrow) by {
            if matches_at(rest, j, arrow) {
                assert(rest.subrange(j, j + 2)[0] == arrow[0]);
                assert(rest[j] == a[j]);
            }
        }
        match find(rest, arrow) {
            Some(k) => {
                if k < a.len() {
                    assert(!matches_at(rest, k, arrow));
                }
                assert(k == a.len());
            },
            None => {},
        }
        assert(rest.take(a.len() as int) =~= a);
        assert(rest.skip(a.len() + 2int) =~= b);
    }
}

/// `@easing linear` and `@easing instant` set the easing, anything else is
/// refused; `@scale x` sets the scale to the number `x`; `@binaural off`
/// turns the binaural track off. Each keeps every other setting.
pub proof fn lemma_setting_directives(pen: SpecPen, n: nat, line: Seq<char>, rest: Seq<char>)
    ensures
        directive_step(pen, n, line, "easing"@, "linear"@) == Ok::<SpecPen, ScriptFault>(
            SpecPen { easing: Some(Easing::Linear), ..pen },
        ),
        directive_step(pen, n, line, "easing"@, "instant"@) == Ok::<SpecPen, ScriptFault>(
            SpecPen { easing: Some(Easing::Instant), ..pen },
        ),
        rest != "linear"@ && rest != "instant"@ ==> directive_step(pen, n, line, "easing"@, rest) == Err::<
            SpecPen,
            ScriptFault,
        >(ScriptFault::InvalidEasing(n, rest)),
        is_float_literal(rest) ==> directive_step(pen, n, line, "scale"@, rest) == Ok::<SpecPen, ScriptFault>(
            SpecPen { scale: Some(rest), ..pen },
        ),
        !is_float_literal(rest) ==> directive_step(pen, n, line, "scale"@, rest) == Err::<SpecPen, ScriptFault>(
            ScriptFault::InvalidScale(n, rest),
        ),
        directive_step(pen, n, line, "binaural"@, "off"@) == Ok::<SpecPen, ScriptFault>(
            SpecPen { binaural: None, ..pen },
        ),
        rest != "wpm"@ && rest != "easing"@ && rest != "scale"@ && rest != "flash"@ && rest != "binaural"@
            ==> directive_step(pen, n, line, rest, Seq::empty()) == Err::<SpecPen, ScriptFault>(
            ScriptFault::UnknownDirective(n, line),
        ),
{
    lemma_directive_names_differ();
}

/// Ending a paragraph emits one block, whose text is the trimmed paragraph and
/// whose speeds, easing, scale, flash and binaural settings are the pen's;
/// without a speed it is refused at the paragraph's first line; a blank
/// paragraph emits nothing.
pub proof fn lemma_flush_emits_pen(st: SpecParse)
    ensures
        trim(st.buf).len() == 0 ==> spec_flush(st) == Ok::<SpecParse, ScriptFault>(
            SpecParse { buf: Seq::empty(), ..st },
        ),
        trim(st.buf).len() > 0 && (st.pen.wpm_from is None || st.pen.wpm_to is None) ==> spec_flush(st)
            == Err::<SpecParse, ScriptFault>(ScriptFault::NoWpmDefined(st.buf_start)),
        trim(st.buf).len() > 0 && st.pen.wpm_from is Some && st.pen.wpm_to is Some ==> (spec_flush(st) matches Ok(s)
            && s.pen == st.pen && s.buf.len() == 0 && s.blocks.len() == st.blocks.len() + 1
            && s.blocks.take(st.blocks.len() as int) == st.blocks && ({
            let blk = s.blocks.last();
            &&& blk.text == trim(st.buf)
            &&& Some(blk.wpm_from) == st.pen.wpm_from
            &&& Some(blk.wpm_to) == st.pen.wpm_to
            &&& blk.easing == st.pen.easing
            &&& blk.scale == st.pen.scale
            &&& blk.flash == st.pen.flash
            &&& blk.binaural == st.pen.binaural
        })),
{
    if trim(st.buf).len() > 0 && st.pen.wpm_from is Some && st.pen.wpm_to is Some {
        let s = spec_flush(st)->Ok_0;
        assert(s.blocks.take(st.blocks.len() as int) =~= st.blocks);
    }
}


/// What one line does to the parser: a comment (`#` first, after trimming)
/// changes nothing; a blank line ends the paragraph; a text line is appended
/// to the paragraph, after a single space when the paragraph already has
/// text, and starts it at this line number otherwise.
pub proof fn lemma_line_kinds(st: SpecParse, n: nat, raw: Seq<char>)
    ensures
        trim(raw).len() > 0 && trim(raw)[0] == '#' ==> line_step(st, n, raw) == Ok::<SpecParse, ScriptFault>(st),
        trim(raw).len() == 0 ==> line_step(st, n, raw) == spec_flush(st),
        trim(raw).len() > 0 && trim(raw)[0] != '#' && trim(raw)[0] != '@' && st.buf.len() == 0
            ==> line_step(st, n, raw) == Ok::<SpecParse, ScriptFault>(
            SpecParse { pen: st.pen, buf: trim(raw), buf_start: n, blocks: st.blocks },
        ),
        trim(raw).len() > 0 && trim(raw)[0] != '#' && trim(raw)[0] != '@' && st.buf.len() > 0
            ==> line_step(st, n, raw) == Ok::<SpecParse, ScriptFault>(
            SpecParse {
                pen: st.pen,
                buf: st.buf + seq![' '] + trim(raw),
                buf_start: st.buf_start,
                blocks: st.blocks,
            },
        ),
{
}


/// Lines are numbered in order: running the first `k` lines and then the rest
/// numbers the rest from `first + k`, so each line is reported with its own
/// index (0-based for a whole script).
pub proof fn lemma_run_lines_split(ls: Seq<Seq<char>>, first: nat, st: SpecParse, k: int)
    requires
        0 <= k <= ls.len(),
    ensures
        run_lines(ls, first, st) == match run_lines(ls.take(k), first, st) {
            Ok(s) => run_lines(ls.skip(k), first + k as nat, s),
            Err(e) => Err(e),
        },
    decreases k,
{
    if k == 0 {
        assert(ls.take(0).len() == 0);
        assert(ls.skip(0) =~= ls);
    } else {
        assert(ls.len() > 0);
        assert(ls.take(k)[0] == ls[0]);
        assert(ls.take(k).drop_first() =~= ls.drop_first().take(k - 1));
        assert(ls.skip(k) =~= ls.drop_first().skip(k - 1));
        match line_step(st, first, ls[0]) {
            Ok(s1) => {
                lemma_run_lines_split(ls.drop_first(), first + 1, s1, k - 1);
                assert(first + 1 + (k - 1) as nat == first + k as nat);
            },
            Err(e) => {},
        }
    }
}

/// The line number a refusal carries.
pub open spec fn fault_line(f: ScriptFault) -> nat {
    match f {
        ScriptFault::UnknownDirective(l, _) => l,
        ScriptFault::InvalidWpm(l, _) => l,
        ScriptFault::InvalidEasing(l, _) => l,
        ScriptFault::InvalidScale(l, _) => l,
        ScriptFault::NoWpmDefined(l) => l,
        ScriptFault::InvalidFlash(l, _) => l,
        ScriptFault::ParseError(l, _) => l,
    }
}

/// Every message starts with `Line ` and then the digits of the refusal's
/// line number.
pub proof fn lemma_message_names_line(f: ScriptFault)
    ensures
        fault_message(f).len() >= 5 + decimal(fault_line(f)).len(),
        fault_message(f).subrange(0, 5) == "Line "@,
        decimal_value(fault_message(f).subrange(5, 5int + decimal(fault_line(f)).len())) == fault_line(f),
{
    reveal_strlit("Line ");
    let l = fault_line(f);
    let d = decimal(l);
    lemma_decimal_spells(l);
    let m = fault_message(f);
    assert(m.len() >= 5 + d.len());
    assert(m.subrange(0, 5) =~= "Line "@);
    assert(m.subrange(5, 5int + d.len()) =~= d);
}

} // verus!
