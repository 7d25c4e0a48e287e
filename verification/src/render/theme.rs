//! Theming: the built-in presets, the colour scheme, and how `skinparam`
//! lines override a theme's colours, font and arrow settings.
use crate::text::{
    ascii_lower, chars_of, eq_str, find, find_char, slice_of, string_of, to_ascii_lower,
    to_lowercase, trim, trim_chars, unicode_lowercase,
};
use vstd::prelude::*;

verus! {

/// Whether the SVG follows the viewer's light or dark preference (`Auto`,
/// the default) or bakes in one palette.
#[derive(Debug, Clone, Copy, PartialEq, Eq, Structural, Default)]
pub enum ColorScheme {
    #[default]
    Auto,
    Light,
    Dark,
}

/// A skin parameter key as matched: trimmed and lowercased, so matching
/// ignores case.
pub fn normalize_key(k: &str) -> (r: String)
    ensures
        r@ == unicode_lowercase(trim(k@)),
{
    let c = chars_of(k);
    let t = trim_chars(c.as_slice());
    let s = string_of(t.as_slice());
    to_lowercase(s.as_str())
}

/// A skin parameter value trimmed, without the double quotes around it if
/// it has them (and at least two characters).
pub open spec fn spec_unquote_value(s: Seq<char>) -> Seq<char> {
    let t = trim(s);
    if t.len() >= 2 && t[0] == '"' && t.last() == '"' {
        t.subrange(1, t.len() - 1)
    } else {
        t
    }
}

/// See [`spec_unquote_value`].
pub fn unquote(s: &str) -> (r: String)
    ensures
        r@ == spec_unquote_value(s@),
{
    let c = chars_of(s);
    let t = trim_chars(c.as_slice());
    if t.len() >= 2 && t[0] == '"' && t[t.len() - 1] == '"' {
        let inner = slice_of(t.as_slice(), 1, t.len() - 1);
        string_of(inner.as_slice())
    } else {
        string_of(t.as_slice())
    }
}


// ---------------------------------------------------------------------------
// Numbers as `str::parse::<f64>` accepts them
// ---------------------------------------------------------------------------

pub open spec fn is_digit(c: char) -> bool {
    '0' <= c && c <= '9'
}

pub open spec fn drop_sign(s: Seq<char>) -> Seq<char> {
    if s.len() > 0 && (s[0] == '+' || s[0] == '-') {
        s.skip(1)
    } else {
        s
    }
}

/// Digits with at most one `.` among them, and at least one digit.
pub open spec fn is_mantissa(m: Seq<char>) -> bool {
    &&& forall|i: int| 0 <= i < m.len() ==> is_digit(#[trigger] m[i]) || m[i] == '.'
    &&& forall|i: int, j: int| #![trigger m[i], m[j]] 0 <= i < j < m.len() && m[i] == '.' ==> m[j] != '.'
    &&& exists|i: int| 0 <= i < m.len() && is_digit(#[trigger] m[i])
}

/// An optional sign, then at least one digit.
pub open spec fn is_exponent(x: Seq<char>) -> bool {
    let y = drop_sign(x);
    y.len() > 0 && forall|i: int| 0 <= i < y.len() ==> is_digit(#[trigger] y[i])
}

/// The text of a number as the standard library reads a float: once
/// lowercased, an optional sign, then `inf`, `infinity`, `nan`, or digits
/// with an optional `.` and an optional exponent `e` (optional sign, then
/// digits). No space is allowed around it.
pub open spec fn is_float_text(s: Seq<char>) -> bool {
    let l = ascii_lower(drop_sign(s));
    ||| l == "inf"@
    ||| l == "infinity"@
    ||| l == "nan"@
    ||| match find_char(l, 'e') {
        None => is_mantissa(l),
        Some(i) => is_mantissa(l.take(i as int)) && is_exponent(l.skip(i + 1int)),
    }
}

fn drop_sign_chars(s: &[char]) -> (r: Vec<char>)
    ensures
        r@ == drop_sign(s@),
{
    if s.len() > 0 && (s[0] == '+' || s[0] == '-') {
        slice_of(s, 1, s.len())
    } else {
        slice_of(s, 0, s.len())
    }
}

fn mantissa_ok(m: &[char]) -> (r: bool)
    ensures
        r == is_mantissa(m@),
{
    let mut dots: usize = 0;
    let mut digits: bool = false;
    let mut i: usize = 0;
    while i < m.len()
        invariant
            i <= m@.len(),
            dots <= 1,
            forall|j: int| 0 <= j < i ==> is_digit(#[trigger] m@[j]) || m@[j] == '.',
            forall|a: int, b: int| #![trigger m@[a], m@[b]] 0 <= a < b < i && m@[a] == '.' ==> m@[b] != '.',
            dots == 0 <==> (forall|j: int| 0 <= j < i ==> #[trigger] m@[j] != '.'),
            digits <==> (exists|j: int| 0 <= j < i && is_digit(#[trigger] m@[j])),
        decreases m.len() - i,
    {
        let c = m[i];
        if c == '.' {
            if dots == 1 {
                let ghost a = choose|j: int| 0 <= j < i && m@[j] == '.';
                assert(0 <= a < i as int && m@[a] == '.' && m@[i as int] == '.');
                return false;
            }
            dots = 1;
        } else if '0' <= c && c <= '9' {
            digits = true;
            assert(is_digit(m@[i as int]));
        } else {
            assert(!(is_digit(m@[i as int]) || m@[i as int] == '.'));
            return false;
        }
        i = i + 1;
    }
    digits
}

fn exponent_ok(x: &[char]) -> (r: bool)
    ensures
        r == is_exponent(x@),
{
    let y = drop_sign_chars(x);
    if y.len() == 0 {
        return false;
    }
    let mut i: usize = 0;
    while i < y.len()
        invariant
            i <= y@.len(),
            y@ == drop_sign(x@),
            forall|j: int| 0 <= j < i ==> is_digit(#[trigger] y@[j]),
        decreases y.len() - i,
    {
        if !('0' <= y[i] && y[i] <= '9') {
            assert(!is_digit(y@[i as int]));
            return false;
        }
        i = i + 1;
    }
    true
}

/// Whether `s` reads as a float (see [`is_float_text`]).
pub fn float_text(s: &str) -> (r: bool)
    ensures
        r == is_float_text(s@),
{
    let c = chars_of(s);
    let d = drop_sign_chars(c.as_slice());
    let l = to_ascii_lower(d.as_slice());
    if eq_str(l.as_slice(), "inf") || eq_str(l.as_slice(), "infinity") || eq_str(l.as_slice(), "nan") {
        return true;
    }
    match find(l.as_slice(), 'e') {
        None => mantissa_ok(l.as_slice()),
        Some(i) => {
            let m = slice_of(l.as_slice(), 0, i);
            let x = slice_of(l.as_slice(), i + 1, l.len());
            assert(m@ =~= l@.take(i as int));
            assert(x@ =~= l@.skip(i + 1int));
            mantissa_ok(m.as_slice()) && exponent_ok(x.as_slice())
        },
    }
}

// ---------------------------------------------------------------------------
// Themes
// ---------------------------------------------------------------------------

/// The built-in theme presets.
#[derive(Debug, Clone, Copy, PartialEq, Eq, Structural)]
pub enum ThemePreset {
    Light,
    Plain,
    Amiga,
    Dark,
    /// The adaptive palette; the same as `Default`.
    Auto,
    /// Any other name.
    Default,
}

/// The preset a lowercased theme name selects.
pub open spec fn spec_preset_of(lowered: Seq<char>) -> ThemePreset {
    if lowered == "light"@ {
        ThemePreset::Light
    } else if lowered == "plain"@ {
        ThemePreset::Plain
    } else if lowered == "amiga"@ {
        ThemePreset::Amiga
    } else if lowered == "dark"@ {
        ThemePreset::Dark
    } else if lowered == "auto"@ || lowered == "adaptive"@ {
        ThemePreset::Auto
    } else {
        ThemePreset::Default
    }
}

/// The preset `name` selects, matched ignoring case.
pub fn preset_of(name: &str) -> (r: ThemePreset)
    ensures
        r == spec_preset_of(unicode_lowercase(name@)),
{
    let lowered = to_lowercase(name);
    let l = chars_of(lowered.as_str());
    if eq_str(l.as_slice(), "light") {
        ThemePreset::Light
    } else if eq_str(l.as_slice(), "plain") {
        ThemePreset::Plain
    } else if eq_str(l.as_slice(), "amiga") {
        ThemePreset::Amiga
    } else if eq_str(l.as_slice(), "dark") {
        ThemePreset::Dark
    } else if eq_str(l.as_slice(), "auto") || eq_str(l.as_slice(), "adaptive") {
        ThemePreset::Auto
    } else {
        ThemePreset::Default
    }
}

/// The visual parameters every renderer reads. The font size and the arrow
/// thickness are kept as the number text they were given (always text that
/// [`is_float_text`] accepts); the renderer reads them as numbers.
pub struct Theme {
    pub background_color: String,
    pub font_family: String,
    pub font_size_text: String,
    pub font_color: String,
    pub arrow_color: String,
    pub arrow_thickness_text: String,
    pub class_background: String,
    pub class_border: String,
    pub sequence_participant_background: String,
    pub sequence_participant_border: String,
    pub sequence_lifeline_color: String,
    pub note_background: String,
    pub note_border: String,
    /// `Auto` follows the viewer's light or dark preference; `Light` and
    /// `Dark` bake in one palette.
    pub color_scheme: ColorScheme,
    /// The dark-mode counterparts used when `color_scheme` is `Auto`.
    pub dark_background_color: String,
    pub dark_font_color: String,
    pub dark_arrow_color: String,
}

/// A [`Theme`] with every text taken by its view.
pub struct ThemeView {
    pub background_color: Seq<char>,
    pub font_family: Seq<char>,
    pub font_size_text: Seq<char>,
    pub font_color: Seq<char>,
    pub arrow_color: Seq<char>,
    pub arrow_thickness_text: Seq<char>,
    pub class_background: Seq<char>,
    pub class_border: Seq<char>,
    pub sequence_participant_background: Seq<char>,
    pub sequence_participant_border: Seq<char>,
    pub sequence_lifeline_color: Seq<char>,
    pub note_background: Seq<char>,
    pub note_border: Seq<char>,
    pub color_scheme: ColorScheme,
    pub dark_background_color: Seq<char>,
    pub dark_font_color: Seq<char>,
    pub dark_arrow_color: Seq<char>,
}

impl View for Theme {
    type V = ThemeView;

    open spec fn view(&self) -> ThemeView {
        ThemeView {
            background_color: self.background_color@,
            font_family: self.font_family@,
            font_size_text: self.font_size_text@,
            font_color: self.font_color@,
            arrow_color: self.arrow_color@,
            arrow_thickness_text: self.arrow_thickness_text@,
            class_background: self.class_background@,
            class_border: self.class_border@,
            sequence_participant_background: self.sequence_participant_background@,
            sequence_participant_border: self.sequence_participant_border@,
            sequence_lifeline_color: self.sequence_lifeline_color@,
            note_background: self.note_background@,
            note_border: self.note_border@,
            color_scheme: self.color_scheme,
            dark_background_color: self.dark_background_color@,
            dark_font_color: self.dark_font_color@,
            dark_arrow_color: self.dark_arrow_color@,
        }
    }
}

/// The default theme: the classic light colours, font `"Liberation
/// Sans",Helvetica,Arial,sans-serif` at size 13, arrows 1.5 wide, and the
/// adaptive colour scheme.
pub open spec fn default_theme() -> ThemeView {
    ThemeView {
        background_color: "#ffffff"@,
        font_family: "\"Liberation Sans\",Helvetica,Arial,sans-serif"@,
        font_size_text: "13"@,
        font_color: "#181818"@,
        arrow_color: "#181818"@,
        arrow_thickness_text: "1.5"@,
        class_background: "#dae8fc"@,
        class_border: "#6c8ebf"@,
        sequence_participant_background: "#dae8fc"@,
        sequence_participant_border: "#6c8ebf"@,
        sequence_lifeline_color: "#6c8ebf"@,
        note_background: "#ffffc0"@,
        note_border: "#bbbb00"@,
        color_scheme: ColorScheme::Auto,
        dark_background_color: "#1e1e1e"@,
        dark_font_color: "#e8e8e8"@,
        dark_arrow_color: "#e8e8e8"@,
    }
}

/// The theme of each preset: `Light` is the default pinned to the light
/// scheme; `Plain` is white and grey; `Amiga` is deep blue and orange;
/// `Dark` has near-black backgrounds and light text; `Auto` and `Default`
/// are the default theme.
pub open spec fn spec_preset_theme(p: ThemePreset) -> ThemeView {
    let d = default_theme();
    match p {
        ThemePreset::Light => ThemeView { color_scheme: ColorScheme::Light, ..d },
        ThemePreset::Plain => ThemeView {
            class_background: "#ffffff"@,
            class_border: "#333333"@,
            sequence_participant_background: "#ffffff"@,
            sequence_participant_border: "#333333"@,
            sequence_lifeline_color: "#888888"@,
            color_scheme: ColorScheme::Light,
            ..d
        },
        ThemePreset::Amiga => ThemeView {
            background_color: "#000088"@,
            font_color: "#ffffff"@,
            arrow_color: "#ffffff"@,
            class_background: "#000088"@,
            class_border: "#ff8800"@,
            sequence_participant_background: "#000088"@,
            sequence_participant_border: "#ff8800"@,
            sequence_lifeline_color: "#ff8800"@,
            note_background: "#ffaa00"@,
            note_border: "#ff8800"@,
            color_scheme: ColorScheme::Light,
            ..d
        },
        ThemePreset::Dark => ThemeView {
            background_color: "#1e1e1e"@,
            font_color: "#e8e8e8"@,
            arrow_color: "#d0d0d0"@,
            class_background: "#2d3748"@,
            class_border: "#7fa0c8"@,
            sequence_participant_background: "#2d3748"@,
            sequence_participant_border: "#7fa0c8"@,
            sequence_lifeline_color: "#888888"@,
            note_background: "#3a3a00"@,
            note_border: "#bbbb55"@,
            color_scheme: ColorScheme::Dark,
            ..d
        },
        ThemePreset::Auto => d,
        ThemePreset::Default => d,
    }
}

/// What the skin parameter with the normalised key `k` and the trimmed value
/// `v` does to the theme `t`. An empty value changes nothing, and so does a
/// key that is not known. `theme` reloads a preset (by the value, ignoring
/// case); the font name loses its quotes; a font size or arrow thickness
/// that is not a number is ignored; an arrow colour or thickness may be
/// given for sequence and class diagrams alike.
pub open spec fn spec_apply(t: ThemeView, k: Seq<char>, v: Seq<char>) -> ThemeView {
    if v.len() == 0 {
        t
    } else if k == "theme"@ {
        spec_preset_theme(spec_preset_of(unicode_lowercase(v)))
    } else if k == "backgroundcolor"@ {
        ThemeView { background_color: v, ..t }
    } else if k == "defaultfontname"@ || k == "fontname"@ {
        ThemeView { font_family: spec_unquote_value(v), ..t }
    } else if k == "defaultfontsize"@ || k == "fontsize"@ {
        if is_float_text(v) {
            ThemeView { font_size_text: v, ..t }
        } else {
            t
        }
    } else if k == "defaultfontcolor"@ || k == "fontcolor"@ {
        ThemeView { font_color: v, ..t }
    } else if k == "arrowcolor"@ || k == "sequencearrowcolor"@ || k == "classarrowcolor"@ {
        ThemeView { arrow_color: v, ..t }
    } else if k == "arrowthickness"@ || k == "sequencearrowthickness"@ {
        if is_float_text(v) {
            ThemeView { arrow_thickness_text: v, ..t }
        } else {
            t
        }
    } else if k == "classbackgroundcolor"@ {
        ThemeView { class_background: v, ..t }
    } else if k == "classbordercolor"@ {
        ThemeView { class_border: v, ..t }
    } else if k == "participantbackgroundcolor"@ || k == "sequenceparticipantbackgroundcolor"@ {
        ThemeView { sequence_participant_background: v, ..t }
    } else if k == "participantbordercolor"@ || k == "sequenceparticipantbordercolor"@ {
        ThemeView { sequence_participant_border: v, ..t }
    } else if k == "lifelinestrokecolor"@ || k == "sequencelifelinecolor"@ {
        ThemeView { sequence_lifeline_color: v, ..t }
    } else if k == "notebackgroundcolor"@ {
        ThemeView { note_background: v, ..t }
    } else if k == "notebordercolor"@ {
        ThemeView { note_border: v, ..t }
    } else {
        t
    }
}

/// The skin parameters `pairs` applied in order (see [`spec_apply`]).
pub open spec fn spec_apply_all(t: ThemeView, pairs: Seq<(String, String)>) -> ThemeView
    decreases pairs.len(),
{
    if pairs.len() == 0 {
        t
    } else {
        let last = pairs.last();
        spec_apply(
            spec_apply_all(t, pairs.drop_last()),
            unicode_lowercase(trim(last.0@)),
            trim(last.1@),
        )
    }
}

fn text(lit: &str) -> (r: String)
    ensures
        r@ == lit@,
{
    lit.to_owned()
}

impl Default for Theme {
    fn default() -> (r: Theme)
        ensures
            r@ == default_theme(),
    {
        Theme {
            background_color: text("#ffffff"),
            font_family: text("\"Liberation Sans\",Helvetica,Arial,sans-serif"),
            font_size_text: text("13"),
            font_color: text("#181818"),
            arrow_color: text("#181818"),
            arrow_thickness_text: text("1.5"),
            class_background: text("#dae8fc"),
            class_border: text("#6c8ebf"),
            sequence_participant_background: text("#dae8fc"),
            sequence_participant_border: text("#6c8ebf"),
            sequence_lifeline_color: text("#6c8ebf"),
            note_background: text("#ffffc0"),
            note_border: text("#bbbb00"),
            color_scheme: ColorScheme::Auto,
            dark_background_color: text("#1e1e1e"),
            dark_font_color: text("#e8e8e8"),
            dark_arrow_color: text("#e8e8e8"),
        }
    }
}

impl Theme {
    /// The theme of a preset (see [`spec_preset_theme`]).
    pub fn preset(p: ThemePreset) -> (r: Theme)
        ensures
            r@ == spec_preset_theme(p),
    {
        let mut t = Theme::default();
        match p {
            ThemePreset::Light => {
                t.color_scheme = ColorScheme::Light;
            },
            ThemePreset::Plain => {
                t.class_background = text("#ffffff");
                t.class_border = text("#333333");
                t.sequence_participant_background = text("#ffffff");
                t.sequence_participant_border = text("#333333");
                t.sequence_lifeline_color = text("#888888");
                t.color_scheme = ColorScheme::Light;
            },
            ThemePreset::Amiga => {
                t.background_color = text("#000088");
                t.font_color = text("#ffffff");
                t.arrow_color = text("#ffffff");
                t.class_background = text("#000088");
                t.class_border = text("#ff8800");
                t.sequence_participant_background = text("#000088");
                t.sequence_participant_border = text("#ff8800");
                t.sequence_lifeline_color = text("#ff8800");
                t.note_background = text("#ffaa00");
                t.note_border = text("#ff8800");
                t.color_scheme = ColorScheme::Light;
            },
            ThemePreset::Dark => {
                t.background_color = text("#1e1e1e");
                t.font_color = text("#e8e8e8");
                t.arrow_color = text("#d0d0d0");
                t.class_background = text("#2d3748");
                t.class_border = text("#7fa0c8");
                t.sequence_participant_background = text("#2d3748");
                t.sequence_participant_border = text("#7fa0c8");
                t.sequence_lifeline_color = text("#888888");
                t.note_background = text("#3a3a00");
                t.note_border = text("#bbbb55");
                t.color_scheme = ColorScheme::Dark;
            },
            ThemePreset::Auto => {},
            ThemePreset::Default => {},
        }
        t
    }

    /// The theme a preset name selects, matched ignoring case; an unknown
    /// name gives the default theme.
    pub fn from_preset(name: &str) -> (r: Theme)
        ensures
            r@ == spec_preset_theme(spec_preset_of(unicode_lowercase(name@))),
    {
        Theme::preset(preset_of(name))
    }

    /// Applies one `skinparam key value` pair (see [`spec_apply`]); the key
    /// is matched trimmed and ignoring case, the value trimmed.
    pub fn apply_skinparam(&mut self, key: &str, value: &str)
        ensures
            final(self)@ == spec_apply(old(self)@, unicode_lowercase(trim(key@)), trim(value@)),
    {
        let vc = trim_chars(chars_of(value).as_slice());
        if vc.len() == 0 {
            return;
        }
        let v = string_of(vc.as_slice());
        let kn = normalize_key(key);
        let k = chars_of(kn.as_str());
        let k = k.as_slice();
        if eq_str(k, "theme") {
            *self = Theme::from_preset(v.as_str());
        } else if eq_str(k, "backgroundcolor") {
            self.background_color = v;
        } else if eq_str(k, "defaultfontname") || eq_str(k, "fontname") {
            self.font_family = unquote(v.as_str());
        } else if eq_str(k, "defaultfontsize") || eq_str(k, "fontsize") {
            if float_text(v.as_str()) {
                self.font_size_text = v;
            }
        } else if eq_str(k, "defaultfontcolor") || eq_str(k, "fontcolor") {
            self.font_color = v;
        } else if eq_str(k, "arrowcolor") || eq_str(k, "sequencearrowcolor") || eq_str(k, "classarrowcolor") {
            self.arrow_color = v;
        } else if eq_str(k, "arrowthickness") || eq_str(k, "sequencearrowthickness") {
            if float_text(v.as_str()) {
                self.arrow_thickness_text = v;
            }
        } else if eq_str(k, "classbackgroundcolor") {
            self.class_background = v;
        } else if eq_str(k, "classbordercolor") {
            self.class_border = v;
        } else if eq_str(k, "participantbackgroundcolor") || eq_str(k, "sequenceparticipantbackgroundcolor") {
            self.sequence_participant_background = v;
        } else if eq_str(k, "participantbordercolor") || eq_str(k, "sequenceparticipantbordercolor") {
            self.sequence_participant_border = v;
        } else if eq_str(k, "lifelinestrokecolor") || eq_str(k, "sequencelifelinecolor") {
            self.sequence_lifeline_color = v;
        } else if eq_str(k, "notebackgroundcolor") {
            self.note_background = v;
        } else if eq_str(k, "notebordercolor") {
            self.note_border = v;
        }
    }

    /// Applies every `(key, value)` pair in order, as a diagram's collected
    /// skin parameters are.
    pub fn apply_all(&mut self, pairs: &[(String, String)])
        ensures
            final(self)@ == spec_apply_all(old(self)@, pairs@),
    {
        let mut i: usize = 0;
        while i < pairs.len()
            invariant
                i <= pairs@.len(),
                self@ == spec_apply_all(old(self)@, pairs@.take(i as int)),
            decreases pairs.len() - i,
        {
            assert(pairs@.take(i + 1).drop_last() =~= pairs@.take(i as int));
            let (k, v) = &pairs[i];
            self.apply_skinparam(k.as_str(), v.as_str());
            i = i + 1;
        }
        assert(pairs@.take(pairs@.len() as int) =~= pairs@);
    }
}


/// Each known skin parameter, given a value, sets its own field and leaves
/// every other field as it was: the colours take the value, the font name
/// takes it unquoted, and the font size and arrow thickness take it only
/// when it reads as a number.
#[verifier::rlimit(50)]
pub proof fn law_each_skin_parameter_sets_its_field(t: ThemeView, v: Seq<char>)
    requires
        v.len() > 0,
    ensures
        ({
            let r = spec_apply(t, "backgroundcolor"@, v);
            r.background_color == v && ThemeView { background_color: t.background_color, ..r } == t
        }),
        ({
            let r = spec_apply(t, "defaultfontcolor"@, v);
            r.font_color == v && ThemeView { font_color: t.font_color, ..r } == t
        }),
        ({
            let r = spec_apply(t, "fontcolor"@, v);
            r.font_color == v && ThemeView { font_color: t.font_color, ..r } == t
        }),
        ({
            let r = spec_apply(t, "arrowcolor"@, v);
            r.arrow_color == v && ThemeView { arrow_color: t.arrow_color, ..r } == t
        }),
        ({
            let r = spec_apply(t, "sequencearrowcolor"@, v);
            r.arrow_color == v && ThemeView { arrow_color: t.arrow_color, ..r } == t
        }),
        ({
            let r = spec_apply(t, "classarrowcolor"@, v);
            r.arrow_color == v && ThemeView { arrow_color: t.arrow_color, ..r } == t
        }),
        ({
            let r = spec_apply(t, "classbackgroundcolor"@, v);
            r.class_background == v && ThemeView { class_background: t.class_background, ..r } == t
        }),
        ({
            let r = spec_apply(t, "classbordercolor"@, v);
            r.class_border == v && ThemeView { class_border: t.class_border, ..r } == t
        }),
        ({
            let r = spec_apply(t, "participantbackgroundcolor"@, v);
            r.sequence_participant_background == v && ThemeView { sequence_participant_background: t.sequence_participant_background, ..r } == t
        }),
        ({
            let r = spec_apply(t, "sequenceparticipantbackgroundcolor"@, v);
            r.sequence_participant_background == v && ThemeView { sequence_participant_background: t.sequence_participant_background, ..r } == t
        }),
        ({
            let r = spec_apply(t, "participantbordercolor"@, v);
            r.sequence_participant_border == v && ThemeView { sequence_participant_border: t.sequence_participant_border, ..r } == t
        }),
        ({
            let r = spec_apply(t, "sequenceparticipantbordercolor"@, v);
            r.sequence_participant_border == v && ThemeView { sequence_participant_border: t.sequence_participant_border, ..r } == t
        }),
        ({
            let r = spec_apply(t, "lifelinestrokecolor"@, v);
            r.sequence_lifeline_color == v && ThemeView { sequence_lifeline_color: t.sequence_lifeline_color, ..r } == t
        }),
        ({
            let r = spec_apply(t, "sequencelifelinecolor"@, v);
            r.sequence_lifeline_color == v && ThemeView { sequence_lifeline_color: t.sequence_lifeline_color, ..r } == t
        }),
        ({
            let r = spec_apply(t, "notebackgroundcolor"@, v);
            r.note_background == v && ThemeView { note_background: t.note_background, ..r } == t
        }),
        ({
            let r = spec_apply(t, "notebordercolor"@, v);
            r.note_border == v && ThemeView { note_border: t.note_border, ..r } == t
        }),
        ({
            let r = spec_apply(t, "defaultfontname"@, v);
            r.font_family == spec_unquote_value(v) && ThemeView { font_family: t.font_family, ..r } == t
        }),
        ({
            let r = spec_apply(t, "fontname"@, v);
            r.font_family == spec_unquote_value(v) && ThemeView { font_family: t.font_family, ..r } == t
        }),
        ({
            let r = spec_apply(t, "defaultfontsize"@, v);
            &&& is_float_text(v) ==> r.font_size_text == v && ThemeView { font_size_text: t.font_size_text, ..r } == t
            &&& !is_float_text(v) ==> r == t
        }),
        ({
            let r = spec_apply(t, "fontsize"@, v);
            &&& is_float_text(v) ==> r.font_size_text == v && ThemeView { font_size_text: t.font_size_text, ..r } == t
            &&& !is_float_text(v) ==> r == t
        }),
        ({
            let r = spec_apply(t, "arrowthickness"@, v);
            &&& is_float_text(v) ==> r.arrow_thickness_text == v && ThemeView { arrow_thickness_text: t.arrow_thickness_text, ..r } == t
            &&& !is_float_text(v) ==> r == t
        }),
        ({
            let r = spec_apply(t, "sequencearrowthickness"@, v);
            &&& is_float_text(v) ==> r.arrow_thickness_text == v && ThemeView { arrow_thickness_text: t.arrow_thickness_text, ..r } == t
            &&& !is_float_text(v) ==> r == t
        }),
{
    reveal_strlit("theme");
    reveal_strlit("backgroundcolor");
    reveal_strlit("defaultfontname");
    reveal_strlit("fontname");
    reveal_strlit("defaultfontsize");
    reveal_strlit("fontsize");
    reveal_strlit("defaultfontcolor");
    reveal_strlit("fontcolor");
    reveal_strlit("arrowcolor");
    reveal_strlit("sequencearrowcolor");
    reveal_strlit("classarrowcolor");
    reveal_strlit("arrowthickness");
    reveal_strlit("sequencearrowthickness");
    reveal_strlit("classbackgroundcolor");
    reveal_strlit("classbordercolor");
    reveal_strlit("participantbackgroundcolor");
    reveal_strlit("sequenceparticipantbackgroundcolor");
    reveal_strlit("participantbordercolor");
    reveal_strlit("sequenceparticipantbordercolor");
    reveal_strlit("lifelinestrokecolor");
    reveal_strlit("sequencelifelinecolor");
    reveal_strlit("notebackgroundcolor");
    reveal_strlit("notebordercolor");
    assert("theme"@.len() == 5);
    assert("backgroundcolor"@.len() == 15);
    assert("defaultfontname"@.len() == 15);
    assert("fontname"@.len() == 8);
    assert("defaultfontsize"@.len() == 15);
    assert("fontsize"@.len() == 8);
    assert("defaultfontcolor"@.len() == 16);
    assert("fontcolor"@.len() == 9);
    assert("arrowcolor"@.len() == 10);
    assert("sequencearrowcolor"@.len() == 18);
    assert("classarrowcolor"@.len() == 15);
    assert("arrowthickness"@.len() == 14);
    assert("sequencearrowthickness"@.len() == 22);
    assert("classbackgroundcolor"@.len() == 20);
    assert("classbordercolor"@.len() == 16);
    assert("participantbackgroundcolor"@.len() == 26);
    assert("sequenceparticipantbackgroundcolor"@.len() == 34);
    assert("participantbordercolor"@.len() == 22);
    assert("sequenceparticipantbordercolor"@.len() == 30);
    assert("lifelinestrokecolor"@.len() == 19);
    assert("sequencelifelinecolor"@.len() == 21);
    assert("notebackgroundcolor"@.len() == 19);
    assert("notebordercolor"@.len() == 15);
    assert("backgroundcolor"@[0] != "defaultfontname"@[0]);
    assert("backgroundcolor"@[0] != "defaultfontsize"@[0]);
    assert("backgroundcolor"@[0] != "classarrowcolor"@[0]);
    assert("backgroundcolor"@[0] != "notebordercolor"@[0]);
    assert("defaultfontname"@[11] != "defaultfontsize"@[11]);
    assert("defaultfontname"@[0] != "classarrowcolor"@[0]);
    assert("defaultfontname"@[0] != "notebordercolor"@[0]);
    assert("fontname"@[4] != "fontsize"@[4]);
    assert("defaultfontsize"@[0] != "classarrowcolor"@[0]);
    assert("defaultfontsize"@[0] != "notebordercolor"@[0]);
    assert("defaultfontcolor"@[0] != "classbordercolor"@[0]);
    assert("classarrowcolor"@[0] != "notebordercolor"@[0]);
    assert("sequencearrowthickness"@[0] != "participantbordercolor"@[0]);
    assert("lifelinestrokecolor"@[0] != "notebackgroundcolor"@[0]);
}

/// An empty value changes nothing, and neither does a key that names no
/// skin parameter.
pub proof fn law_other_skin_parameters_change_nothing(t: ThemeView, k: Seq<char>, v: Seq<char>)
    ensures
        spec_apply(t, k, Seq::<char>::empty()) == t,
        k != "theme"@ && k != "backgroundcolor"@ && k != "defaultfontname"@ && k != "fontname"@ && k != "defaultfontsize"@ && k != "fontsize"@ && k != "defaultfontcolor"@ && k != "fontcolor"@ && k != "arrowcolor"@ && k != "sequencearrowcolor"@ && k != "classarrowcolor"@ && k != "arrowthickness"@ && k != "sequencearrowthickness"@ && k != "classbackgroundcolor"@ && k != "classbordercolor"@ && k != "participantbackgroundcolor"@ && k != "sequenceparticipantbackgroundcolor"@ && k != "participantbordercolor"@ && k != "sequenceparticipantbordercolor"@ && k != "lifelinestrokecolor"@ && k != "sequencelifelinecolor"@ && k != "notebackgroundcolor"@ && k != "notebordercolor"@ ==> spec_apply(t, k, v) == t,
{
}

} // verus!
